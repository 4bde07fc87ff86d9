use vstd::prelude::*;

use crate::text::{count_char, lemma_count_char_concat};

verus! {

/// The hexadecimal digit for a nibble `n < 16`.
pub open spec fn hex_digit(n: nat, upper: bool) -> char {
    if n < 10 {
        (n + 48) as char
    } else if upper {
        (n + 55) as char
    } else {
        (n + 87) as char
    }
}

/// The two digits of a byte, high nibble first.
pub open spec fn hex_pair(b: u8, upper: bool) -> Seq<char> {
    seq![hex_digit(b as nat / 16, upper), hex_digit(b as nat % 16, upper)]
}

fn digit(n: u8, upper: bool) -> (c: char)
    requires
        n < 16,
    ensures
        c == hex_digit(n as nat, upper),
{
    if n < 10 {
        (n + 48) as char
    } else if upper {
        (n + 55) as char
    } else {
        (n + 87) as char
    }
}

/// Whether a group separator precedes the slot at index `i`.
pub open spec fn sep_before(i: int, split: nat) -> bool {
    i > 0 && split > 0 && i % (split as int) == 0
}

/// The text of slot `i`: the byte's two digits, or two fill dots past the
/// end of the chunk.
pub open spec fn hex_slot(chunk: Seq<u8>, i: int, upper: bool) -> Seq<char> {
    if i < chunk.len() {
        hex_pair(chunk[i], upper)
    } else {
        seq!['.', '.']
    }
}

/// Slot `i` with the separator that precedes it, if any.
pub open spec fn hex_cell(chunk: Seq<u8>, i: int, split: nat, upper: bool) -> Seq<char> {
    if sep_before(i, split) {
        seq![' '] + hex_slot(chunk, i, upper)
    } else {
        hex_slot(chunk, i, upper)
    }
}

/// The first `n` slots of the hex column.
pub open spec fn hex_prefix(chunk: Seq<u8>, n: nat, split: nat, upper: bool) -> Seq<char>
    decreases n,
{
    if n == 0 {
        Seq::empty()
    } else {
        hex_prefix(chunk, (n - 1) as nat, split, upper) + hex_cell(chunk, n - 1, split, upper)
    }
}

/// Number of slots in a line: the nominal width, or the chunk's length when
/// that is larger.
pub open spec fn slot_count(len: nat, width: nat) -> nat {
    if len < width {
        width
    } else {
        len
    }
}

/// The hex column of a chunk rendered at nominal width `width`.
pub open spec fn hex_text(chunk: Seq<u8>, width: nat, split: nat, upper: bool) -> Seq<char> {
    hex_prefix(chunk, slot_count(chunk.len(), width), split, upper)
}

/// Renders `chunk` as two hex digits per byte, with a space before every
/// `split`-th byte (none when `split` is 0), and fills the slots between the
/// chunk's end and `width` with `..` each, so that short chunks keep the
/// width of full ones.
pub fn format_hex(chunk: &[u8], width: usize, split: usize, upper_case: bool) -> (r: String)
    ensures
        r@ == hex_text(chunk@, width as nat, split as nat, upper_case),
{
    let len = chunk.len();
    let slots = if len < width {
        width
    } else {
        len
    };
    let mut out = String::new();
    let mut i: usize = 0;
    while i < slots
        invariant
            i <= slots,
            slots == slot_count(chunk@.len(), width as nat),
            len == chunk@.len(),
            out@ == hex_prefix(chunk@, i as nat, split as nat, upper_case),
        decreases slots - i,
    {
        let ghost before = out@;
        if i != 0 && split != 0 && i % split == 0 {
            out.push(' ');
        }
        if i < len {
            let b = chunk[i];
            out.push(digit(b / 16, upper_case));
            out.push(digit(b % 16, upper_case));
        } else {
            out.push('.');
            out.push('.');
        }
        assert(out@ =~= before + hex_cell(chunk@, i as int, split as nat, upper_case));
        i += 1;
    }
    out
}

/// Whether `c` is one of the characters `0-9`, `a-f`, `A-F`.
pub open spec fn is_hex_char(c: char) -> bool {
    (48 <= c as int <= 57) || (97 <= c as int <= 102) || (65 <= c as int <= 70)
}

/// `c` with an ASCII lower-case letter turned upper case.
pub open spec fn upper_char(c: char) -> char {
    if 97 <= c as int <= 122 {
        (c as int - 32) as char
    } else {
        c
    }
}

/// `s` with every ASCII lower-case letter turned upper case.
pub open spec fn upper_text(s: Seq<char>) -> Seq<char> {
    s.map_values(|c: char| upper_char(c))
}

/// Number of group separators among `n` slots: the indices `i` in `1..n`
/// that are multiples of `split`, that is `ceil(n / split) - 1`.
pub open spec fn separator_count(n: nat, split: nat) -> nat {
    if n == 0 || split == 0 {
        0
    } else {
        ((n - 1) as nat) / split
    }
}

proof fn lemma_separator_step(n: nat, split: nat)
    requires
        n > 0,
    ensures
        separator_count(n, split) == separator_count((n - 1) as nat, split) + if sep_before(
            n - 1,
            split,
        ) {
            1nat
        } else {
            0nat
        },
{
    if split > 0 && n > 1 {
        let m = n - 1;
        let s = split as int;
        let q = m / s;
        let r = m % s;
        let q1 = (m - 1) / s;
        let r1 = (m - 1) % s;
        vstd::arithmetic::div_mod::lemma_fundamental_div_mod(m, s);
        vstd::arithmetic::div_mod::lemma_fundamental_div_mod(m - 1, s);
        assert(0 <= r < s && 0 <= r1 < s);
        assert(m == s * q + r && m - 1 == s * q1 + r1);
        if r == 0 {
            assert(q == q1 + 1) by (nonlinear_arith)
                requires
                    m == s * q + r,
                    m - 1 == s * q1 + r1,
                    r == 0,
                    0 <= r1 < s,
            ;
        } else {
            assert(q == q1) by (nonlinear_arith)
                requires
                    m == s * q + r,
                    m - 1 == s * q1 + r1,
                    0 < r < s,
                    0 <= r1 < s,
            ;
        }
    }
}

proof fn lemma_digit_facts(n: nat)
    requires
        n < 16,
    ensures
        is_hex_char(hex_digit(n, false)),
        is_hex_char(hex_digit(n, true)),
        hex_digit(n, true) == upper_char(hex_digit(n, false)),
{
}

/// Shape of the first `n` slots: length, separators, fill dots, and the
/// characters that can occur.
proof fn lemma_prefix_shape(chunk: Seq<u8>, n: nat, split: nat, upper: bool)
    ensures
        hex_prefix(chunk, n, split, upper).len() == 2 * n + separator_count(n, split),
        count_char(hex_prefix(chunk, n, split, upper), ' ') == separator_count(n, split),
        count_char(hex_prefix(chunk, n, split, upper), '.') == 2 * (n - if n < chunk.len() {
            n
        } else {
            chunk.len()
        }),
        forall|k: int|
            0 <= k < hex_prefix(chunk, n, split, upper).len() ==> {
                let c = #[trigger] hex_prefix(chunk, n, split, upper)[k];
                c == ' ' || c == '.' || is_hex_char(c)
            },
    decreases n,
{
    if n > 0 {
        let i = n - 1;
        let p = hex_prefix(chunk, i as nat, split, upper);
        let cell = hex_cell(chunk, i, split, upper);
        let slot = hex_slot(chunk, i, upper);
        lemma_prefix_shape(chunk, i as nat, split, upper);
        lemma_separator_step(n, split);
        lemma_count_char_concat(p, cell, ' ');
        lemma_count_char_concat(p, cell, '.');
        if i < chunk.len() {
            lemma_digit_facts(chunk[i] as nat / 16);
            lemma_digit_facts(chunk[i] as nat % 16);
        }
        let d = slot;
        assert(d.len() == 2);
        assert(d.drop_last().drop_last() =~= Seq::<char>::empty());
        reveal_with_fuel(count_char, 3);
        assert(count_char(d, ' ') == 0);
        assert(count_char(d, '.') == if i < chunk.len() {
            0nat
        } else {
            2nat
        });
        if sep_before(i, split) {
            lemma_count_char_concat(seq![' '], d, ' ');
            lemma_count_char_concat(seq![' '], d, '.');
            assert(seq![' '].drop_last() =~= Seq::<char>::empty());
            assert(count_char(seq![' '], '.') == 0);
        }
        assert forall|k: int| 0 <= k < hex_prefix(chunk, n, split, upper).len() implies {
            let c = #[trigger] hex_prefix(chunk, n, split, upper)[k];
            c == ' ' || c == '.' || is_hex_char(c)
        } by {
            if k >= p.len() {
                assert(hex_prefix(chunk, n, split, upper)[k] == cell[k - p.len()]);
            } else {
                assert(hex_prefix(chunk, n, split, upper)[k] == p[k]);
            }
        }
    }
}

/// A chunk rendered at a width no larger than its length has two hex digits
/// per byte and `ceil(len / split) - 1` single-space separators (none when
/// `split` is 0), and nothing else.
pub proof fn lemma_hex_counts(chunk: Seq<u8>, width: nat, split: nat, upper: bool)
    requires
        width <= chunk.len(),
    ensures
        hex_text(chunk, width, split, upper).len() == 2 * chunk.len() + separator_count(
            chunk.len(),
            split,
        ),
        count_char(hex_text(chunk, width, split, upper), ' ') == separator_count(
            chunk.len(),
            split,
        ),
        forall|k: int|
            0 <= k < hex_text(chunk, width, split, upper).len() ==> {
                let c = #[trigger] hex_text(chunk, width, split, upper)[k];
                c == ' ' || is_hex_char(c)
            },
{
    lemma_prefix_shape(chunk, chunk.len(), split, upper);
    let t = hex_text(chunk, width, split, upper);
    assert forall|k: int| 0 <= k < t.len() implies {
        let c = #[trigger] t[k];
        c == ' ' || is_hex_char(c)
    } by {
        if t[k] == '.' {
            lemma_count_char_positive(t, k, '.');
        }
    }
}

proof fn lemma_count_char_positive(s: Seq<char>, k: int, c: char)
    requires
        0 <= k < s.len(),
        s[k] == c,
    ensures
        count_char(s, c) > 0,
    decreases s.len(),
{
    if k < s.len() - 1 {
        lemma_count_char_positive(s.drop_last(), k, c);
    }
}

proof fn lemma_prefix_case(chunk: Seq<u8>, n: nat, split: nat)
    ensures
        hex_prefix(chunk, n, split, true) == upper_text(hex_prefix(chunk, n, split, false)),
    decreases n,
{
    if n > 0 {
        let i = n - 1;
        lemma_prefix_case(chunk, i as nat, split);
        let lo = hex_prefix(chunk, i as nat, split, false);
        let cell = hex_cell(chunk, i, split, false);
        if i < chunk.len() {
            lemma_digit_facts(chunk[i] as nat / 16);
            lemma_digit_facts(chunk[i] as nat % 16);
        }
        assert(upper_text(lo + cell) =~= upper_text(lo) + upper_text(cell));
        assert(hex_cell(chunk, i, split, true) =~= upper_text(cell));
    }
}

/// Upper-case rendering is lower-case rendering with its letters turned
/// upper case, character for character.
pub proof fn lemma_hex_case(chunk: Seq<u8>, width: nat, split: nat)
    ensures
        hex_text(chunk, width, split, true) == upper_text(hex_text(chunk, width, split, false)),
{
    lemma_prefix_case(chunk, slot_count(chunk.len(), width), split);
}

proof fn lemma_prefix_extends(chunk: Seq<u8>, n: nat, m: nat, split: nat, upper: bool)
    requires
        n <= m,
    ensures
        hex_prefix(chunk, n, split, upper).len() <= hex_prefix(chunk, m, split, upper).len(),
        hex_prefix(chunk, m, split, upper).subrange(
            0,
            hex_prefix(chunk, n, split, upper).len() as int,
        ) == hex_prefix(chunk, n, split, upper),
    decreases m,
{
    if n < m {
        lemma_prefix_extends(chunk, n, (m - 1) as nat, split, upper);
        let p = hex_prefix(chunk, (m - 1) as nat, split, upper);
        let q = hex_prefix(chunk, n, split, upper);
        assert((p + hex_cell(chunk, m - 1, split, upper)).subrange(0, q.len() as int)
            =~= p.subrange(0, q.len() as int));
    }
}

/// A chunk of `R` bytes rendered at width `W > R` begins with the chunk's own
/// rendering and holds exactly `2 * (W - R)` fill dots, one pair for each
/// missing byte, so that its length is that of a full chunk of `W` bytes.
pub proof fn lemma_hex_padding(chunk: Seq<u8>, width: nat, split: nat, upper: bool)
    requires
        chunk.len() < width,
    ensures
        count_char(hex_text(chunk, width, split, upper), '.') == 2 * (width - chunk.len()),
        hex_text(chunk, width, split, upper).len() == 2 * width + separator_count(width, split),
        hex_text(chunk, width, split, upper).subrange(
            0,
            hex_text(chunk, chunk.len(), split, upper).len() as int,
        ) == hex_text(chunk, chunk.len(), split, upper),
{
    lemma_prefix_shape(chunk, width, split, upper);
    lemma_prefix_extends(chunk, chunk.len(), width, split, upper);
}

} // verus!
