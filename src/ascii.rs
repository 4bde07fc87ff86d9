use vstd::prelude::*;

use crate::hex::{hex_text, separator_count};
use crate::text::{count_char, lemma_count_char_concat};

verus! {

/// `n` fill dots.
pub open spec fn dots(n: nat) -> Seq<char> {
    Seq::new(n, |_k: int| '.')
}

/// `n` blocks of `2 * split` dots, separated by single spaces.
pub open spec fn fill_blocks(n: nat, split: nat) -> Seq<char>
    decreases n,
{
    if n == 0 {
        Seq::empty()
    } else if n == 1 {
        dots(2 * split)
    } else {
        fill_blocks((n - 1) as nat, split) + seq![' '] + dots(2 * split)
    }
}

/// The run that stands in for the hex column on the line that follows an
/// embedded newline: one block of `split` byte-slots for each whole group
/// of a chunk of `total` bytes, or a single run over all of them when
/// `split` is 0. Each byte-slot is two dots wide, as in the hex column.
pub open spec fn fill_run(total: nat, split: nat) -> Seq<char> {
    if split == 0 {
        dots(2 * total)
    } else {
        fill_blocks(total / split, split)
    }
}

/// The column delimiter.
pub open spec fn delimiter() -> Seq<char> {
    seq![' ', '|', ' ']
}

/// The text of one byte of a chunk of `total` bytes: the byte as a
/// character, or for a newline a line break, the fill run and the
/// delimiter.
pub open spec fn ascii_slot(b: u8, total: nat, split: nat) -> Seq<char> {
    if b == 10 {
        seq!['\n'] + fill_run(total, split) + delimiter()
    } else {
        seq![b as char]
    }
}

/// The text of the bytes `bytes` of a chunk of `total` bytes.
pub open spec fn ascii_of(bytes: Seq<u8>, total: nat, split: nat) -> Seq<char>
    decreases bytes.len(),
{
    if bytes.len() == 0 {
        Seq::empty()
    } else {
        ascii_of(bytes.drop_last(), total, split) + ascii_slot(bytes.last(), total, split)
    }
}

/// The character column of a chunk.
pub open spec fn ascii_text(chunk: Seq<u8>, split: nat) -> Seq<char> {
    ascii_of(chunk, chunk.len(), split)
}

fn push_dots(out: &mut String, n: usize)
    ensures
        final(out)@ == old(out)@ + dots(2 * n as nat),
{
    let mut k: usize = 0;
    while k < n
        invariant
            k <= n,
            out@ == old(out)@ + dots(2 * k as nat),
        decreases n - k,
    {
        out.push('.');
        out.push('.');
        assert(out@ =~= old(out)@ + dots(2 * (k + 1) as nat));
        k += 1;
    }
}

fn push_fill(out: &mut String, total: usize, split: usize)
    ensures
        final(out)@ == old(out)@ + fill_run(total as nat, split as nat),
{
    if split == 0 {
        push_dots(out, total);
    } else {
        let n = total / split;
        let mut k: usize = 0;
        while k < n
            invariant
                split > 0,
                k <= n,
                n == total as nat / split as nat,
                out@ == old(out)@ + fill_blocks(k as nat, split as nat),
            decreases n - k,
        {
            if k != 0 {
                out.push(' ');
            }
            push_dots(out, split);
            assert(out@ =~= old(out)@ + fill_blocks((k + 1) as nat, split as nat));
            k += 1;
        }
    }
}

/// Renders `chunk` one character per byte. A newline byte becomes a line
/// break followed by the fill run for the chunk's length and `split`, and
/// the delimiter, so that the text after it lines up with the character
/// column.
pub fn format_ascii(chunk: &[u8], split: usize) -> (r: String)
    ensures
        r@ == ascii_text(chunk@, split as nat),
{
    let len = chunk.len();
    let mut out = String::new();
    let mut i: usize = 0;
    while i < len
        invariant
            i <= len,
            len == chunk@.len(),
            out@ == ascii_of(chunk@.take(i as int), len as nat, split as nat),
        decreases len - i,
    {
        let b = chunk[i];
        let ghost before = out@;
        if b == 10 {
            out.push('\n');
            push_fill(&mut out, len, split);
            out.push(' ');
            out.push('|');
            out.push(' ');
        } else {
            out.push(b as char);
        }
        assert(chunk@.take(i + 1).drop_last() =~= chunk@.take(i as int));
        assert(out@ =~= before + ascii_slot(b, len as nat, split as nat));
        i += 1;
    }
    assert(chunk@.take(len as int) =~= chunk@);
    out
}

/// Number of occurrences of `b` in `s`.
pub open spec fn count_byte(s: Seq<u8>, b: u8) -> nat
    decreases s.len(),
{
    if s.len() == 0 {
        0
    } else {
        count_byte(s.drop_last(), b) + if s.last() == b {
            1nat
        } else {
            0nat
        }
    }
}

/// Rendering distributes over concatenation of the bytes rendered.
pub proof fn lemma_ascii_concat(a: Seq<u8>, b: Seq<u8>, total: nat, split: nat)
    ensures
        ascii_of(a + b, total, split) == ascii_of(a, total, split) + ascii_of(b, total, split),
    decreases b.len(),
{
    if b.len() == 0 {
        assert(a + b =~= a);
        assert(ascii_of(a, total, split) + Seq::<char>::empty() =~= ascii_of(a, total, split));
    } else {
        assert((a + b).drop_last() =~= a + b.drop_last());
        lemma_ascii_concat(a, b.drop_last(), total, split);
        assert(ascii_of(a + b, total, split) =~= ascii_of(a, total, split) + ascii_of(
            b,
            total,
            split,
        ));
    }
}

/// A newline byte at index `i` breaks the line right after the text of the
/// bytes before it; the fill run for the chunk and the delimiter follow, and
/// then the text of the bytes after it.
pub proof fn lemma_newline_break(chunk: Seq<u8>, split: nat, i: int)
    requires
        0 <= i < chunk.len(),
        chunk[i] == 10,
    ensures
        ascii_text(chunk, split) == ascii_of(chunk.take(i), chunk.len(), split) + seq!['\n']
            + fill_run(chunk.len(), split) + delimiter() + ascii_of(
            chunk.skip(i + 1),
            chunk.len(),
            split,
        ),
{
    let l = chunk.len();
    assert(chunk =~= chunk.take(i) + seq![chunk[i]] + chunk.skip(i + 1));
    lemma_ascii_concat(chunk.take(i) + seq![chunk[i]], chunk.skip(i + 1), l, split);
    lemma_ascii_concat(chunk.take(i), seq![chunk[i]], l, split);
    assert(seq![chunk[i]].drop_last() =~= Seq::<u8>::empty());
    assert(seq![chunk[i]].last() == chunk[i]);
    assert(ascii_of(Seq::<u8>::empty(), l, split) == Seq::<char>::empty());
    assert(ascii_of(seq![chunk[i]], l, split) =~= ascii_slot(chunk[i], l, split));
}

proof fn lemma_fill_blocks_len(n: nat, split: nat)
    requires
        n > 0,
    ensures
        fill_blocks(n, split).len() == 2 * n * split + n - 1,
    decreases n,
{
    if n > 1 {
        lemma_fill_blocks_len((n - 1) as nat, split);
        assert(2 * n * split == 2 * (n - 1) * split + 2 * split) by (nonlinear_arith);
    }
}

/// Where the chunk's length is a whole number of groups (or there is no
/// grouping), the fill run after a newline is exactly as wide as the
/// chunk's hex column, so the continued character column stays aligned.
pub proof fn lemma_fill_width(chunk: Seq<u8>, split: nat, upper: bool)
    requires
        split == 0 || chunk.len() % split == 0,
    ensures
        fill_run(chunk.len(), split).len() == hex_text(chunk, chunk.len(), split, upper).len(),
{
    let l = chunk.len();
    crate::hex::lemma_hex_counts(chunk, l, split, upper);
    if split > 0 && l > 0 {
        let n = l / split;
        vstd::arithmetic::div_mod::lemma_fundamental_div_mod(l as int, split as int);
        assert(l == split * n);
        assert(n > 0) by (nonlinear_arith)
            requires
                l == split * n,
                l > 0,
        ;
        lemma_fill_blocks_len(n, split);
        assert(l - 1 == (n - 1) * split + (split - 1)) by (nonlinear_arith)
            requires
                l == split * n,
        ;
        vstd::arithmetic::div_mod::lemma_fundamental_div_mod_converse(
            l - 1,
            split as int,
            n - 1,
            split - 1,
        );
        assert(separator_count(l, split) == n - 1);
        assert(2 * n * split == 2 * l) by (nonlinear_arith)
            requires
                l == split * n,
        ;
    }
}

/// The character column holds one line break per newline byte of the chunk,
/// as many as the extra lines it spans.
pub proof fn lemma_line_breaks(chunk: Seq<u8>, split: nat)
    ensures
        count_char(ascii_text(chunk, split), '\n') == count_byte(chunk, 10),
{
    lemma_line_breaks_of(chunk, chunk.len(), split);
}

proof fn lemma_no_break_in_fill(n: nat, split: nat)
    ensures
        count_char(fill_blocks(n, split), '\n') == 0,
        count_char(dots(n), '\n') == 0,
    decreases n,
{
    if n > 0 {
        lemma_no_break_in_fill((n - 1) as nat, split);
        assert(dots(n).drop_last() =~= dots((n - 1) as nat));
        lemma_no_break_in_fill(0, split);
        lemma_dots_no_break(2 * split);
        if n > 1 {
            let a = fill_blocks((n - 1) as nat, split);
            lemma_count_char_concat(a, seq![' '], '\n');
            lemma_count_char_concat(a + seq![' '], dots(2 * split), '\n');
            assert(seq![' '].drop_last() =~= Seq::<char>::empty());
        }
    }
}

proof fn lemma_dots_no_break(n: nat)
    ensures
        count_char(dots(n), '\n') == 0,
    decreases n,
{
    if n > 0 {
        assert(dots(n).drop_last() =~= dots((n - 1) as nat));
        lemma_dots_no_break((n - 1) as nat);
    }
}

proof fn lemma_line_breaks_of(bytes: Seq<u8>, total: nat, split: nat)
    ensures
        count_char(ascii_of(bytes, total, split), '\n') == count_byte(bytes, 10),
    decreases bytes.len(),
{
    if bytes.len() > 0 {
        let b = bytes.last();
        lemma_line_breaks_of(bytes.drop_last(), total, split);
        lemma_count_char_concat(
            ascii_of(bytes.drop_last(), total, split),
            ascii_slot(b, total, split),
            '\n',
        );
        reveal_with_fuel(count_char, 4);
        if b == 10 {
            let f = fill_run(total, split);
            lemma_dots_no_break(2 * total);
            if split > 0 {
                lemma_no_break_in_fill(total / split, split);
            }
            lemma_count_char_concat(seq!['\n'], f, '\n');
            lemma_count_char_concat(seq!['\n'] + f, delimiter(), '\n');
            assert(seq!['\n'].drop_last() =~= Seq::<char>::empty());
            assert(count_char(seq!['\n'], '\n') == 1);
            assert(count_char(f, '\n') == 0);
            assert(count_char(delimiter(), '\n') == 0);
        } else {
            assert(seq![b as char].drop_last() =~= Seq::<char>::empty());
            assert(b as char != '\n');
        }
    }
}

} // verus!
