use vstd::prelude::*;

use crate::ascii::{ascii_text, delimiter, format_ascii};
use crate::config::FormatConfig;
use crate::hex::{format_hex, hex_text};

verus! {

/// One output line: the hex column at the configured width, the delimiter,
/// the character column and a line break.
pub open spec fn line_text(chunk: Seq<u8>, cfg: FormatConfig) -> Seq<char> {
    hex_text(chunk, cfg.cols as nat, cfg.split as nat, cfg.upper_case) + delimiter()
        + ascii_text(chunk, cfg.split as nat) + seq!['\n']
}

/// How many bytes of a block of `got` bytes are shown once `emitted` bytes
/// have been shown: all of them, or as many as the limit still allows.
pub open spec fn take_count(len: Option<usize>, emitted: nat, got: nat) -> nat {
    match len {
        None => got,
        Some(n) => if emitted >= n {
            0
        } else if got < n - emitted {
            got
        } else {
            (n - emitted) as nat
        },
    }
}

/// The bytes of `data` that are shown: at most the first `len`.
pub open spec fn limited(data: Seq<u8>, len: Option<usize>) -> Seq<u8> {
    match len {
        Some(n) => if n < data.len() {
            data.take(n as int)
        } else {
            data
        },
        None => data,
    }
}

/// The lines for `data` cut into chunks of `cfg.cols` bytes; the last chunk
/// may be shorter.
pub open spec fn lines_of(data: Seq<u8>, cfg: FormatConfig) -> Seq<char>
    decreases data.len(),
{
    if data.len() == 0 || cfg.cols == 0 {
        Seq::empty()
    } else if data.len() <= cfg.cols {
        line_text(data, cfg)
    } else {
        line_text(data.take(cfg.cols as int), cfg) + lines_of(data.skip(cfg.cols as int), cfg)
    }
}

/// The whole dump of `data`: its lines up to the byte limit, the last line
/// cut short where the limit falls inside a chunk.
pub open spec fn dump_text(data: Seq<u8>, cfg: FormatConfig) -> Seq<char> {
    lines_of(limited(data, cfg.len), cfg)
}

/// Formats one chunk as an output line.
pub fn format_line(chunk: &[u8], cfg: &FormatConfig) -> (r: String)
    ensures
        r@ == line_text(chunk@, *cfg),
{
    let mut out = format_hex(chunk, cfg.cols, cfg.split, cfg.upper_case);
    out.push(' ');
    out.push('|');
    out.push(' ');
    let ascii = format_ascii(chunk, cfg.split);
    out.append(ascii.as_str());
    out.push('\n');
    assert(out@ =~= line_text(chunk@, *cfg));
    out
}

/// Of a block of `got` bytes read after `emitted` bytes were shown, the
/// number to show; 0 once the limit is reached.
pub fn chunk_take(cfg: &FormatConfig, emitted: usize, got: usize) -> (r: usize)
    ensures
        r == take_count(cfg.len, emitted as nat, got as nat),
{
    match cfg.len {
        None => got,
        Some(n) => if emitted >= n {
            0
        } else if got < n - emitted {
            got
        } else {
            n - emitted
        },
    }
}

/// Dumps `data`: one line per chunk of `cfg.cols` bytes, stopping once the
/// byte limit, if any, has been shown.
pub fn render(data: &[u8], cfg: &FormatConfig) -> (r: String)
    requires
        cfg.wf(),
    ensures
        r@ == dump_text(data@, *cfg),
{
    let ghost lim = limited(data@, cfg.len);
    let len = data.len();
    let cols = cfg.cols;
    let mut out = String::new();
    let mut pos: usize = 0;
    assert(lim.skip(0) =~= lim);
    while pos < len
        invariant
            cfg.wf(),
            cols == cfg.cols,
            len == data@.len(),
            lim == limited(data@, cfg.len),
            pos <= lim.len(),
            dump_text(data@, *cfg) == out@ + lines_of(lim.skip(pos as int), *cfg),
        ensures
            dump_text(data@, *cfg) == out@,
        decreases len - pos,
    {
        let got = if len - pos < cols {
            len - pos
        } else {
            cols
        };
        let take = chunk_take(cfg, pos, got);
        let ghost rest = lim.skip(pos as int);
        if take == 0 {
            assert(rest.len() == 0);
            assert(out@ + lines_of(rest, *cfg) =~= out@);
            break ;
        }
        let chunk = &data[pos..pos + take];
        let line = format_line(chunk, cfg);
        proof {
            if rest.len() <= cols {
                assert(chunk@ =~= rest);
                assert(lim.skip(pos + take) =~= Seq::<u8>::empty());
                assert(line@ + lines_of(lim.skip(pos + take), *cfg) =~= line@);
            } else {
                assert(chunk@ =~= rest.take(cols as int));
                assert(lim.skip(pos + take) =~= rest.skip(cols as int));
            }
        }
        let ghost prev = out@;
        out.append(line.as_str());
        assert(out@ + lines_of(lim.skip(pos + take), *cfg) =~= prev + lines_of(rest, *cfg));
        pos = pos + take;
    }
    out
}

/// Formatting keeps no state between calls: any two results that the
/// formatters' contracts allow for the same chunk and settings are equal.
pub proof fn lemma_formatting_deterministic(
    chunk: Seq<u8>,
    cfg: FormatConfig,
    hex1: Seq<char>,
    hex2: Seq<char>,
    ascii1: Seq<char>,
    ascii2: Seq<char>,
)
    requires
        hex1 == hex_text(chunk, cfg.cols as nat, cfg.split as nat, cfg.upper_case),
        hex2 == hex_text(chunk, cfg.cols as nat, cfg.split as nat, cfg.upper_case),
        ascii1 == ascii_text(chunk, cfg.split as nat),
        ascii2 == ascii_text(chunk, cfg.split as nat),
    ensures
        hex1 == hex2,
        ascii1 == ascii2,
{
}

} // verus!
