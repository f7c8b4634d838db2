//! Demangling the symbols in running text.
//!
//! Text is cut into runs of bytes that can stand in a symbol: letters,
//! digits, `.`, `_`, `@` and `$`. A run that is a symbol is replaced by the
//! symbol's text; every other byte stays as it is.

use crate::bytes::is_symbol_byte;
use crate::bytes::symbol_byte;
use crate::envelope;
use crate::envelope_text;
use crate::try_demangle_bytes;
use crate::Envelope;
use vstd::prelude::*;
use vstd::slice::*;
use vstd::string::*;
use vstd::utf8::encode_utf8;

verus! {

/// Where the run of symbol bytes that includes `i` ends.
pub open spec fn run_end(line: Seq<u8>, i: int) -> int
    decreases line.len() - i,
{
    if 0 <= i < line.len() && is_symbol_byte(line[i]) {
        run_end(line, i + 1)
    } else {
        i
    }
}

/// What a run of symbol bytes is written as: the text of the symbol, in
/// UTF-8, if it is one, else the run itself.
pub open spec fn run_text(run: Seq<u8>, alternate: bool) -> Seq<u8> {
    match envelope(run) {
        Envelope::Unknown => run,
        env => encode_utf8(envelope_text(env, Seq::empty(), alternate)),
    }
}

/// `out` with the text from `i` on written, symbols demangled.
pub open spec fn write_from(out: Seq<u8>, line: Seq<u8>, i: int, alternate: bool) -> Seq<u8>
    decreases line.len() - i,
{
    if i < 0 || i >= line.len() {
        out
    } else if is_symbol_byte(line[i]) {
        proof {
            lemma_run_end_bounds(line, i);
        }
        let end = run_end(line, i);
        write_from(out + run_text(line.subrange(i, end), alternate), line, end, alternate)
    } else {
        write_from(out.push(line[i]), line, i + 1, alternate)
    }
}

/// The text with its symbols demangled.
pub open spec fn demangled_line(line: Seq<u8>, alternate: bool) -> Seq<u8> {
    write_from(Seq::empty(), line, 0, alternate)
}

pub proof fn lemma_run_end_bounds(line: Seq<u8>, i: int)
    requires
        0 <= i <= line.len(),
    ensures
        i <= run_end(line, i) <= line.len(),
        i < line.len() && is_symbol_byte(line[i]) ==> i < run_end(line, i),
    decreases line.len() - i,
{
    if i < line.len() && is_symbol_byte(line[i]) {
        lemma_run_end_bounds(line, i + 1);
    }
}

/// Text without symbol bytes stays as it is.
pub proof fn lemma_plain_text_is_kept(out: Seq<u8>, line: Seq<u8>, i: int, alternate: bool)
    requires
        0 <= i <= line.len(),
        forall|k: int| i <= k < line.len() ==> !is_symbol_byte(#[trigger] line[k]),
    ensures
        write_from(out, line, i, alternate) == out + line.subrange(i, line.len() as int),
    decreases line.len() - i,
{
    if i < line.len() {
        lemma_plain_text_is_kept(out.push(line[i]), line, i + 1, alternate);
        assert(out.push(line[i]) + line.subrange(i + 1, line.len() as int) =~= out
            + line.subrange(i, line.len() as int));
    } else {
        assert(out + line.subrange(i, line.len() as int) =~= out);
    }
}

/// Demangles the symbols in `line` and returns the text that results.
pub fn demangle_line(line: &[u8], alternate: bool) -> (out: Vec<u8>)
    ensures
        out@ == demangled_line(line@, alternate),
{
    let n = line.len();
    let mut out: Vec<u8> = Vec::new();
    let mut i: usize = 0;
    while i < n
        invariant
            i <= n,
            n == line@.len(),
            write_from(out@, line@, i as int, alternate) == demangled_line(line@, alternate),
        decreases n - i,
    {
        if symbol_byte(line[i]) {
            let mut end: usize = i + 1;
            while end < n && symbol_byte(line[end])
                invariant
                    i < end <= n,
                    n == line@.len(),
                    run_end(line@, end as int) == run_end(line@, i as int),
                decreases n - end,
            {
                end += 1;
            }
            let run = slice_subrange(line, i, end);
            let ghost before = out@;
            assert(end == run_end(line@, i as int));
            match try_demangle_bytes(run, alternate) {
                Some(text) => {
                    out.extend_from_slice(text.as_str().as_bytes());
                    assert(out@ == before + run_text(run@, alternate));
                },
                None => {
                    out.extend_from_slice(run);
                    assert(out@ == before + run_text(run@, alternate));
                },
            }
            i = end;
        } else {
            out.push(line[i]);
            i += 1;
        }
    }
    out
}

} // verus!
