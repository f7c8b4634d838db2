//! The v0 mangling scheme.

use crate::bytes::check_7bit;
use crate::bytes::is_7bit;
use crate::v0::grammar::skip_path;
use crate::v0::bounded::lemma_bounded_is_text;
use crate::v0::grammar::symbol_text;
use crate::v0::grammar::symbol_write;
use crate::v0::grammar::Stop;
use crate::v0::parser::peek_at;
use crate::v0::parser::Parser;
use crate::v0::printer::Printer;
use vstd::prelude::*;
use vstd::slice::*;
use vstd::string::*;

pub mod parser;
pub mod punycode;
pub mod alternate;
pub mod bounded;
pub mod grammar;
pub mod laws;
pub mod printer;

verus! {

/// How deeply productions may nest, backreference hops included.
pub const MAX_DEPTH: u32 = 500;

/// Why a symbol is not a v0 symbol.
#[derive(PartialEq, Eq, Debug, Clone, Copy, Structural)]
pub enum ParseError {
    /// The symbol does not follow the grammar.
    Invalid,
    /// Productions nest deeper than `MAX_DEPTH`.
    RecursedTooDeep,
}

impl ParseError {
    /// The text that stands for the error in printed output.
    pub open spec fn message_text(self) -> Seq<char> {
        match self {
            ParseError::Invalid => "{invalid syntax}"@,
            ParseError::RecursedTooDeep => "{recursion limit reached}"@,
        }
    }

    /// The text printed where the error is first met.
    pub fn message(&self) -> (m: &'static str)
        ensures
            m@ == self.message_text(),
    {
        match self {
            ParseError::Invalid => "{invalid syntax}",
            ParseError::RecursedTooDeep => "{recursion limit reached}",
        }
    }
}

/// How many bytes of prefix a v0 symbol begins with: `_R`, `R` or `__R`,
/// with at least one byte behind it.
pub open spec fn prefix_len(s: Seq<u8>) -> Option<int> {
    if s.len() > 2 && s[0] == '_' as u8 && s[1] == 'R' as u8 {
        Some(2)
    } else if s.len() > 1 && s[0] == 'R' as u8 {
        Some(1)
    } else if s.len() > 3 && s[0] == '_' as u8 && s[1] == '_' as u8 && s[2] == 'R' as u8 {
        Some(3)
    } else {
        None
    }
}

/// Whether `b` is an upper-case letter, as every path begins with.
pub open spec fn is_upper(b: u8) -> bool {
    'A' as u8 <= b <= 'Z' as u8
}

/// Recognizes a v0 symbol: the prefix, then only 7-bit bytes, the first an
/// upper-case letter; these must begin with a path, which another path, of
/// the instantiating crate, may follow. The result is the symbol without
/// its prefix and what is left behind the paths.
pub open spec fn recognize(s: Seq<u8>) -> Result<(Seq<u8>, Seq<u8>), ParseError> {
    match prefix_len(s) {
        None => Err(ParseError::Invalid),
        Some(k) => {
            let inner = s.subrange(k, s.len() as int);
            if !is_upper(inner[0]) || !is_7bit(inner) {
                Err(ParseError::Invalid)
            } else {
                match skip_path(inner, 0) {
                    Err(e) => Err(e),
                    Ok(end) => match peek_at(inner, end) {
                        Some(b) => if is_upper(b) {
                            match skip_path(inner, end) {
                                Err(e) => Err(e),
                                Ok(end2) => Ok((inner, inner.subrange(end2, inner.len() as int))),
                            }
                        } else {
                            Ok((inner, inner.subrange(end, inner.len() as int)))
                        },
                        None => Ok((inner, inner.subrange(end, inner.len() as int))),
                    },
                }
            }
        },
    }
}

/// A v0 symbol that was recognized.
pub struct Demangle<'a> {
    inner: &'a [u8],
}

impl<'a> View for Demangle<'a> {
    type V = Seq<u8>;

    /// The symbol without its prefix.
    closed spec fn view(&self) -> Seq<u8> {
        self.inner@
    }
}

impl<'a> Demangle<'a> {
    /// The text of the symbol; `alternate` leaves out the disambiguators of
    /// crates and the types of constants.
    pub fn display(&self, alternate: bool) -> (r: String)
        ensures
            r@ == symbol_text(self@, alternate),
    {
        let mut printer = Printer::new(self.inner, alternate);
        printer.print_path(true);
        match printer.out {
            Some(out) => out.into_string(),
            None => String::new(),
        }
    }

    /// The text of the symbol as a sink of `max_len` bytes takes it: all of
    /// it, or nothing if the sink refuses a write on the way.
    pub fn display_within(&self, alternate: bool, max_len: usize) -> (r: Option<String>)
        ensures
            r is None <==> symbol_write(self@, alternate, Some(max_len as nat)).full(),
            r matches Some(text) ==> text@ == symbol_text(self@, alternate),
    {
        let mut printer = Printer::bounded(self.inner, alternate, max_len);
        printer.print_path(true);
        proof {
            lemma_bounded_is_text(self.inner@, alternate, max_len as nat);
        }
        if printer.is_full() {
            return None;
        }
        match printer.out {
            Some(out) => Some(out.into_string()),
            None => None,
        }
    }
}

/// Reads one path from `parser` on without writing anything.
fn try_parse_path<'a>(parser: Parser<'a>) -> (r: Result<Parser<'a>, ParseError>)
    requires
        parser.wf(),
        parser.depth == 0,
    ensures
        match r {
            Ok(p) => p.wf() && p.depth == 0 && p.sym@ == parser.sym@ && skip_path(
                parser.sym@,
                parser.next as int,
            ) == Ok::<int, ParseError>(p.next as int),
            Err(e) => skip_path(parser.sym@, parser.next as int) == Err::<int, ParseError>(e),
        },
{
    let mut dummy_printer = Printer::reader(parser);
    dummy_printer.print_path(false);
    match dummy_printer.parser {
        Ok(p) => Ok(p),
        Err(Stop::Parse(e)) => Err(e),
        Err(Stop::Full) => Err(ParseError::Invalid),
    }
}

/// Recognizes a v0 symbol among the bytes `s` and returns it with what is
/// left behind it.
pub fn demangle_bytes<'a>(s: &'a [u8]) -> (r: Result<(Demangle<'a>, &'a [u8]), ParseError>)
    ensures
        match r {
            Ok((d, rest)) => recognize(s@) == Ok::<(Seq<u8>, Seq<u8>), ParseError>((d@, rest@)),
            Err(e) => recognize(s@) == Err::<(Seq<u8>, Seq<u8>), ParseError>(e),
        },
{
    let n = s.len();
    let k: usize = if n > 2 && s[0] == '_' as u8 && s[1] == 'R' as u8 {
        2
    } else if n > 1 && s[0] == 'R' as u8 {
        1
    } else if n > 3 && s[0] == '_' as u8 && s[1] == '_' as u8 && s[2] == 'R' as u8 {
        3
    } else {
        return Err(ParseError::Invalid);
    };
    let inner = slice_subrange(s, k, n);
    if !(inner[0] >= 'A' as u8 && inner[0] <= 'Z' as u8) {
        return Err(ParseError::Invalid);
    }
    if !check_7bit(inner) {
        return Err(ParseError::Invalid);
    }
    let mut parser = match try_parse_path(Parser::new(inner)) {
        Ok(p) => p,
        Err(e) => {
            return Err(e);
        },
    };
    if parser.next < inner.len() && inner[parser.next] >= 'A' as u8 && inner[parser.next]
        <= 'Z' as u8 {
        parser = match try_parse_path(parser) {
            Ok(p) => p,
            Err(e) => {
                return Err(e);
            },
        };
    }
    let rest = slice_subrange(inner, parser.next, inner.len());
    Ok((Demangle { inner }, rest))
}

/// Recognizes a v0 symbol and returns it with the bytes left behind it.
pub fn demangle<'a>(s: &'a str) -> (r: Result<(Demangle<'a>, &'a [u8]), ParseError>)
    ensures
        match r {
            Ok((d, rest)) => recognize(s.spec_bytes()) == Ok::<(Seq<u8>, Seq<u8>), ParseError>(
                (d@, rest@),
            ),
            Err(e) => recognize(s.spec_bytes()) == Err::<(Seq<u8>, Seq<u8>), ParseError>(e),
        },
{
    demangle_bytes(s.as_bytes())
}

} // verus!
