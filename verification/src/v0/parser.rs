//! The byte cursor of the v0 grammar: single bytes, base-62 and decimal
//! integers, hex runs, identifiers and backreferences.
//!
//! Every reader is described by a spec function from the symbol and a
//! position to either the value read together with the position after it, or
//! the error. The methods of [`Parser`] compute exactly that.

use crate::bytes::decimal_run;
use crate::bytes::digit_10_value;
use crate::bytes::lemma_decimal_run_bounds;
use crate::bytes::read_decimal;
use crate::v0::ParseError;
use crate::v0::MAX_DEPTH;
use vstd::prelude::*;
use vstd::slice::*;

verus! {

/// The byte at `next`, if there is one.
pub open spec fn peek_at(sym: Seq<u8>, next: int) -> Option<u8> {
    if 0 <= next < sym.len() {
        Some(sym[next])
    } else {
        None
    }
}

/// Reads one byte.
pub open spec fn next_byte(sym: Seq<u8>, next: int) -> Result<(u8, int), ParseError> {
    match peek_at(sym, next) {
        Some(b) => Ok((b, next + 1)),
        None => Err(ParseError::Invalid),
    }
}

/// The value of a base-62 digit: `0-9`, then `a-z`, then `A-Z`.
pub open spec fn digit_62_value(b: u8) -> Option<u8> {
    if '0' as u8 <= b <= '9' as u8 {
        Some((b - '0' as u8) as u8)
    } else if 'a' as u8 <= b <= 'z' as u8 {
        Some((10 + (b - 'a' as u8)) as u8)
    } else if 'A' as u8 <= b <= 'Z' as u8 {
        Some((36 + (b - 'A' as u8)) as u8)
    } else {
        None
    }
}

/// Reads one decimal digit.
pub open spec fn digit_10(sym: Seq<u8>, next: int) -> Result<(u8, int), ParseError> {
    match peek_at(sym, next) {
        Some(b) => match digit_10_value(b) {
            Some(d) => Ok((d, next + 1)),
            None => Err(ParseError::Invalid),
        },
        None => Err(ParseError::Invalid),
    }
}

/// Reads one base-62 digit.
pub open spec fn digit_62(sym: Seq<u8>, next: int) -> Result<(u8, int), ParseError> {
    match peek_at(sym, next) {
        Some(b) => match digit_62_value(b) {
            Some(d) => Ok((d, next + 1)),
            None => Err(ParseError::Invalid),
        },
        None => Err(ParseError::Invalid),
    }
}

/// Reads base-62 digits up to the closing `_`, having read the value `acc`
/// so far; the result is one more than the digits' value.
pub open spec fn integer_62_digits(sym: Seq<u8>, next: int, acc: nat) -> Result<
    (u64, int),
    ParseError,
>
    decreases sym.len() - next,
{
    match peek_at(sym, next) {
        None => Err(ParseError::Invalid),
        Some(b) => if b == '_' as u8 {
            if acc + 1 > u64::MAX {
                Err(ParseError::Invalid)
            } else {
                Ok(((acc + 1) as u64, next + 1))
            }
        } else {
            match digit_62_value(b) {
                None => Err(ParseError::Invalid),
                Some(d) => if acc * 62 + d > u64::MAX {
                    Err(ParseError::Invalid)
                } else {
                    integer_62_digits(sym, next + 1, (acc * 62 + d) as nat)
                },
            }
        },
    }
}

/// Reads a base-62 integer: a lone `_` is zero, otherwise digits closed by
/// `_` stand for their value plus one. A value that does not fit in 64 bits
/// is an error.
pub open spec fn integer_62(sym: Seq<u8>, next: int) -> Result<(u64, int), ParseError> {
    if peek_at(sym, next) == Some('_' as u8) {
        Ok((0u64, next + 1))
    } else {
        integer_62_digits(sym, next, 0)
    }
}

/// Reads an integer announced by `tag`: zero where the tag is absent, the
/// integer plus one where it is there.
pub open spec fn opt_integer_62(sym: Seq<u8>, next: int, tag: u8) -> Result<
    (u64, int),
    ParseError,
> {
    if peek_at(sym, next) == Some(tag) {
        match integer_62(sym, next + 1) {
            Ok((v, after)) => if v + 1 > u64::MAX {
                Err(ParseError::Invalid)
            } else {
                Ok(((v + 1) as u64, after))
            },
            Err(e) => Err(e),
        }
    } else {
        Ok((0u64, next))
    }
}

/// Reads a disambiguator, an optional integer with the tag `s`.
pub open spec fn disambiguator(sym: Seq<u8>, next: int) -> Result<(u64, int), ParseError> {
    opt_integer_62(sym, next, 's' as u8)
}

/// Whether `b` is a lower-case hex digit.
pub open spec fn is_hex_nibble(b: u8) -> bool {
    '0' as u8 <= b <= '9' as u8 || 'a' as u8 <= b <= 'f' as u8
}

/// Where the `_` stands that closes the run of hex digits starting at `next`.
pub open spec fn hex_nibbles_end(sym: Seq<u8>, next: int) -> Option<int>
    decreases sym.len() - next,
{
    match peek_at(sym, next) {
        None => None,
        Some(b) => if b == '_' as u8 {
            Some(next)
        } else if is_hex_nibble(b) {
            hex_nibbles_end(sym, next + 1)
        } else {
            None
        },
    }
}

/// Reads a possibly empty run of lower-case hex digits and the `_` that must
/// close it; the value is the run without the `_`.
pub open spec fn hex_nibbles(sym: Seq<u8>, next: int) -> Result<(Seq<u8>, int), ParseError> {
    match hex_nibbles_end(sym, next) {
        Some(end) => Ok((sym.subrange(next, end), end + 1)),
        None => Err(ParseError::Invalid),
    }
}

/// Reads the namespace byte of a nested path: an upper-case letter names a
/// special namespace, a lower-case letter none.
pub open spec fn namespace(sym: Seq<u8>, next: int) -> Result<(Option<char>, int), ParseError> {
    match peek_at(sym, next) {
        None => Err(ParseError::Invalid),
        Some(b) => if 'A' as u8 <= b <= 'Z' as u8 {
            Ok((Some(b as char), next + 1))
        } else if 'a' as u8 <= b <= 'z' as u8 {
            Ok((None, next + 1))
        } else {
            Err(ParseError::Invalid)
        },
    }
}

/// The last position below `n` at which `bytes` holds `b`.
pub open spec fn last_position(bytes: Seq<u8>, b: u8, n: int) -> Option<int>
    decreases n,
{
    if n <= 0 {
        None
    } else if bytes[n - 1] == b {
        Some(n - 1)
    } else {
        last_position(bytes, b, n - 1)
    }
}

/// An identifier as it stands in the symbol: the ASCII part and, for a
/// Unicode identifier, the Punycode digits that follow the last `_`.
pub struct IdentText {
    pub ascii: Seq<u8>,
    pub punycode: Seq<u8>,
}

/// Splits the bytes of a Unicode identifier at the last `_`; without one,
/// everything is Punycode.
pub open spec fn split_punycode(bytes: Seq<u8>) -> IdentText {
    match last_position(bytes, '_' as u8, bytes.len() as int) {
        Some(i) => IdentText {
            ascii: bytes.subrange(0, i),
            punycode: bytes.subrange(i + 1, bytes.len() as int),
        },
        None => IdentText { ascii: Seq::empty(), punycode: bytes },
    }
}

/// Reads an identifier: an optional `u` for Unicode, the length in decimal
/// (a leading `0` ends the length), an optional `_`, and that many bytes.
/// A Unicode identifier without Punycode digits is an error, and so is a
/// length that runs past the end of the symbol.
pub open spec fn ident(sym: Seq<u8>, next: int) -> Result<(IdentText, int), ParseError> {
    let is_punycode = peek_at(sym, next) == Some('u' as u8);
    let at_len = if is_punycode {
        next + 1
    } else {
        next
    };
    match digit_10(sym, at_len) {
        Err(e) => Err(e),
        Ok((d0, after_d0)) => {
            let (len, after_len) = if d0 == 0 {
                (0nat, after_d0)
            } else {
                decimal_run(sym, after_d0, d0 as nat)
            };
            let start = if peek_at(sym, after_len) == Some('_' as u8) {
                after_len + 1
            } else {
                after_len
            };
            if start + len > sym.len() {
                Err(ParseError::Invalid)
            } else {
                let bytes = sym.subrange(start, start + len);
                if is_punycode {
                    let id = split_punycode(bytes);
                    if id.punycode.len() == 0 {
                        Err(ParseError::Invalid)
                    } else {
                        Ok((id, start + len))
                    }
                } else {
                    Ok((IdentText { ascii: bytes, punycode: Seq::empty() }, start + len))
                }
            }
        },
    }
}

/// Where a backreference leads: the position to continue at and the depth
/// there, which counts the hop.
pub struct Target {
    pub next: int,
    pub depth: nat,
}

/// Reads the offset of a backreference whose `B` stands just before `next`,
/// at depth `depth`. The offset must lie strictly before the `B`, and the
/// hop must stay within `MAX_DEPTH`.
pub open spec fn backref(sym: Seq<u8>, next: int, depth: nat) -> Result<(Target, int), ParseError> {
    match integer_62(sym, next) {
        Err(e) => Err(e),
        Ok((i, after)) => if i >= next - 1 {
            Err(ParseError::Invalid)
        } else if depth >= MAX_DEPTH {
            Err(ParseError::RecursedTooDeep)
        } else {
            Ok((Target { next: i as int, depth: depth + 1 }, after))
        },
    }
}

pub proof fn lemma_hex_nibbles_end_bounds(sym: Seq<u8>, next: int)
    requires
        0 <= next <= sym.len(),
    ensures
        hex_nibbles_end(sym, next) matches Some(end) ==> next <= end < sym.len() && sym[end]
            == '_' as u8 && forall|i: int| next <= i < end ==> is_hex_nibble(#[trigger] sym[i]),
    decreases sym.len() - next,
{
    if let Some(b) = peek_at(sym, next) {
        if b != '_' as u8 && is_hex_nibble(b) {
            lemma_hex_nibbles_end_bounds(sym, next + 1);
        }
    }
}

/// An identifier read from a symbol.
#[derive(Clone, Copy)]
pub struct Ident<'s> {
    /// The ASCII part.
    pub ascii: &'s [u8],
    /// The Punycode digits of a Unicode identifier, else empty.
    pub punycode: &'s [u8],
}

impl<'s> View for Ident<'s> {
    type V = IdentText;

    open spec fn view(&self) -> IdentText {
        IdentText { ascii: self.ascii@, punycode: self.punycode@ }
    }
}

/// A cursor into a symbol, with the nesting depth reached so far.
#[derive(Clone, Copy)]
pub struct Parser<'s> {
    /// The symbol without its prefix.
    pub sym: &'s [u8],
    /// The position of the next byte to read.
    pub next: usize,
    /// How many productions enclose the cursor.
    pub depth: u32,
}

impl<'s> Parser<'s> {
    /// The cursor lies within the symbol and the depth within `MAX_DEPTH`.
    pub open spec fn wf(&self) -> bool {
        self.next <= self.sym@.len() && self.depth <= MAX_DEPTH
    }

    /// `self` reads the same symbol at the same depth as `before`, at a
    /// position that is not earlier.
    pub open spec fn follows(&self, before: Parser) -> bool {
        &&& self.wf()
        &&& self.sym@ == before.sym@
        &&& self.depth == before.depth
        &&& before.next <= self.next
    }

    /// `self` is what is left of `before` after a reader returned `r`, the
    /// reader being described by `expected`.
    pub open spec fn after_reading<T>(
        &self,
        before: Parser,
        r: Result<T, ParseError>,
        expected: Result<(T, int), ParseError>,
    ) -> bool {
        &&& self.follows(before)
        &&& match r {
            Ok(v) => expected == Ok::<(T, int), ParseError>((v, self.next as int)),
            Err(e) => expected == Err::<(T, int), ParseError>(e),
        }
    }

    /// A cursor at the start of `sym`.
    pub fn new(sym: &'s [u8]) -> (p: Parser<'s>)
        ensures
            p.wf(),
            p.sym@ == sym@,
            p.next == 0,
            p.depth == 0,
    {
        Parser { sym, next: 0, depth: 0 }
    }

    /// Enters a production: one level deeper, unless that would pass
    /// `MAX_DEPTH`, in which case the cursor stays as it is.
    pub fn push_depth(&mut self) -> (r: Result<(), ParseError>)
        requires
            old(self).wf(),
        ensures
            final(self).wf(),
            final(self).sym@ == old(self).sym@,
            final(self).next == old(self).next,
            old(self).depth < MAX_DEPTH ==> r is Ok && final(self).depth == old(self).depth + 1,
            old(self).depth >= MAX_DEPTH ==> r == Err::<(), ParseError>(
                ParseError::RecursedTooDeep,
            ) && final(self).depth == old(self).depth,
    {
        if self.depth >= MAX_DEPTH {
            Err(ParseError::RecursedTooDeep)
        } else {
            self.depth += 1;
            Ok(())
        }
    }

    /// Leaves a production.
    pub fn pop_depth(&mut self)
        requires
            old(self).wf(),
            old(self).depth > 0,
        ensures
            final(self).wf(),
            final(self).sym@ == old(self).sym@,
            final(self).next == old(self).next,
            final(self).depth == old(self).depth - 1,
    {
        self.depth -= 1;
    }

    /// The next byte, without reading it.
    pub fn peek(&self) -> (r: Option<u8>)
        requires
            self.wf(),
        ensures
            r == peek_at(self.sym@, self.next as int),
    {
        if self.next < self.sym.len() {
            Some(self.sym[self.next])
        } else {
            None
        }
    }

    /// Reads the next byte if it is `b`, and says whether it did.
    pub fn eat(&mut self, b: u8) -> (r: bool)
        requires
            old(self).wf(),
        ensures
            final(self).follows(*old(self)),
            r == (peek_at(old(self).sym@, old(self).next as int) == Some(b)),
            final(self).next == old(self).next + if r {
                1int
            } else {
                0int
            },
    {
        if self.next < self.sym.len() && self.sym[self.next] == b {
            self.next += 1;
            true
        } else {
            false
        }
    }

    /// Reads one byte; at the end of the symbol that is an error.
    pub fn next(&mut self) -> (r: Result<u8, ParseError>)
        requires
            old(self).wf(),
        ensures
            final(self).after_reading(
                *old(self),
                r,
                next_byte(old(self).sym@, old(self).next as int),
            ),
            r is Err ==> final(self).next == old(self).next,
    {
        if self.next < self.sym.len() {
            let b = self.sym[self.next];
            self.next += 1;
            Ok(b)
        } else {
            Err(ParseError::Invalid)
        }
    }

    /// Reads lower-case hex digits up to and including the closing `_`, and
    /// returns the digits.
    pub fn hex_nibbles(&mut self) -> (r: Result<&'s [u8], ParseError>)
        requires
            old(self).wf(),
        ensures
            final(self).follows(*old(self)),
            match r {
                Ok(run) => hex_nibbles(old(self).sym@, old(self).next as int) == Ok::<
                    (Seq<u8>, int),
                    ParseError,
                >((run@, final(self).next as int)) && final(self).next > old(self).next
                    && forall|i: int| 0 <= i < run@.len() ==> is_hex_nibble(#[trigger] run@[i]),
                Err(e) => hex_nibbles(old(self).sym@, old(self).next as int) == Err::<
                    (Seq<u8>, int),
                    ParseError,
                >(e),
            },
    {
        let start = self.next;
        while self.next < self.sym.len() && is_nibble(self.sym[self.next])
            invariant
                self.follows(*old(self)),
                start == old(self).next,
                hex_nibbles_end(self.sym@, self.next as int) == hex_nibbles_end(
                    self.sym@,
                    start as int,
                ),
            decreases self.sym@.len() - self.next,
        {
            self.next += 1;
        }
        proof {
            lemma_hex_nibbles_end_bounds(self.sym@, start as int);
        }
        if self.next < self.sym.len() && self.sym[self.next] == '_' as u8 {
            let run = slice_subrange(self.sym, start, self.next);
            self.next += 1;
            Ok(run)
        } else {
            Err(ParseError::Invalid)
        }
    }

    /// Reads one decimal digit.
    pub fn digit_10(&mut self) -> (r: Result<u8, ParseError>)
        requires
            old(self).wf(),
        ensures
            final(self).after_reading(
                *old(self),
                r,
                digit_10(old(self).sym@, old(self).next as int),
            ),
            r is Err ==> final(self).next == old(self).next,
    {
        if self.next < self.sym.len() {
            let b = self.sym[self.next];
            if b >= '0' as u8 && b <= '9' as u8 {
                self.next += 1;
                return Ok(b - '0' as u8);
            }
        }
        Err(ParseError::Invalid)
    }

    /// Reads one base-62 digit.
    pub fn digit_62(&mut self) -> (r: Result<u8, ParseError>)
        requires
            old(self).wf(),
        ensures
            final(self).after_reading(
                *old(self),
                r,
                digit_62(old(self).sym@, old(self).next as int),
            ),
            r is Err ==> final(self).next == old(self).next,
    {
        if self.next < self.sym.len() {
            let b = self.sym[self.next];
            if b >= '0' as u8 && b <= '9' as u8 {
                self.next += 1;
                return Ok(b - '0' as u8);
            } else if b >= 'a' as u8 && b <= 'z' as u8 {
                self.next += 1;
                return Ok(10 + (b - 'a' as u8));
            } else if b >= 'A' as u8 && b <= 'Z' as u8 {
                self.next += 1;
                return Ok(36 + (b - 'A' as u8));
            }
        }
        Err(ParseError::Invalid)
    }

    /// Reads a base-62 integer.
    pub fn integer_62(&mut self) -> (r: Result<u64, ParseError>)
        requires
            old(self).wf(),
        ensures
            final(self).after_reading(
                *old(self),
                r,
                integer_62(old(self).sym@, old(self).next as int),
            ),
            r is Ok ==> final(self).next > old(self).next,
    {
        if self.eat('_' as u8) {
            return Ok(0);
        }
        let mut x: u64 = 0;
        loop
            invariant_except_break
                self.follows(*old(self)),
                integer_62_digits(self.sym@, self.next as int, x as nat) == integer_62(
                    old(self).sym@,
                    old(self).next as int,
                ),
            ensures
                self.follows(*old(self)),
                self.next > old(self).next,
                integer_62(old(self).sym@, old(self).next as int) == if x + 1 > u64::MAX {
                    Err::<(u64, int), ParseError>(ParseError::Invalid)
                } else {
                    Ok::<(u64, int), ParseError>(((x + 1) as u64, self.next as int))
                },
            decreases self.sym@.len() - self.next,
        {
            if self.eat('_' as u8) {
                break ;
            }
            let d: u64 = match self.digit_62() {
                Ok(d) => d as u64,
                Err(e) => {
                    return Err(e);
                },
            };
            x = match x.checked_mul(62) {
                Some(v) => v,
                None => {
                    return Err(ParseError::Invalid);
                },
            };
            x = match x.checked_add(d) {
                Some(v) => v,
                None => {
                    return Err(ParseError::Invalid);
                },
            };
        }
        match x.checked_add(1) {
            Some(v) => Ok(v),
            None => Err(ParseError::Invalid),
        }
    }

    /// Reads an integer announced by `tag`, zero if the tag is absent.
    pub fn opt_integer_62(&mut self, tag: u8) -> (r: Result<u64, ParseError>)
        requires
            old(self).wf(),
        ensures
            final(self).after_reading(
                *old(self),
                r,
                opt_integer_62(old(self).sym@, old(self).next as int, tag),
            ),
    {
        if !self.eat(tag) {
            return Ok(0);
        }
        match self.integer_62() {
            Ok(v) => match v.checked_add(1) {
                Some(w) => Ok(w),
                None => Err(ParseError::Invalid),
            },
            Err(e) => Err(e),
        }
    }

    /// Reads a disambiguator.
    pub fn disambiguator(&mut self) -> (r: Result<u64, ParseError>)
        requires
            old(self).wf(),
        ensures
            final(self).after_reading(
                *old(self),
                r,
                disambiguator(old(self).sym@, old(self).next as int),
            ),
    {
        self.opt_integer_62('s' as u8)
    }

    /// Reads the namespace byte of a nested path.
    pub fn namespace(&mut self) -> (r: Result<Option<char>, ParseError>)
        requires
            old(self).wf(),
        ensures
            final(self).after_reading(
                *old(self),
                r,
                namespace(old(self).sym@, old(self).next as int),
            ),
    {
        match self.next() {
            Ok(ns) => {
                if ns >= 'A' as u8 && ns <= 'Z' as u8 {
                    Ok(Some(ns as char))
                } else if ns >= 'a' as u8 && ns <= 'z' as u8 {
                    Ok(None)
                } else {
                    Err(ParseError::Invalid)
                }
            },
            Err(e) => Err(e),
        }
    }

    /// Reads the offset of a backreference whose `B` was just read, and
    /// returns a cursor at that offset, one level deeper. An offset at or
    /// after the `B` is an error.
    pub fn backref(&mut self) -> (r: Result<Parser<'s>, ParseError>)
        requires
            old(self).wf(),
            old(self).next >= 1,
        ensures
            final(self).follows(*old(self)),
            match r {
                Ok(p) => {
                    &&& p.wf()
                    &&& p.sym@ == old(self).sym@
                    &&& p.next < old(self).next - 1
                    &&& final(self).next > old(self).next
                    &&& backref(old(self).sym@, old(self).next as int, old(self).depth as nat)
                        == Ok::<(Target, int), ParseError>(
                        (Target { next: p.next as int, depth: p.depth as nat }, final(self).next as int),
                    )
                },
                Err(e) => backref(old(self).sym@, old(self).next as int, old(self).depth as nat)
                    == Err::<(Target, int), ParseError>(e),
            },
            integer_62(old(self).sym@, old(self).next as int) matches Ok((i, _)) && i >= old(
                self,
            ).next - 1 ==> r == Err::<Parser<'s>, ParseError>(ParseError::Invalid),
    {
        let s_start = self.next - 1;
        let i = match self.integer_62() {
            Ok(i) => i,
            Err(e) => {
                return Err(e);
            },
        };
        if i >= s_start as u64 {
            return Err(ParseError::Invalid);
        }
        let mut new_parser = Parser { sym: self.sym, next: i as usize, depth: self.depth };
        match new_parser.push_depth() {
            Ok(()) => Ok(new_parser),
            Err(e) => Err(e),
        }
    }

    /// Reads an identifier.
    pub fn ident(&mut self) -> (r: Result<Ident<'s>, ParseError>)
        requires
            old(self).wf(),
        ensures
            final(self).follows(*old(self)),
            match r {
                Ok(id) => ident(old(self).sym@, old(self).next as int) == Ok::<
                    (IdentText, int),
                    ParseError,
                >((id@, final(self).next as int)),
                Err(e) => ident(old(self).sym@, old(self).next as int) == Err::<
                    (IdentText, int),
                    ParseError,
                >(e),
            },
    {
        let is_punycode = self.eat('u' as u8);
        let d0: u8 = match self.digit_10() {
            Ok(d) => d,
            Err(e) => {
                return Err(e);
            },
        };
        let ghost after_d0 = self.next as int;
        let total: usize = self.sym.len();
        proof {
            lemma_decimal_run_bounds(self.sym@, after_d0, d0 as nat);
        }
        let len: usize = if d0 == 0 {
            0
        } else {
            match read_decimal(self.sym, self.next, d0 as usize) {
                Some((len, after)) => {
                    self.next = after;
                    len
                },
                None => {
                    return Err(ParseError::Invalid);
                },
            }
        };
        self.eat('_' as u8);
        let start = self.next;
        let end = match start.checked_add(len) {
            Some(v) => v,
            None => {
                return Err(ParseError::Invalid);
            },
        };
        if end > total {
            return Err(ParseError::Invalid);
        }
        self.next = end;
        let bytes = slice_subrange(self.sym, start, end);
        if is_punycode {
            let id = split_at_last_underscore(bytes);
            if id.punycode.len() == 0 {
                return Err(ParseError::Invalid);
            }
            Ok(id)
        } else {
            let id = Ident { ascii: bytes, punycode: slice_subrange(bytes, 0, 0) };
            proof {
                assert(id.punycode@ =~= Seq::<u8>::empty());
            }
            Ok(id)
        }
    }
}

/// Splits the bytes of a Unicode identifier at the last `_`.
fn split_at_last_underscore<'s>(bytes: &'s [u8]) -> (id: Ident<'s>)
    ensures
        id@ == split_punycode(bytes@),
{
    let mut i: usize = bytes.len();
    while i > 0 && bytes[i - 1] != '_' as u8
        invariant
            i <= bytes@.len(),
            last_position(bytes@, '_' as u8, i as int) == last_position(
                bytes@,
                '_' as u8,
                bytes@.len() as int,
            ),
        decreases i,
    {
        i -= 1;
    }
    let id = if i > 0 {
        Ident {
            ascii: slice_subrange(bytes, 0, i - 1),
            punycode: slice_subrange(bytes, i, bytes.len()),
        }
    } else {
        Ident { ascii: slice_subrange(bytes, 0, 0), punycode: bytes }
    };
    proof {
        assert(id.ascii@ =~= split_punycode(bytes@).ascii);
        assert(id.punycode@ =~= split_punycode(bytes@).punycode);
    }
    id
}

/// Whether `b` is a lower-case hex digit.
fn is_nibble(b: u8) -> (r: bool)
    ensures
        r == is_hex_nibble(b),
{
    (b >= '0' as u8 && b <= '9' as u8) || (b >= 'a' as u8 && b <= 'f' as u8)
}

} // verus!
