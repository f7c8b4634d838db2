//! The legacy mangling scheme: `_ZN`, then the elements of a path, each a
//! decimal length and that many bytes, then `E`. Inside an element `$..$`
//! escapes stand for punctuation and `..` for `::`. The last element is
//! often a hash, `h` and hex digits, which alternate output leaves out.

use crate::bytes::check_7bit;
use crate::bytes::decimal_run;
use crate::bytes::is_7bit;
use crate::bytes::lemma_decimal_run_bounds;
use crate::bytes::read_decimal;
use crate::text::byte_text;
use crate::text::push_bytes;
use vstd::prelude::*;
use vstd::slice::*;
use vstd::string::*;

verus! {

/// How many bytes of prefix a legacy symbol begins with: `_ZN`, `ZN` or
/// `__ZN`. The symbol must end in `E` with at least one byte in between.
pub open spec fn prefix_len(s: Seq<u8>) -> Option<int> {
    if s.len() > 4 && s[0] == '_' as u8 && s[1] == 'Z' as u8 && s[2] == 'N' as u8 && s.last()
        == 'E' as u8 {
        Some(3)
    } else if s.len() > 3 && s[0] == 'Z' as u8 && s[1] == 'N' as u8 && s.last() == 'E' as u8 {
        Some(2)
    } else if s.len() > 5 && s[0] == '_' as u8 && s[1] == '_' as u8 && s[2] == 'Z' as u8 && s[3]
        == 'N' as u8 && s.last() == 'E' as u8 {
        Some(4)
    } else {
        None
    }
}

/// The number of elements from `p` on, if elements fill `inner` from there
/// to its end. An element is a decimal length that is not zero and that
/// many bytes; a length of zero, or none at all, must stand at the very end.
pub open spec fn count_elements(inner: Seq<u8>, p: int) -> Option<nat>
    decreases inner.len() - p,
{
    if p < 0 || p > inner.len() {
        None
    } else {
        let (len, at) = decimal_run(inner, p, 0);
        if len == 0 {
            if at >= inner.len() {
                Some(0nat)
            } else {
                None
            }
        } else if at + len > inner.len() {
            None
        } else {
            proof {
                lemma_decimal_run_bounds(inner, p, 0);
            }
            match count_elements(inner, at + len) {
                Some(c) => Some(c + 1),
                None => None,
            }
        }
    }
}

/// A legacy symbol as it is kept: what stands between prefix and `E`, and
/// the number of its elements.
pub struct Symbol {
    pub inner: Seq<u8>,
    pub elements: nat,
}

/// Recognizes a legacy symbol: the prefix, 7-bit bytes that elements fill,
/// and a final `E`.
pub open spec fn recognize(s: Seq<u8>) -> Option<Symbol> {
    match prefix_len(s) {
        None => None,
        Some(k) => {
            let inner = s.subrange(k, s.len() - 1);
            if !is_7bit(inner) {
                None
            } else {
                match count_elements(inner, 0) {
                    Some(elements) => Some(Symbol { inner, elements }),
                    None => None,
                }
            }
        },
    }
}

/// Whether `b` is a hex digit of either case.
pub open spec fn is_hex_digit(b: u8) -> bool {
    ('0' as u8 <= b <= '9' as u8) || ('a' as u8 <= b <= 'f' as u8) || ('A' as u8 <= b
        <= 'F' as u8)
}

/// Whether the bytes from `from` to `end` are a hash: `h` and one or more
/// hex digits.
pub open spec fn is_rust_hash(s: Seq<u8>, from: int, end: int) -> bool {
    &&& from + 2 <= end
    &&& s[from] == 'h' as u8
    &&& forall|i: int| from < i < end ==> is_hex_digit(#[trigger] s[i])
}

/// The character that the two letters of an escape stand for.
pub open spec fn two_letter_escape(a: u8, b: u8) -> Option<char> {
    if a == 'S' as u8 && b == 'P' as u8 {
        Some('@')
    } else if a == 'B' as u8 && b == 'P' as u8 {
        Some('*')
    } else if a == 'R' as u8 && b == 'F' as u8 {
        Some('&')
    } else if a == 'L' as u8 && b == 'T' as u8 {
        Some('<')
    } else if a == 'G' as u8 && b == 'T' as u8 {
        Some('>')
    } else if a == 'L' as u8 && b == 'P' as u8 {
        Some('(')
    } else if a == 'R' as u8 && b == 'P' as u8 {
        Some(')')
    } else {
        None
    }
}

/// The character that the two hex digits of a `$uXX$` escape stand for: the
/// one with that code, for the codes of ``~ ' = [ ] { } ; + ! "`` and the
/// space.
pub open spec fn hex_escape(a: u8, b: u8) -> Option<char> {
    if a == '7' as u8 && b == 'e' as u8 {
        Some('~')
    } else if a == '2' as u8 && b == '0' as u8 {
        Some(' ')
    } else if a == '2' as u8 && b == '7' as u8 {
        Some('\'')
    } else if a == '3' as u8 && b == 'd' as u8 {
        Some('=')
    } else if a == '5' as u8 && b == 'b' as u8 {
        Some('[')
    } else if a == '5' as u8 && b == 'd' as u8 {
        Some(']')
    } else if a == '7' as u8 && b == 'b' as u8 {
        Some('{')
    } else if a == '7' as u8 && b == 'd' as u8 {
        Some('}')
    } else if a == '3' as u8 && b == 'b' as u8 {
        Some(';')
    } else if a == '2' as u8 && b == 'b' as u8 {
        Some('+')
    } else if a == '2' as u8 && b == '1' as u8 {
        Some('!')
    } else if a == '2' as u8 && b == '2' as u8 {
        Some('"')
    } else {
        None
    }
}

/// The escape that begins with the `$` at `p` and ends before `end`: the
/// character it stands for and its length. The escapes are `$C$` for a
/// comma, `$SP$ $BP$ $RF$ $LT$ $GT$ $LP$ $RP$` for `@ * & < > ( )`, and
/// `$uXX$` as [`hex_escape`] has it.
pub open spec fn escape_at(s: Seq<u8>, p: int, end: int) -> Option<(char, int)> {
    if p + 3 <= end && s[p + 1] == 'C' as u8 && s[p + 2] == '$' as u8 {
        Some((',', 3int))
    } else if p + 4 <= end && s[p + 3] == '$' as u8 && two_letter_escape(s[p + 1], s[p + 2])
        is Some {
        Some((two_letter_escape(s[p + 1], s[p + 2])->0, 4int))
    } else if p + 5 <= end && s[p + 1] == 'u' as u8 && s[p + 4] == '$' as u8 && hex_escape(
        s[p + 2],
        s[p + 3],
    ) is Some {
        Some((hex_escape(s[p + 2], s[p + 3])->0, 5int))
    } else {
        None
    }
}

/// `out` with the element's bytes from `p` to `end` written: `..` as `::`,
/// an escape as its character, anything else as it stands. A `$` that begins
/// no escape ends the substitution; the rest of the element follows as it
/// stands.
pub open spec fn write_element(out: Seq<char>, s: Seq<u8>, p: int, end: int) -> Seq<char>
    decreases end - p,
{
    if p >= end {
        out
    } else if s[p] == '.' as u8 {
        if p + 1 < end && s[p + 1] == '.' as u8 {
            write_element(out + "::"@, s, p + 2, end)
        } else {
            write_element(out + "."@, s, p + 1, end)
        }
    } else if s[p] == '$' as u8 {
        match escape_at(s, p, end) {
            Some((c, len)) => write_element(out.push(c), s, p + len, end),
            None => out + byte_text(s.subrange(p, end)),
        }
    } else {
        write_element(out.push(s[p] as char), s, p + 1, end)
    }
}

/// `out` with the next `left` elements from `p` on written, `::` between
/// them; `first` says that none was written before. An element that begins
/// with `_$` loses the `_`. In alternate output a last element that is a
/// hash is left out.
pub open spec fn write_path(
    out: Seq<char>,
    inner: Seq<u8>,
    p: int,
    left: nat,
    first: bool,
    alternate: bool,
) -> Seq<char>
    decreases left,
{
    if left == 0 {
        out
    } else {
        let (len, at) = decimal_run(inner, p, 0);
        let end = at + len;
        if alternate && left == 1 && is_rust_hash(inner, at, end) {
            out
        } else {
            let out = if first {
                out
            } else {
                out + "::"@
            };
            let from = if at + 2 <= end && inner[at] == '_' as u8 && inner[at + 1] == '$' as u8 {
                at + 1
            } else {
                at
            };
            write_path(
                write_element(out, inner, from, end),
                inner,
                end,
                (left - 1) as nat,
                false,
                alternate,
            )
        }
    }
}

/// The text of a legacy symbol.
pub open spec fn symbol_text(sym: Symbol, alternate: bool) -> Seq<char> {
    write_path(Seq::empty(), sym.inner, 0, sym.elements, true, alternate)
}

/// Whether the last of the `left` elements from `p` on is a hash.
pub open spec fn ends_in_hash(inner: Seq<u8>, p: int, left: nat) -> bool
    decreases left,
{
    if left == 0 {
        false
    } else {
        let (len, at) = decimal_run(inner, p, 0);
        if left == 1 {
            is_rust_hash(inner, at, at + len)
        } else {
            ends_in_hash(inner, at + len, (left - 1) as nat)
        }
    }
}

/// The bytes of the last of the `left` elements from `p` on.
pub open spec fn last_element(inner: Seq<u8>, p: int, left: nat) -> Seq<u8>
    decreases left,
{
    if left == 0 {
        Seq::empty()
    } else {
        let (len, at) = decimal_run(inner, p, 0);
        if left == 1 {
            inner.subrange(at, at + len)
        } else {
            last_element(inner, at + len, (left - 1) as nat)
        }
    }
}

/// Alternate output differs from normal output only by leaving out a final
/// hash: where the last element is no hash, the two are the same.
pub proof fn lemma_alternate_without_hash(
    out: Seq<char>,
    inner: Seq<u8>,
    p: int,
    left: nat,
    first: bool,
)
    requires
        !ends_in_hash(inner, p, left),
    ensures
        write_path(out, inner, p, left, first, true) == write_path(
            out,
            inner,
            p,
            left,
            first,
            false,
        ),
    decreases left,
{
    if left > 0 {
        let (len, at) = decimal_run(inner, p, 0);
        let end = at + len;
        let out1 = if first {
            out
        } else {
            out + "::"@
        };
        let from = if at + 2 <= end && inner[at] == '_' as u8 && inner[at + 1] == '$' as u8 {
            at + 1
        } else {
            at
        };
        lemma_alternate_without_hash(
            write_element(out1, inner, from, end),
            inner,
            end,
            (left - 1) as nat,
            false,
        );
    }
}

/// Bytes without `.` and `$` are written as they stand.
pub proof fn lemma_plain_element(out: Seq<char>, s: Seq<u8>, p: int, end: int)
    requires
        0 <= p <= end <= s.len(),
        forall|i: int| p <= i < end ==> #[trigger] s[i] != '.' as u8 && s[i] != '$' as u8,
    ensures
        write_element(out, s, p, end) == out + byte_text(s.subrange(p, end)),
    decreases end - p,
{
    if p < end {
        lemma_plain_element(out.push(s[p] as char), s, p + 1, end);
        assert(out.push(s[p] as char) + byte_text(s.subrange(p + 1, end)) =~= out + byte_text(
            s.subrange(p, end),
        ));
    } else {
        assert(out + byte_text(s.subrange(p, end)) =~= out);
    }
}

/// Where the last element is a hash, normal output is alternate output
/// followed by the hash, with `::` in between unless the hash is all there
/// is.
pub proof fn lemma_alternate_cuts_hash(
    out: Seq<char>,
    inner: Seq<u8>,
    p: int,
    left: nat,
    first: bool,
)
    requires
        0 <= p <= inner.len(),
        count_elements(inner, p) == Some(left),
        ends_in_hash(inner, p, left),
    ensures
        write_path(out, inner, p, left, first, false) == write_path(
            out,
            inner,
            p,
            left,
            first,
            true,
        ) + (if first && left == 1 {
            Seq::<char>::empty()
        } else {
            "::"@
        }) + byte_text(last_element(inner, p, left)),
    decreases left,
{
    lemma_decimal_run_bounds(inner, p, 0);
    let (len, at) = decimal_run(inner, p, 0);
    let end = at + len;
    let out1 = if first {
        out
    } else {
        out + "::"@
    };
    if left == 1 {
        assert forall|i: int| at <= i < end implies #[trigger] inner[i] != '.' as u8 && inner[i]
            != '$' as u8 by {
            if i > at {
                assert(is_hex_digit(inner[i]));
            }
        }
        lemma_plain_element(out1, inner, at, end);
        assert(out + Seq::<char>::empty() =~= out);
        assert(inner[at] == 'h' as u8);
        assert(write_path(out, inner, p, left, first, true) == out);
        assert(write_path(out, inner, p, left, first, false) == write_path(
            write_element(out1, inner, at, end),
            inner,
            end,
            0,
            false,
            false,
        ));
        assert(last_element(inner, p, left) == inner.subrange(at, end));
    } else {
        let from = if at + 2 <= end && inner[at] == '_' as u8 && inner[at + 1] == '$' as u8 {
            at + 1
        } else {
            at
        };
        lemma_alternate_cuts_hash(
            write_element(out1, inner, from, end),
            inner,
            end,
            (left - 1) as nat,
            false,
        );
        assert(last_element(inner, p, left) == last_element(inner, end, (left - 1) as nat));
    }
}

/// A legacy symbol that was recognized.
pub struct Demangle<'a> {
    inner: &'a [u8],
    /// The number of elements in `inner`.
    elements: usize,
}

impl<'a> View for Demangle<'a> {
    type V = Symbol;

    closed spec fn view(&self) -> Symbol {
        Symbol { inner: self.inner@, elements: self.elements as nat }
    }
}

/// The count with `done` elements added that were read before.
spec fn with_done(rest: Option<nat>, done: nat) -> Option<nat> {
    match rest {
        Some(c) => Some(c + done),
        None => None,
    }
}

/// Recognizes a legacy symbol in the bytes `s`.
#[verifier::loop_isolation(false)]
pub fn demangle_bytes<'a>(s: &'a [u8]) -> (r: Result<Demangle<'a>, ()>)
    ensures
        match r {
            Ok(d) => recognize(s@) == Some(d@),
            Err(_) => recognize(s@) is None,
        },
{
    let n = s.len();
    let k: usize = if n > 4 && s[0] == '_' as u8 && s[1] == 'Z' as u8 && s[2] == 'N' as u8 && s[n
        - 1] == 'E' as u8 {
        3
    } else if n > 3 && s[0] == 'Z' as u8 && s[1] == 'N' as u8 && s[n - 1] == 'E' as u8 {
        2
    } else if n > 5 && s[0] == '_' as u8 && s[1] == '_' as u8 && s[2] == 'Z' as u8 && s[3]
        == 'N' as u8 && s[n - 1] == 'E' as u8 {
        4
    } else {
        return Err(());
    };
    let inner = slice_subrange(s, k, n - 1);
    if !check_7bit(inner) {
        return Err(());
    }
    let total = inner.len();
    let mut elements: usize = 0;
    let mut p: usize = 0;
    loop
        invariant
            elements <= p <= total,
            with_done(count_elements(inner@, p as int), elements as nat) == count_elements(
                inner@,
                0,
            ),
        decreases total - p,
    {
        proof {
            lemma_decimal_run_bounds(inner@, p as int, 0);
        }
        let (len, at) = match read_decimal(inner, p, 0) {
            Some(x) => x,
            None => {
                return Err(());
            },
        };
        if len == 0 {
            if at < total {
                return Err(());
            }
            return Ok(Demangle { inner, elements });
        } else if len > total - at {
            return Err(());
        } else {
            elements += 1;
            p = at + len;
        }
    }
}

/// Recognizes a legacy symbol.
pub fn demangle<'a>(s: &'a str) -> (r: Result<Demangle<'a>, ()>)
    ensures
        match r {
            Ok(d) => recognize(s.spec_bytes()) == Some(d@),
            Err(_) => recognize(s.spec_bytes()) is None,
        },
{
    demangle_bytes(s.as_bytes())
}

/// Whether `b` is a hex digit of either case.
fn hex_digit(b: u8) -> (r: bool)
    ensures
        r == is_hex_digit(b),
{
    (b >= '0' as u8 && b <= '9' as u8) || (b >= 'a' as u8 && b <= 'f' as u8) || (b >= 'A' as u8
        && b <= 'F' as u8)
}

/// Whether the bytes from `from` to `end` are a hash.
fn rust_hash(s: &[u8], from: usize, end: usize) -> (r: bool)
    requires
        from <= end <= s@.len(),
    ensures
        r == is_rust_hash(s@, from as int, end as int),
{
    if end - from < 2 || s[from] != 'h' as u8 {
        return false;
    }
    let mut i: usize = from + 1;
    while i < end
        invariant
            from < i <= end <= s@.len(),
            forall|k: int| from < k < i ==> is_hex_digit(#[trigger] s@[k]),
        decreases end - i,
    {
        if !hex_digit(s[i]) {
            return false;
        }
        i += 1;
    }
    true
}

/// The character that the two letters of an escape stand for.
fn two_letter(a: u8, b: u8) -> (r: Option<char>)
    ensures
        r == two_letter_escape(a, b),
{
    if a == 'S' as u8 && b == 'P' as u8 {
        Some('@')
    } else if a == 'B' as u8 && b == 'P' as u8 {
        Some('*')
    } else if a == 'R' as u8 && b == 'F' as u8 {
        Some('&')
    } else if a == 'L' as u8 && b == 'T' as u8 {
        Some('<')
    } else if a == 'G' as u8 && b == 'T' as u8 {
        Some('>')
    } else if a == 'L' as u8 && b == 'P' as u8 {
        Some('(')
    } else if a == 'R' as u8 && b == 'P' as u8 {
        Some(')')
    } else {
        None
    }
}

/// The character that the two hex digits of an escape stand for.
fn hex_pair(a: u8, b: u8) -> (r: Option<char>)
    ensures
        r == hex_escape(a, b),
{
    if a == '7' as u8 && b == 'e' as u8 {
        Some('~')
    } else if a == '2' as u8 && b == '0' as u8 {
        Some(' ')
    } else if a == '2' as u8 && b == '7' as u8 {
        Some('\'')
    } else if a == '3' as u8 && b == 'd' as u8 {
        Some('=')
    } else if a == '5' as u8 && b == 'b' as u8 {
        Some('[')
    } else if a == '5' as u8 && b == 'd' as u8 {
        Some(']')
    } else if a == '7' as u8 && b == 'b' as u8 {
        Some('{')
    } else if a == '7' as u8 && b == 'd' as u8 {
        Some('}')
    } else if a == '3' as u8 && b == 'b' as u8 {
        Some(';')
    } else if a == '2' as u8 && b == 'b' as u8 {
        Some('+')
    } else if a == '2' as u8 && b == '1' as u8 {
        Some('!')
    } else if a == '2' as u8 && b == '2' as u8 {
        Some('"')
    } else {
        None
    }
}

/// The escape that begins at `p`, if one does.
fn escape(s: &[u8], p: usize, end: usize) -> (r: Option<(char, usize)>)
    requires
        p < end <= s@.len(),
    ensures
        match r {
            Some((c, len)) => escape_at(s@, p as int, end as int) == Some((c, len as int))
                && 3 <= len <= end - p,
            None => escape_at(s@, p as int, end as int) is None,
        },
{
    let left = end - p;
    if left >= 3 && s[p + 1] == 'C' as u8 && s[p + 2] == '$' as u8 {
        return Some((',', 3));
    }
    if left >= 4 && s[p + 3] == '$' as u8 {
        if let Some(c) = two_letter(s[p + 1], s[p + 2]) {
            return Some((c, 4));
        }
    }
    if left >= 5 && s[p + 1] == 'u' as u8 && s[p + 4] == '$' as u8 {
        if let Some(c) = hex_pair(s[p + 2], s[p + 3]) {
            return Some((c, 5));
        }
    }
    None
}

/// Appends the element's bytes from `from` to `end` as they are printed.
fn print_element(out: &mut String, s: &[u8], from: usize, end: usize)
    requires
        from <= end <= s@.len(),
    ensures
        final(out)@ == write_element(old(out)@, s@, from as int, end as int),
{
    let mut p: usize = from;
    while p < end
        invariant
            from <= p <= end <= s@.len(),
            write_element(out@, s@, p as int, end as int) == write_element(
                old(out)@,
                s@,
                from as int,
                end as int,
            ),
        decreases end - p,
    {
        let b = s[p];
        if b == '.' as u8 {
            if p + 1 < end && s[p + 1] == '.' as u8 {
                out.append("::");
                p += 2;
            } else {
                out.append(".");
                p += 1;
            }
        } else if b == '$' as u8 {
            match escape(s, p, end) {
                Some((c, len)) => {
                    out.push(c);
                    p += len;
                },
                None => {
                    push_bytes(out, slice_subrange(s, p, end));
                    return ;
                },
            }
        } else {
            out.push(b as char);
            p += 1;
        }
    }
}

impl<'a> Demangle<'a> {
    /// Elements fill `inner`, and there are `elements` of them.
    #[verifier::type_invariant]
    spec fn filled(self) -> bool {
        count_elements(self.inner@, 0) == Some(self.elements as nat)
    }

    /// The text of the symbol; `alternate` leaves out a final hash.
    #[verifier::loop_isolation(false)]
    pub fn display(&self, alternate: bool) -> (r: String)
        ensures
            r@ == symbol_text(self@, alternate),
    {
        proof {
            use_type_invariant(self);
        }
        let inner = self.inner;
        let elements = self.elements;
        let total = inner.len();
        let mut out = String::new();
        let mut p: usize = 0;
        let mut element: usize = 0;
        while element < elements
            invariant
                element <= elements,
                p <= inner@.len(),
                count_elements(inner@, p as int) == Some((elements - element) as nat),
                write_path(
                    out@,
                    inner@,
                    p as int,
                    (elements - element) as nat,
                    element == 0,
                    alternate,
                ) == symbol_text(Symbol { inner: inner@, elements: elements as nat }, alternate),
            decreases elements - element,
        {
            proof {
                lemma_decimal_run_bounds(inner@, p as int, 0);
                let (l, a) = decimal_run(inner@, p as int, 0);
                assert(l != 0 && a + l <= total);
            }
            let (len, at) = match read_decimal(inner, p, 0) {
                Some(x) => x,
                None => {
                    proof {
                        assert(false);
                    }
                    return out;
                },
            };
            let end = at + len;
            if alternate && element + 1 == elements && rust_hash(inner, at, end) {
                return out;
            }
            if element != 0 {
                out.append("::");
            }
            let from = if len >= 2 && inner[at] == '_' as u8 && inner[at + 1] == '$' as u8 {
                at + 1
            } else {
                at
            };
            print_element(&mut out, inner, from, end);
            p = end;
            element += 1;
        }
        out
    }
}

} // verus!
