//! Building output text: bytes as characters, numbers in decimal and
//! hexadecimal, and the few `std` items the output path relies on.

use vstd::prelude::*;
use vstd::std_specs::iter::IteratorSpec;
use vstd::string::*;

verus! {

/// `String::push` appends exactly one character.
pub assume_specification[ String::push ](s: &mut String, c: char)
    ensures
        final(s)@ == old(s)@.push(c),
;

/// `char::from_u32` succeeds exactly on Unicode scalar values (everything up
/// to `0x10FFFF` outside the surrogate range) and returns the character with
/// that code.
pub assume_specification[ char::from_u32 ](i: u32) -> (r: Option<char>)
    ensures
        r is Some <==> is_scalar_value(i as int),
        r matches Some(c) ==> c as u32 == i,
;

/// What `std` prints for a character under `{:?}`: the character between
/// single quotes, escaped where `char::escape_debug` escapes it. The escape
/// tables belong to `std`; this crate only relies on the result being a
/// function of the character.
pub uninterp spec fn char_debug_text(c: char) -> Seq<char>;

/// Formats `c` with `std`'s `Debug` implementation for `char`.
#[verifier::external_body]
pub(crate) fn char_debug(c: char) -> (s: String)
    ensures
        s@ == char_debug_text(c),
{
    format!("{:?}", c)
}

/// Whether `v` is a Unicode scalar value.
pub open spec fn is_scalar_value(v: int) -> bool {
    0 <= v <= 0xD7FF || 0xE000 <= v <= 0x10FFFF
}

/// The characters whose codes are the given bytes, one for one.
pub open spec fn byte_text(bytes: Seq<u8>) -> Seq<char> {
    Seq::new(bytes.len(), |i: int| bytes[i] as char)
}

/// The character for a single digit below sixteen, lower case.
pub open spec fn digit_char(d: int) -> char {
    if d < 10 {
        (48 + d) as char
    } else {
        (87 + d) as char
    }
}

/// `n` in decimal, most significant digit first, without leading zeros
/// (`0` itself is the single digit `0`).
pub open spec fn decimal_text(n: nat) -> Seq<char>
    decreases n,
{
    if n < 10 {
        seq![digit_char(n as int)]
    } else {
        decimal_text(n / 10).push(digit_char((n % 10) as int))
    }
}

/// `n` in lower-case hexadecimal, most significant digit first, without
/// leading zeros.
pub open spec fn hex_text(n: nat) -> Seq<char>
    decreases n,
{
    if n < 16 {
        seq![digit_char(n as int)]
    } else {
        hex_text(n / 16).push(digit_char((n % 16) as int))
    }
}

/// `n` in hexadecimal where `hex` is set, in decimal otherwise.
pub open spec fn radix_text(n: nat, hex: bool) -> Seq<char> {
    if hex {
        hex_text(n)
    } else {
        decimal_text(n)
    }
}

pub proof fn lemma_byte_text_push(bytes: Seq<u8>, b: u8)
    ensures
        byte_text(bytes.push(b)) == byte_text(bytes).push(b as char),
{
    assert(byte_text(bytes.push(b)) =~= byte_text(bytes).push(b as char));
}

/// Appends the bytes to `out`, each as the character with that code.
pub fn push_bytes(out: &mut String, bytes: &[u8])
    ensures
        final(out)@ == old(out)@ + byte_text(bytes@),
{
    let mut i: usize = 0;
    while i < bytes.len()
        invariant
            i <= bytes@.len(),
            out@ == old(out)@ + byte_text(bytes@.subrange(0, i as int)),
        decreases bytes@.len() - i,
    {
        proof {
            lemma_byte_text_push(bytes@.subrange(0, i as int), bytes@[i as int]);
            assert(bytes@.subrange(0, i as int).push(bytes@[i as int]) =~= bytes@.subrange(
                0,
                i + 1,
            ));
        }
        out.push(bytes[i] as char);
        i += 1;
    }
    proof {
        assert(bytes@.subrange(0, i as int) =~= bytes@);
    }
}

/// Appends the characters to `out`.
pub fn push_chars(out: &mut String, chars: &Vec<char>)
    ensures
        final(out)@ == old(out)@ + chars@,
{
    let mut i: usize = 0;
    while i < chars.len()
        invariant
            i <= chars@.len(),
            out@ == old(out)@ + chars@.subrange(0, i as int),
        decreases chars@.len() - i,
    {
        proof {
            assert(chars@.subrange(0, i as int).push(chars@[i as int]) =~= chars@.subrange(
                0,
                i + 1,
            ));
        }
        out.push(chars[i]);
        i += 1;
    }
    proof {
        assert(chars@.subrange(0, i as int) =~= chars@);
    }
}

/// The digits written so far, least significant first, in front of what is
/// still to be written.
spec fn pending_text(rest: nat, hex: bool, low_first: Seq<char>) -> Seq<char> {
    if rest == 0 {
        low_first.reverse()
    } else {
        radix_text(rest, hex) + low_first.reverse()
    }
}

/// The least significant digit of `n` and what is left above it.
fn split_digit(n: u64, hex: bool) -> (r: (u8, u64))
    ensures
        hex ==> r.0 == n % 16 && r.1 == n / 16,
        !hex ==> r.0 == n % 10 && r.1 == n / 10,
{
    if hex {
        ((n % 16) as u8, n / 16)
    } else {
        ((n % 10) as u8, n / 10)
    }
}

/// Appends `n` in hexadecimal where `hex` is set, in decimal otherwise.
pub fn push_radix(out: &mut String, n: u64, hex: bool)
    ensures
        final(out)@ == old(out)@ + radix_text(n as nat, hex),
{
    let mut low_first: Vec<char> = Vec::new();
    let (d0, up0) = split_digit(n, hex);
    low_first.push(digit(d0));
    let mut rest: u64 = up0;
    proof {
        assert(low_first@.reverse() =~= seq![digit_char(d0 as int)]);
        if rest != 0 {
            assert(radix_text(rest as nat, hex) + seq![digit_char(d0 as int)] =~= radix_text(
                rest as nat,
                hex,
            ).push(digit_char(d0 as int)));
        }
    }
    while rest != 0
        invariant
            low_first@.len() >= 1,
            radix_text(n as nat, hex) == pending_text(rest as nat, hex, low_first@),
        decreases rest,
    {
        let (d, up) = split_digit(rest, hex);
        let ghost before = low_first@;
        low_first.push(digit(d));
        proof {
            let c = digit_char(d as int);
            assert(before.push(c).reverse() =~= seq![c] + before.reverse());
            if up == 0 {
                assert(radix_text(rest as nat, hex) =~= seq![c]);
            } else {
                assert(radix_text(rest as nat, hex) =~= radix_text(up as nat, hex) + seq![c]);
                assert((radix_text(up as nat, hex) + seq![c]) + before.reverse() =~= radix_text(
                    up as nat,
                    hex,
                ) + (seq![c] + before.reverse()));
            }
        }
        rest = up;
    }
    let mut i: usize = low_first.len();
    while i > 0
        invariant
            i <= low_first@.len(),
            out@ == old(out)@ + low_first@.reverse().subrange(0, low_first@.len() - i),
        decreases i,
    {
        i -= 1;
        proof {
            let r = low_first@.reverse();
            let k = low_first@.len() - i - 1;
            assert(r.subrange(0, k).push(low_first@[i as int]) =~= r.subrange(0, k + 1));
        }
        out.push(low_first[i]);
    }
    proof {
        assert(low_first@.reverse().subrange(0, low_first@.len() as int)
            =~= low_first@.reverse());
    }
}

/// One character of normalized text: itself if it is ASCII, else `\u{..}`
/// around its code in hex.
pub open spec fn asciify_char(c: char) -> Seq<char> {
    if (c as u32) < 128 {
        seq![c]
    } else {
        "\\u{"@ + hex_text(c as nat) + "}"@
    }
}

/// Text with every character outside ASCII written as `\u{..}`.
pub open spec fn asciify_text(s: Seq<char>) -> Seq<char>
    decreases s.len(),
{
    if s.len() == 0 {
        Seq::empty()
    } else {
        asciify_text(s.drop_last()) + asciify_char(s.last())
    }
}

/// The code of a character.
fn code_of(c: char) -> (r: u32)
    ensures
        r as int == c as int,
{
    c as u32
}

/// Normalizes text for comparison across implementations: every character
/// outside ASCII is written as `\u{..}` around its code in hex.
pub fn asciify(x: &str) -> (r: String)
    ensures
        r@ == asciify_text(x@),
{
    let mut result = String::new();
    for ch in it: x.chars()
        invariant
            it.seq() == x@,
            result@ == asciify_text(x@.subrange(0, it.index() as int)),
    {
        let ghost before = result@;
        proof {
            let upto = x@.subrange(0, it.index() + 1);
            assert(upto.drop_last() =~= x@.subrange(0, it.index() as int));
            assert(upto.last() == ch);
        }
        let code: u32 = code_of(ch);
        if code < 128 {
            result.push(ch);
            assert(result@ =~= before + asciify_char(ch));
        } else {
            result.append("\\u{");
            push_radix(&mut result, code as u64, true);
            result.append("}");
            assert(result@ =~= before + asciify_char(ch));
        }
    }
    proof {
        assert(x@.subrange(0, x@.len() as int) =~= x@);
    }
    result
}

/// The character for a digit below sixteen.
fn digit(d: u8) -> (c: char)
    requires
        d < 16,
    ensures
        c == digit_char(d as int),
{
    if d < 10 {
        (48 + d) as char
    } else {
        (87 + d) as char
    }
}

} // verus!
