//! Unicode identifiers: the Punycode digits after an identifier's last `_`
//! say which characters to insert into its ASCII part, and where.
//!
//! The decoder follows RFC 3492 with base 36, thresholds 1 and 26, skew 38,
//! damping 700 and then 2, initial bias 72 and initial code point `0x80`.
//! It gives up on a result of more than [`SMALL_PUNYCODE_LEN`] characters, on
//! arithmetic that leaves the machine word, and on a code point that is no
//! Unicode scalar value; the identifier is then printed undecoded.

use crate::text::byte_text;
use crate::text::is_scalar_value;
use crate::text::lemma_byte_text_push;
use crate::text::push_bytes;
use crate::text::push_chars;
use crate::v0::parser::Ident;
use crate::v0::parser::IdentText;
use vstd::prelude::*;
use vstd::string::*;

verus! {

/// The longest identifier, in characters, that is decoded.
pub const SMALL_PUNYCODE_LEN: usize = 128;

/// The value of a Punycode digit: `a-z` are 0 to 25, `0-9` are 26 to 35.
pub open spec fn punycode_digit(b: u8) -> Option<nat> {
    if 'a' as u8 <= b <= 'z' as u8 {
        Some((b - 'a' as u8) as nat)
    } else if '0' as u8 <= b <= '9' as u8 {
        Some((26 + (b - '0' as u8)) as nat)
    } else {
        None
    }
}

/// The threshold for the digit at weight index `k`: `k - bias`, held
/// between 1 and 26.
pub open spec fn threshold(k: nat, bias: nat) -> nat {
    if k <= bias + 1 {
        1
    } else if k >= bias + 26 {
        26
    } else {
        (k - bias) as nat
    }
}

/// The tail of bias adaptation: divide by 35 while the delta is above 455,
/// counting 36 for each division.
pub open spec fn adapt_scaled(delta: nat, k: nat) -> nat
    decreases delta,
{
    if delta > 455 {
        adapt_scaled(delta / 35, k + 36)
    } else {
        k + (36 * delta) / (delta + 38)
    }
}

/// The bias after a delta was decoded into a string that now has `len`
/// characters.
pub open spec fn adapt(delta: nat, damp: nat, len: nat) -> nat {
    let damped = delta / damp;
    adapt_scaled(damped + damped / len, 0)
}

/// Where the decoder stands between two digits.
pub struct Decoder {
    /// The characters decoded so far.
    pub out: Seq<char>,
    /// The position after the last insertion.
    pub i: nat,
    /// The last code point inserted.
    pub n: nat,
    pub bias: nat,
    pub damp: nat,
    /// The part of the current delta read so far.
    pub delta: nat,
    /// The weight of the next digit.
    pub w: nat,
    /// The weight index of the last digit.
    pub k: nat,
}

/// Decodes the digits from position `p` on.
pub open spec fn decode_from(puny: Seq<u8>, p: int, st: Decoder) -> Option<Seq<char>>
    decreases puny.len() - p,
{
    if p < 0 || p >= puny.len() {
        None
    } else {
        match punycode_digit(puny[p]) {
            None => None,
            Some(d) => {
                let k = st.k + 36;
                let t = threshold(k, st.bias);
                let delta = st.delta + d * st.w;
                if delta > usize::MAX {
                    None
                } else if d < t {
                    let len = st.out.len() + 1;
                    let i = st.i + delta;
                    let n = st.n + i / len;
                    if i > usize::MAX || n > usize::MAX || !is_scalar_value(n as int)
                        || st.out.len() >= SMALL_PUNYCODE_LEN {
                        None
                    } else {
                        let out = st.out.insert((i % len) as int, n as char);
                        if p + 1 >= puny.len() {
                            Some(out)
                        } else {
                            decode_from(
                                puny,
                                p + 1,
                                Decoder {
                                    out,
                                    i: i % len + 1,
                                    n,
                                    bias: adapt(delta, st.damp, len),
                                    damp: 2,
                                    delta: 0,
                                    w: 1,
                                    k: 0,
                                },
                            )
                        }
                    }
                } else if st.w * (36 - t) > usize::MAX {
                    None
                } else {
                    decode_from(
                        puny,
                        p + 1,
                        Decoder { delta, w: (st.w * (36 - t)) as nat, k, ..st },
                    )
                }
            },
        }
    }
}

/// The characters of a Unicode identifier, where it can be decoded.
pub open spec fn punycode_decode(id: IdentText) -> Option<Seq<char>> {
    if id.punycode.len() == 0 || id.ascii.len() > SMALL_PUNYCODE_LEN {
        None
    } else {
        decode_from(
            id.punycode,
            0,
            Decoder {
                out: byte_text(id.ascii),
                i: 0,
                n: 0x80,
                bias: 72,
                damp: 700,
                delta: 0,
                w: 1,
                k: 0,
            },
        )
    }
}

/// Whether the identifier is empty.
pub open spec fn ident_is_empty(id: IdentText) -> bool {
    id.ascii.len() == 0 && id.punycode.len() == 0
}

/// An identifier as it is printed: decoded where it is Unicode and can be
/// decoded, as `punycode{ascii-digits}` where it cannot (without `ascii-`
/// if there is no ASCII part), and as it stands where it is plain ASCII.
pub open spec fn ident_text(id: IdentText) -> Seq<char> {
    match punycode_decode(id) {
        Some(chars) => chars,
        None => if id.punycode.len() > 0 {
            "punycode{"@ + (if id.ascii.len() > 0 {
                byte_text(id.ascii) + "-"@
            } else {
                Seq::empty()
            }) + byte_text(id.punycode) + "}"@
        } else {
            byte_text(id.ascii)
        },
    }
}

/// Inserts `c` at `i`, unless the buffer is full.
fn small_insert(out: &mut Vec<char>, i: usize, c: char) -> (r: Result<(), ()>)
    requires
        i <= old(out)@.len(),
    ensures
        old(out)@.len() < SMALL_PUNYCODE_LEN ==> r is Ok && final(out)@ == old(out)@.insert(
            i as int,
            c,
        ),
        old(out)@.len() >= SMALL_PUNYCODE_LEN ==> r is Err && final(out)@ == old(out)@,
{
    if out.len() >= SMALL_PUNYCODE_LEN {
        return Err(());
    }
    out.insert(i, c);
    Ok(())
}

/// The bias for the next delta.
fn adapt_bias(delta: usize, damp: usize, len: usize) -> (bias: usize)
    requires
        damp >= 2,
        len >= 1,
    ensures
        bias == adapt(delta as nat, damp as nat, len as nat),
{
    let damped: usize = delta / damp;
    assert(damped <= delta / 2) by (nonlinear_arith)
        requires
            damped == delta / damp,
            damp >= 2,
    ;
    assert(damped / len <= damped) by (nonlinear_arith)
        requires
            len >= 1,
    ;
    let start: usize = damped + damped / len;
    let mut d: usize = start;
    let mut k: usize = 0;
    while d > 455
        invariant
            12 * k + d <= start,
            adapt_scaled(d as nat, k as nat) == adapt_scaled(start as nat, 0),
        decreases d,
    {
        d = d / 35;
        k = k + 36;
    }
    k + (36 * d) / (d + 38)
}

/// The value of a Punycode digit.
fn digit_value(b: u8) -> (r: Option<usize>)
    ensures
        match r {
            Some(d) => punycode_digit(b) == Some(d as nat) && d < 36,
            None => punycode_digit(b) is None,
        },
{
    if b >= 'a' as u8 && b <= 'z' as u8 {
        Some((b - 'a' as u8) as usize)
    } else if b >= '0' as u8 && b <= '9' as u8 {
        Some(26 + (b - '0' as u8) as usize)
    } else {
        None
    }
}

/// The threshold for a digit.
fn digit_threshold(k: usize, bias: usize) -> (t: usize)
    ensures
        t == threshold(k as nat, bias as nat),
        1 <= t <= 26,
{
    let over: usize = k.saturating_sub(bias);
    if over < 1 {
        1
    } else if over > 26 {
        26
    } else {
        over
    }
}

/// The code point as a character, if it is one.
fn scalar(n: usize) -> (r: Option<char>)
    ensures
        r is Some <==> is_scalar_value(n as int),
        r matches Some(c) ==> c == n as char,
{
    if n > 0x10FFFF {
        return None;
    }
    let r = char::from_u32(n as u32);
    proof {
        if let Some(c) = r {
            vstd::utf8::char_u32_cast(c, n as u32);
        }
    }
    r
}

impl<'s> Ident<'s> {
    /// Whether the identifier is empty.
    pub fn is_empty(&self) -> (r: bool)
        ensures
            r == ident_is_empty(self@),
    {
        self.ascii.len() == 0 && self.punycode.len() == 0
    }

    /// Decodes a Unicode identifier into `out`. Fails where the identifier is
    /// plain ASCII, where a digit or a code point is invalid, where the
    /// arithmetic overflows, and where the result would pass
    /// [`SMALL_PUNYCODE_LEN`] characters.
    #[verifier::loop_isolation(false)]
    pub fn punycode_decode(&self, out: &mut Vec<char>) -> (r: Result<(), ()>)
        requires
            old(out)@.len() == 0,
        ensures
            match punycode_decode(self@) {
                Some(chars) => r is Ok && final(out)@ == chars,
                None => r is Err,
            },
    {
        let puny = self.punycode;
        let ascii = self.ascii;
        if puny.len() == 0 {
            return Err(());
        }
        let mut j: usize = 0;
        while j < ascii.len()
            invariant
                j <= ascii@.len(),
                j <= SMALL_PUNYCODE_LEN,
                out@ == byte_text(ascii@.subrange(0, j as int)),
            decreases ascii@.len() - j,
        {
            proof {
                lemma_byte_text_push(ascii@.subrange(0, j as int), ascii@[j as int]);
                assert(ascii@.subrange(0, j as int).push(ascii@[j as int]) =~= ascii@.subrange(
                    0,
                    j + 1,
                ));
                assert(out@.insert(j as int, ascii@[j as int] as char) =~= out@.push(
                    ascii@[j as int] as char,
                ));
            }
            if small_insert(out, j, ascii[j] as char).is_err() {
                return Err(());
            }
            j += 1;
        }
        proof {
            assert(ascii@.subrange(0, j as int) =~= ascii@);
        }
        let mut bias: usize = 72;
        let mut damp: usize = 700;
        let mut i: usize = 0;
        let mut n: usize = 0x80;
        let mut delta: usize = 0;
        let mut w: usize = 1;
        let mut k: usize = 0;
        let mut p: usize = 0;
        while p < puny.len()
            invariant
                p <= puny@.len(),
                out@.len() <= SMALL_PUNYCODE_LEN,
                damp >= 2,
                (k == 0 && w == 1) || (w >= 10 && k <= 36 + w / 2),
                decode_from(
                    puny@,
                    p as int,
                    Decoder {
                        out: out@,
                        i: i as nat,
                        n: n as nat,
                        bias: bias as nat,
                        damp: damp as nat,
                        delta: delta as nat,
                        w: w as nat,
                        k: k as nat,
                    },
                ) == punycode_decode(self@),
            decreases puny@.len() - p,
        {
            let d: usize = match digit_value(puny[p]) {
                Some(d) => d,
                None => {
                    return Err(());
                },
            };
            k = k + 36;
            let t: usize = digit_threshold(k, bias);
            let weighted: usize = match d.checked_mul(w) {
                Some(v) => v,
                None => {
                    return Err(());
                },
            };
            delta = match delta.checked_add(weighted) {
                Some(v) => v,
                None => {
                    return Err(());
                },
            };
            if d < t {
                let len: usize = out.len() + 1;
                i = match i.checked_add(delta) {
                    Some(v) => v,
                    None => {
                        return Err(());
                    },
                };
                n = match n.checked_add(i / len) {
                    Some(v) => v,
                    None => {
                        return Err(());
                    },
                };
                i = i % len;
                let c: char = match scalar(n) {
                    Some(c) => c,
                    None => {
                        return Err(());
                    },
                };
                if small_insert(out, i, c).is_err() {
                    return Err(());
                }
                i = i + 1;
                if p + 1 >= puny.len() {
                    return Ok(());
                }
                bias = adapt_bias(delta, damp, len);
                damp = 2;
                delta = 0;
                w = 1;
                k = 0;
            } else {
                let ghost w_before = w;
                w = match w.checked_mul(36 - t) {
                    Some(v) => v,
                    None => {
                        return Err(());
                    },
                };
                assert(w >= 10 * w_before) by (nonlinear_arith)
                    requires
                        w == w_before * (36 - t),
                        w_before >= 1,
                        36 - t >= 10,
                ;
            }
            p = p + 1;
        }
        Err(())
    }

    /// The characters of a Unicode identifier of at most
    /// [`SMALL_PUNYCODE_LEN`] characters, if it can be decoded.
    pub fn try_small_punycode_decode(&self) -> (r: Option<Vec<char>>)
        ensures
            match r {
                Some(chars) => punycode_decode(self@) == Some(chars@),
                None => punycode_decode(self@) is None,
            },
    {
        let mut out: Vec<char> = Vec::new();
        match self.punycode_decode(&mut out) {
            Ok(()) => Some(out),
            Err(()) => None,
        }
    }

    /// Appends the identifier to `out` as it is printed.
    pub fn print(&self, out: &mut String)
        ensures
            final(out)@ == old(out)@ + ident_text(self@),
    {
        match self.try_small_punycode_decode() {
            Some(chars) => {
                push_chars(out, &chars);
            },
            None => {
                if self.punycode.len() > 0 {
                    let ghost start = out@;
                    out.append("punycode{");
                    if self.ascii.len() > 0 {
                        push_bytes(out, self.ascii);
                        out.append("-");
                    }
                    push_bytes(out, self.punycode);
                    out.append("}");
                    proof {
                        let head = "punycode{"@ + (if self@.ascii.len() > 0 {
                            byte_text(self@.ascii) + "-"@
                        } else {
                            Seq::empty()
                        });
                        assert(out@ =~= start + (head + byte_text(self@.punycode) + "}"@));
                    }
                } else {
                    push_bytes(out, self.ascii);
                }
            },
        }
    }
}

} // verus!
