//! Reading plain bytes: decimal numbers, 7-bit checks and the alphabet of
//! symbol suffixes.

use vstd::prelude::*;

verus! {

/// The value of a decimal digit.
pub open spec fn digit_10_value(b: u8) -> Option<u8> {
    if '0' as u8 <= b <= '9' as u8 {
        Some((b - '0' as u8) as u8)
    } else {
        None
    }
}

/// Reads decimal digits from `next` as far as they go, having read the value
/// `acc` so far: the value and the position of the first byte that is no
/// digit.
pub open spec fn decimal_run(s: Seq<u8>, next: int, acc: nat) -> (nat, int)
    decreases s.len() - next,
{
    if 0 <= next < s.len() && digit_10_value(s[next]) is Some {
        decimal_run(s, next + 1, (acc * 10 + digit_10_value(s[next])->0) as nat)
    } else {
        (acc, next)
    }
}

/// Whether every byte is below `0x80`.
pub open spec fn is_7bit(s: Seq<u8>) -> bool {
    forall|i: int| 0 <= i < s.len() ==> #[trigger] s[i] < 0x80
}

/// Whether `b` may stand in the suffix of a symbol: a letter, a digit, or one
/// of `.`, `_`, `@` and `$`.
pub open spec fn is_symbol_byte(b: u8) -> bool {
    ('0' as u8 <= b <= '9' as u8) || ('a' as u8 <= b <= 'z' as u8) || ('A' as u8 <= b
        <= 'Z' as u8) || b == '.' as u8 || b == '_' as u8 || b == '@' as u8 || b == '$' as u8
}

/// Whether every byte from `from` on may stand in the suffix of a symbol.
pub open spec fn is_symbol_like(s: Seq<u8>, from: int) -> bool {
    forall|i: int| from <= i < s.len() ==> is_symbol_byte(#[trigger] s[i])
}

pub proof fn lemma_decimal_run_bounds(s: Seq<u8>, next: int, acc: nat)
    requires
        0 <= next <= s.len(),
    ensures
        decimal_run(s, next, acc).0 >= acc,
        next <= decimal_run(s, next, acc).1 <= s.len(),
    decreases s.len() - next,
{
    if next < s.len() && digit_10_value(s[next]) is Some {
        lemma_decimal_run_bounds(s, next + 1, (acc * 10 + digit_10_value(s[next])->0) as nat);
    }
}

/// Whether `b` is a decimal digit.
pub fn is_decimal(b: u8) -> (r: bool)
    ensures
        r == (digit_10_value(b) is Some),
{
    b >= '0' as u8 && b <= '9' as u8
}

/// Reads the decimal digits at `next`, having read the value `acc` so far.
/// Returns the value and the position behind the digits, or `None` where the
/// value does not fit the machine word.
pub fn read_decimal(s: &[u8], next: usize, acc: usize) -> (r: Option<(usize, usize)>)
    requires
        next <= s@.len(),
    ensures
        match r {
            Some((value, after)) => decimal_run(s@, next as int, acc as nat) == (
                value as nat,
                after as int,
            ) && next <= after <= s@.len(),
            None => decimal_run(s@, next as int, acc as nat).0 > usize::MAX,
        },
{
    let mut value: usize = acc;
    let mut at: usize = next;
    while at < s.len() && is_decimal(s[at])
        invariant
            next <= at <= s@.len(),
            decimal_run(s@, at as int, value as nat) == decimal_run(
                s@,
                next as int,
                acc as nat,
            ),
        decreases s@.len() - at,
    {
        let d: usize = (s[at] - '0' as u8) as usize;
        proof {
            lemma_decimal_run_bounds(s@, at + 1, (value * 10 + d) as nat);
        }
        value = match value.checked_mul(10) {
            Some(v) => v,
            None => {
                return None;
            },
        };
        value = match value.checked_add(d) {
            Some(v) => v,
            None => {
                return None;
            },
        };
        at += 1;
    }
    Some((value, at))
}

/// Whether every byte is below `0x80`.
pub fn check_7bit(s: &[u8]) -> (r: bool)
    ensures
        r == is_7bit(s@),
{
    let mut i: usize = 0;
    while i < s.len()
        invariant
            i <= s@.len(),
            forall|k: int| 0 <= k < i ==> #[trigger] s@[k] < 0x80,
        decreases s@.len() - i,
    {
        if s[i] >= 0x80 {
            return false;
        }
        i += 1;
    }
    true
}

/// Whether `b` may stand in the suffix of a symbol.
pub fn symbol_byte(b: u8) -> (r: bool)
    ensures
        r == is_symbol_byte(b),
{
    (b >= '0' as u8 && b <= '9' as u8) || (b >= 'a' as u8 && b <= 'z' as u8) || (b >= 'A' as u8
        && b <= 'Z' as u8) || b == '.' as u8 || b == '_' as u8 || b == '@' as u8 || b
        == '$' as u8
}

} // verus!
