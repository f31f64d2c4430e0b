//! The fixed, case-sensitive unit table of the byte-size grammar, and checked
//! exponentiation of a unit's base to its power.

use vstd::prelude::*;
use vstd::arithmetic::power::{pow, lemma_pow0, lemma_pow1, lemma_pow_adds, lemma_pow_positive, lemma_pow_increases};
use crate::chars::{is_alpha_char, is_white_char};

verus! {

/// The power that a unit letter stands for: `K` is one step, `Q` ten.
pub open spec fn spec_letter_power(c: char) -> Option<u32> {
    if c == 'K' {
        Some(1u32)
    } else if c == 'M' {
        Some(2u32)
    } else if c == 'G' {
        Some(3u32)
    } else if c == 'T' {
        Some(4u32)
    } else if c == 'P' {
        Some(5u32)
    } else if c == 'E' {
        Some(6u32)
    } else if c == 'Z' {
        Some(7u32)
    } else if c == 'Y' {
        Some(8u32)
    } else if c == 'R' {
        Some(9u32)
    } else if c == 'Q' {
        Some(10u32)
    } else {
        None
    }
}

/// The unit table as `(base, power)`: `B` alone scales by one, a bare letter
/// or letter+`B` is decimal (base 1000), letter+`i` or letter+`i`+`B` is
/// binary (base 1024). Exact match, case-sensitive.
pub open spec fn spec_unit_lookup(s: Seq<char>) -> Option<(u64, u32)> {
    if s.len() == 1 && s[0] == 'B' {
        Some((1u64, 1u32))
    } else if s.len() == 1 {
        match spec_letter_power(s[0]) {
            Some(p) => Some((1000u64, p)),
            None => None,
        }
    } else if s.len() == 2 && s[1] == 'B' {
        match spec_letter_power(s[0]) {
            Some(p) => Some((1000u64, p)),
            None => None,
        }
    } else if s.len() == 2 && s[1] == 'i' {
        match spec_letter_power(s[0]) {
            Some(p) => Some((1024u64, p)),
            None => None,
        }
    } else if s.len() == 3 && s[1] == 'i' && s[2] == 'B' {
        match spec_letter_power(s[0]) {
            Some(p) => Some((1024u64, p)),
            None => None,
        }
    } else {
        None
    }
}

/// Every character of a recognized unit token is an ASCII letter, so a unit
/// token is one alphabetic run with no whitespace in it.
pub proof fn lemma_unit_token_alpha(s: Seq<char>)
    requires
        spec_unit_lookup(s) is Some,
    ensures
        forall|i: int| 0 <= i < s.len() ==> is_alpha_char(#[trigger] s[i]),
        forall|i: int| 0 <= i < s.len() ==> !is_white_char(#[trigger] s[i]),
{
    assert forall|i: int| 0 <= i < s.len() implies is_alpha_char(#[trigger] s[i]) && !is_white_char(
        s[i],
    ) by {
        let c = s[i];
        assert(c == 'B' || c == 'i' || spec_letter_power(c) is Some);
        if spec_letter_power(c) is Some {
            assert(65 <= c as u32 <= 90);
        }
    }
}

pub(crate) fn letter_power(c: char) -> (r: Option<u32>)
    ensures
        r == spec_letter_power(c),
{
    if c == 'K' {
        Some(1)
    } else if c == 'M' {
        Some(2)
    } else if c == 'G' {
        Some(3)
    } else if c == 'T' {
        Some(4)
    } else if c == 'P' {
        Some(5)
    } else if c == 'E' {
        Some(6)
    } else if c == 'Z' {
        Some(7)
    } else if c == 'Y' {
        Some(8)
    } else if c == 'R' {
        Some(9)
    } else if c == 'Q' {
        Some(10)
    } else {
        None
    }
}

/// Looks a unit token up in the fixed table.
pub fn unit_lookup(u: &Vec<char>) -> (r: Option<(u64, u32)>)
    ensures
        r == spec_unit_lookup(u@),
{
    if u.len() == 1 && u[0] == 'B' {
        Some((1, 1))
    } else if u.len() == 1 {
        match letter_power(u[0]) {
            Some(p) => Some((1000, p)),
            None => None,
        }
    } else if u.len() == 2 && u[1] == 'B' {
        match letter_power(u[0]) {
            Some(p) => Some((1000, p)),
            None => None,
        }
    } else if u.len() == 2 && u[1] == 'i' {
        match letter_power(u[0]) {
            Some(p) => Some((1024, p)),
            None => None,
        }
    } else if u.len() == 3 && u[1] == 'i' && u[2] == 'B' {
        match letter_power(u[0]) {
            Some(p) => Some((1024, p)),
            None => None,
        }
    } else {
        None
    }
}

/// `base^exp` when it is no larger than `max`, or `None` exactly when the
/// power itself does not fit the target width.
pub(crate) fn checked_pow_u64(base: u64, exp: u32, max: u64) -> (r: Option<u64>)
    requires
        1 <= base <= 1024,
    ensures
        match r {
            Some(m) => m == pow(base as int, exp as nat) && pow(base as int, exp as nat) <= max,
            None => pow(base as int, exp as nat) > max,
        },
{
    let mut acc: u64 = 1;
    let mut i: u32 = 0;
    proof {
        lemma_pow0(base as int);
    }
    while i < exp
        invariant
            1 <= base <= 1024,
            i <= exp,
            acc == pow(base as int, i as nat),
        decreases exp - i,
    {
        proof {
            lemma_pow_positive(base as int, i as nat);
            lemma_pow_adds(base as int, i as nat, 1nat);
            lemma_pow1(base as int);
            assert(acc as u128 * base as u128 <= u64::MAX as u128 * 1024) by (nonlinear_arith)
                requires
                    acc as u128 <= u64::MAX as u128,
                    base as u128 <= 1024,
            ;
        }
        let wide: u128 = acc as u128 * base as u128;
        assert(wide == pow(base as int, (i + 1) as nat));
        if wide > max as u128 {
            proof {
                lemma_pow_increases(base as nat, (i + 1) as nat, exp as nat);
            }
            return None;
        }
        acc = wide as u64;
        i = i + 1;
    }
    if acc <= max {
        Some(acc)
    } else {
        None
    }
}

} // verus!
