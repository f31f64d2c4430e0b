//! Parsing a run of decimal digits into an exact integer, with overflow
//! detection at the configured target width.

use vstd::prelude::*;
use crate::chars::{digit_val, is_digit_char};

verus! {

/// Why a run of characters failed to parse as an unsigned integer.
#[derive(Clone, Copy, Debug, PartialEq, Eq)]
pub enum NumParseError {
    /// The run holds a character that is not an ASCII decimal digit.
    NonDigit,
    /// The run is all digits but its value does not fit the target width.
    TooLarge,
}

/// Every character of the sequence is an ASCII decimal digit.
pub open spec fn all_digits(s: Seq<char>) -> bool {
    forall|i: int| 0 <= i < s.len() ==> is_digit_char(#[trigger] s[i])
}

/// The value of a sequence of decimal digits, most significant first.
pub open spec fn digits_value(s: Seq<char>) -> nat
    decreases s.len(),
{
    if s.len() == 0 {
        0
    } else {
        digits_value(s.drop_last()) * 10 + digit_val(s.last())
    }
}

/// Extending a digit run to the right never lowers its value.
pub proof fn lemma_digits_value_prefix_le(s: Seq<char>, i: int)
    requires
        0 <= i <= s.len(),
    ensures
        digits_value(s.subrange(0, i)) <= digits_value(s),
    decreases s.len() - i,
{
    if i == s.len() {
        assert(s.subrange(0, i) =~= s);
    } else {
        let shorter = s.subrange(0, i);
        let longer = s.subrange(0, i + 1);
        assert(longer.drop_last() =~= shorter);
        assert(longer.last() == s[i]);
        assert(digits_value(longer) == digits_value(shorter) * 10 + digit_val(s[i]));
        lemma_digits_value_prefix_le(s, i + 1);
    }
}

/// Parses the digit run `cs[lo..hi]` as an unsigned integer no larger than
/// `max`, reporting a non-digit character or a value beyond `max` exactly as
/// the run has it.
pub(crate) fn parse_digits(cs: &Vec<char>, lo: usize, hi: usize, max: u64) -> (r: Result<
    u64,
    NumParseError,
>)
    requires
        lo <= hi <= cs@.len(),
    ensures
        ({
            let run = cs@.subrange(lo as int, hi as int);
            match r {
                Ok(n) => all_digits(run) && n == digits_value(run) && n <= max,
                Err(NumParseError::NonDigit) => !all_digits(run),
                Err(NumParseError::TooLarge) => all_digits(run) && digits_value(run) > max,
            }
        }),
{
    let ghost run = cs@.subrange(lo as int, hi as int);
    let mut i: usize = lo;
    while i < hi
        invariant
            lo <= i <= hi <= cs@.len(),
            run == cs@.subrange(lo as int, hi as int),
            forall|k: int| lo <= k < i ==> is_digit_char(#[trigger] cs@[k]),
        decreases hi - i,
    {
        let u = cs[i] as u32;
        if !(48 <= u && u <= 57) {
            assert(run[i - lo] == cs@[i as int]);
            return Err(NumParseError::NonDigit);
        }
        i = i + 1;
    }
    assert(all_digits(run)) by {
        assert(forall|k: int| 0 <= k < run.len() ==> run[k] == cs@[lo + k]);
    }
    let mut acc: u64 = 0;
    i = lo;
    while i < hi
        invariant
            lo <= i <= hi <= cs@.len(),
            run == cs@.subrange(lo as int, hi as int),
            all_digits(run),
            acc == digits_value(cs@.subrange(lo as int, i as int)),
            acc <= max,
        decreases hi - i,
    {
        let ghost shorter = cs@.subrange(lo as int, i as int);
        let ghost longer = cs@.subrange(lo as int, i + 1);
        proof {
            assert(longer.drop_last() =~= shorter);
            assert(longer.last() == cs@[i as int]);
            assert(run[i - lo] == cs@[i as int]);
        }
        let u = cs[i] as u32;
        assert(48 <= u && u <= 57);
        let d: u64 = (u - 48) as u64;
        let wide: u128 = acc as u128 * 10 + d as u128;
        assert(wide == digits_value(longer));
        if wide > max as u128 {
            proof {
                assert(run.subrange(0, i + 1 - lo) =~= longer);
                lemma_digits_value_prefix_le(run, i + 1 - lo);
            }
            return Err(NumParseError::TooLarge);
        }
        acc = wide as u64;
        i = i + 1;
    }
    assert(cs@.subrange(lo as int, hi as int) =~= run);
    Ok(acc)
}

} // verus!
