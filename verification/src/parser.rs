//! The byte-size parser: turns a human-written size string such as `300`,
//! `5KB` or `3GiB` into an exact byte count at a configured target width, or
//! reports exactly why it cannot.
//!
//! The input is trimmed of surrounding whitespace and split into maximal runs
//! of alphabetic / non-alphabetic characters. The first run must be a decimal
//! amount, an optional second run a unit token of the fixed table; anything
//! after the unit is trailing garbage. Both the unit multiplier and the final
//! product are checked against the target width.

use vstd::prelude::*;
use vstd::arithmetic::power::pow;
use crate::chars::{char_is_alphabetic, char_is_whitespace, is_alpha_char, is_white_char, is_digit_char};
use crate::digits::{all_digits, digits_value, parse_digits, NumParseError};
use crate::units::{spec_unit_lookup, unit_lookup, checked_pow_u64, lemma_unit_token_alpha};

verus! {

/// The first index at or after `i` that does not hold whitespace, or the length.
pub open spec fn white_prefix_end(s: Seq<char>, i: int) -> int
    decreases s.len() - i,
    when 0 <= i <= s.len()
{
    if i == s.len() || !is_white_char(s[i]) {
        i
    } else {
        white_prefix_end(s, i + 1)
    }
}

/// The least index `e` such that everything in `e..j` is whitespace and the
/// character before `e`, if any, is not.
pub open spec fn white_suffix_start(s: Seq<char>, j: int) -> int
    decreases j,
    when 0 <= j <= s.len()
{
    if j == 0 || !is_white_char(s[j - 1]) {
        j
    } else {
        white_suffix_start(s, j - 1)
    }
}

/// The input with surrounding whitespace removed.
pub open spec fn trim_spec(s: Seq<char>) -> Seq<char> {
    let lo = white_prefix_end(s, 0);
    let hi = white_suffix_start(s, s.len() as int);
    if lo <= hi {
        s.subrange(lo, hi)
    } else {
        Seq::empty()
    }
}

/// The end of the maximal run starting at `i` whose characters are alphabetic
/// exactly when `kind` is true.
pub open spec fn run_end(t: Seq<char>, kind: bool, i: int) -> int
    decreases t.len() - i,
    when 0 <= i <= t.len()
{
    if i == t.len() || is_alpha_char(t[i]) != kind {
        i
    } else {
        run_end(t, kind, i + 1)
    }
}

pub proof fn lemma_white_prefix_end_unique(s: Seq<char>, i: int, e: int)
    requires
        0 <= i <= e <= s.len(),
        forall|k: int| i <= k < e ==> is_white_char(#[trigger] s[k]),
        e == s.len() || !is_white_char(s[e]),
    ensures
        white_prefix_end(s, i) == e,
    decreases e - i,
{
    if i < e {
        lemma_white_prefix_end_unique(s, i + 1, e);
    }
}

pub proof fn lemma_white_suffix_start_unique(s: Seq<char>, j: int, e: int)
    requires
        0 <= e <= j <= s.len(),
        forall|k: int| e <= k < j ==> is_white_char(#[trigger] s[k]),
        e == 0 || !is_white_char(s[e - 1]),
    ensures
        white_suffix_start(s, j) == e,
    decreases j - e,
{
    if e < j {
        lemma_white_suffix_start_unique(s, j - 1, e);
    }
}

pub proof fn lemma_run_end_unique(t: Seq<char>, kind: bool, i: int, e: int)
    requires
        0 <= i <= e <= t.len(),
        forall|k: int| i <= k < e ==> is_alpha_char(#[trigger] t[k]) == kind,
        e == t.len() || is_alpha_char(t[e]) != kind,
    ensures
        run_end(t, kind, i) == e,
    decreases e - i,
{
    if i < e {
        lemma_run_end_unique(t, kind, i + 1, e);
    }
}

/// Why a byte-size string was rejected, at the specification level: texts are
/// sequences of characters.
pub enum SpecParseError {
    Empty,
    AlphaBeforeAmount,
    InvalidAmount(NumParseError),
    UnknownUnitPrefix(Seq<char>),
    UnitOverflow(Seq<char>),
    AmountOverflow(u64, Seq<char>),
    TrailingGarbage(Seq<char>),
}

/// Why a byte-size string was rejected. Texts borrow from the parsed input.
#[derive(Debug, PartialEq, Eq)]
pub enum ParseByteError<'a> {
    /// The input holds nothing but whitespace.
    Empty,
    /// An alphabetic character stands before the amount.
    AlphaBeforeAmount,
    /// The amount is not an unsigned decimal number at the target width.
    InvalidAmount(NumParseError),
    /// The text after the amount matches no entry of the unit table.
    UnknownUnitPrefix(&'a str),
    /// The unit's own multiplier does not fit the target width.
    UnitOverflow(&'a str),
    /// Amount times multiplier does not fit the target width.
    AmountOverflow(u64, &'a str),
    /// Text follows the unit.
    TrailingGarbage(&'a str),
}

impl<'a> View for ParseByteError<'a> {
    type V = SpecParseError;

    open spec fn view(&self) -> SpecParseError {
        match self {
            ParseByteError::Empty => SpecParseError::Empty,
            ParseByteError::AlphaBeforeAmount => SpecParseError::AlphaBeforeAmount,
            ParseByteError::InvalidAmount(e) => SpecParseError::InvalidAmount(*e),
            ParseByteError::UnknownUnitPrefix(u) => SpecParseError::UnknownUnitPrefix(u@),
            ParseByteError::UnitOverflow(u) => SpecParseError::UnitOverflow(u@),
            ParseByteError::AmountOverflow(n, u) => SpecParseError::AmountOverflow(*n, u@),
            ParseByteError::TrailingGarbage(u) => SpecParseError::TrailingGarbage(u@),
        }
    }
}

/// A parse result with its error taken to the specification level.
pub open spec fn parse_result_view<'a>(r: Result<u64, ParseByteError<'a>>) -> Result<
    u64,
    SpecParseError,
> {
    match r {
        Ok(n) => Ok(n),
        Err(e) => Err(e@),
    }
}

/// What parsing a byte-size string at target width `max` returns, for every
/// input: `max` is the largest byte count the configured width can hold.
pub open spec fn parse_spec(s: Seq<char>, max: u64) -> Result<u64, SpecParseError> {
    let t = trim_spec(s);
    if t.len() == 0 {
        Err(SpecParseError::Empty)
    } else if is_alpha_char(t[0]) {
        Err(SpecParseError::AlphaBeforeAmount)
    } else {
        let e1 = run_end(t, false, 0);
        let amt = t.subrange(0, e1);
        if !all_digits(amt) {
            Err(SpecParseError::InvalidAmount(NumParseError::NonDigit))
        } else if digits_value(amt) > max {
            Err(SpecParseError::InvalidAmount(NumParseError::TooLarge))
        } else {
            let n = digits_value(amt) as u64;
            if e1 == t.len() {
                Ok(n)
            } else {
                let e2 = run_end(t, true, e1);
                let unit = t.subrange(e1, e2);
                match spec_unit_lookup(unit) {
                    None => Err(SpecParseError::UnknownUnitPrefix(unit)),
                    Some((base, power)) => {
                        let mult = pow(base as int, power as nat);
                        if mult > max {
                            Err(SpecParseError::UnitOverflow(unit))
                        } else if n * mult > max {
                            Err(SpecParseError::AmountOverflow(n, unit))
                        } else if e2 < t.len() {
                            Err(SpecParseError::TrailingGarbage(t.subrange(e2, t.len() as int)))
                        } else {
                            Ok((n * mult) as u64)
                        }
                    },
                }
            }
        }
    }
}

/// The characters of a string, one by one.
fn chars_of(s: &str) -> (r: Vec<char>)
    ensures
        r@ == s@,
{
    let n = s.unicode_len();
    let mut v: Vec<char> = Vec::new();
    let mut i: usize = 0;
    while i < n
        invariant
            i <= n,
            n == s@.len(),
            v@ == s@.subrange(0, i as int),
        decreases n - i,
    {
        let c = s.get_char(i);
        v.push(c);
        proof {
            assert(v@ =~= s@.subrange(0, i + 1));
        }
        i = i + 1;
    }
    proof {
        assert(s@.subrange(0, n as int) =~= s@);
    }
    v
}

/// Parses a byte-size string at a configured target width: a decimal amount,
/// optionally followed by a unit token of the fixed table, with surrounding
/// whitespace ignored. Returns the exact byte count when it is at most `max`
/// and the precise reason for rejection otherwise, as `parse_spec` states for
/// every input.
pub fn parse_byte_amount_at<'a>(s: &'a str, max: u64) -> (r: Result<u64, ParseByteError<'a>>)
    ensures
        parse_result_view(r) == parse_spec(s@, max),
{
    let cs: Vec<char> = chars_of(s);
    let n: usize = cs.len();

    let mut lo: usize = 0;
    while lo < n
        invariant
            lo <= n,
            n == cs@.len(),
            cs@ == s@,
            forall|k: int| 0 <= k < lo ==> is_white_char(#[trigger] cs@[k]),
        ensures
            lo <= n,
            forall|k: int| 0 <= k < lo ==> is_white_char(#[trigger] cs@[k]),
            lo == n || !is_white_char(cs@[lo as int]),
        decreases n - lo,
    {
        if !char_is_whitespace(cs[lo]) {
            break;
        }
        lo = lo + 1;
    }
    proof {
        lemma_white_prefix_end_unique(s@, 0, lo as int);
    }

    if lo == n {
        proof {
            lemma_white_suffix_start_unique(s@, n as int, 0);
            if n == 0 {
                assert(trim_spec(s@) =~= Seq::<char>::empty());
            }
        }
        assert(trim_spec(s@).len() == 0);
        return Err(ParseByteError::Empty);
    }

    let mut hi: usize = n;
    while hi > lo
        invariant
            lo < hi <= n,
            n == cs@.len(),
            cs@ == s@,
            !is_white_char(cs@[lo as int]),
            forall|k: int| hi <= k < n ==> is_white_char(#[trigger] cs@[k]),
        ensures
            lo < hi <= n,
            forall|k: int| hi <= k < n ==> is_white_char(#[trigger] cs@[k]),
            !is_white_char(cs@[hi - 1]),
        decreases hi,
    {
        if !char_is_whitespace(cs[hi - 1]) {
            break;
        }
        hi = hi - 1;
    }
    proof {
        lemma_white_suffix_start_unique(s@, n as int, hi as int);
    }

    let ghost t = s@.subrange(lo as int, hi as int);
    assert(t == trim_spec(s@));
    assert(t.len() == hi - lo);
    assert(forall|k: int| 0 <= k < t.len() ==> t[k] == s@[lo + k]);

    let mut e1: usize = lo;
    while e1 < hi
        invariant
            lo <= e1 <= hi <= n,
            n == cs@.len(),
            cs@ == s@,
            forall|k: int| lo <= k < e1 ==> !is_alpha_char(#[trigger] cs@[k]),
        ensures
            lo <= e1 <= hi,
            forall|k: int| lo <= k < e1 ==> !is_alpha_char(#[trigger] cs@[k]),
            e1 == hi || is_alpha_char(cs@[e1 as int]),
        decreases hi - e1,
    {
        if char_is_alphabetic(cs[e1]) {
            break;
        }
        e1 = e1 + 1;
    }

    if e1 == lo {
        // The trimmed input begins with an alphabetic character.
        assert(is_alpha_char(t[0]));
        return Err(ParseByteError::AlphaBeforeAmount);
    }
    assert(!is_alpha_char(t[0]));
    proof {
        lemma_run_end_unique(t, false, 0, e1 - lo);
    }
    let ghost amt = t.subrange(0, e1 - lo);
    proof {
        assert(amt =~= cs@.subrange(lo as int, e1 as int));
    }

    let amount: u64 = match parse_digits(&cs, lo, e1, max) {
        Ok(a) => a,
        Err(e) => {
            return Err(ParseByteError::InvalidAmount(e));
        },
    };

    if e1 == hi {
        assert(e1 - lo == t.len());
        return Ok(amount);
    }

    let mut e2: usize = e1;
    while e2 < hi
        invariant
            e1 <= e2 <= hi <= n,
            n == cs@.len(),
            cs@ == s@,
            forall|k: int| e1 <= k < e2 ==> is_alpha_char(#[trigger] cs@[k]),
        ensures
            e1 <= e2 <= hi,
            forall|k: int| e1 <= k < e2 ==> is_alpha_char(#[trigger] cs@[k]),
            e2 == hi || !is_alpha_char(cs@[e2 as int]),
        decreases hi - e2,
    {
        if !char_is_alphabetic(cs[e2]) {
            break;
        }
        e2 = e2 + 1;
    }
    proof {
        lemma_run_end_unique(t, true, e1 - lo, e2 - lo);
    }

    let mut unit: Vec<char> = Vec::new();
    let mut i: usize = e1;
    while i < e2
        invariant
            e1 <= i <= e2 <= n,
            n == cs@.len(),
            cs@ == s@,
            unit@ == cs@.subrange(e1 as int, i as int),
        decreases e2 - i,
    {
        let c = cs[i];
        unit.push(c);
        proof {
            assert(unit@ =~= cs@.subrange(e1 as int, i + 1));
        }
        i = i + 1;
    }
    proof {
        assert(unit@ =~= t.subrange(e1 - lo, e2 - lo));
    }

    let (base, power) = match unit_lookup(&unit) {
        Some(bp) => bp,
        None => {
            let text = s.substring_char(e1, e2);
            assert(text@ =~= t.subrange(e1 - lo, e2 - lo));
            return Err(ParseByteError::UnknownUnitPrefix(text));
        },
    };
    assert(1 <= base && base <= 1024);

    let mult: u64 = match checked_pow_u64(base, power, max) {
        Some(m) => m,
        None => {
            let text = s.substring_char(e1, e2);
            assert(text@ =~= t.subrange(e1 - lo, e2 - lo));
            return Err(ParseByteError::UnitOverflow(text));
        },
    };

    proof {
        assert(amount as u128 * mult as u128 <= u64::MAX as u128 * u64::MAX as u128)
            by (nonlinear_arith)
            requires
                amount as u128 <= u64::MAX as u128,
                mult as u128 <= u64::MAX as u128,
        ;
    }
    let wide: u128 = amount as u128 * mult as u128;
    if wide > max as u128 {
        let text = s.substring_char(e1, e2);
        assert(text@ =~= t.subrange(e1 - lo, e2 - lo));
        return Err(ParseByteError::AmountOverflow(amount, text));
    }

    if e2 < hi {
        let text = s.substring_char(e2, hi);
        assert(text@ =~= t.subrange(e2 - lo, t.len() as int));
        return Err(ParseByteError::TrailingGarbage(text));
    }

    assert(e2 - lo == t.len());
    Ok(wide as u64)
}

/// Parses a byte-size string at the full 64-bit width.
pub fn parse_byte_amount<'a>(s: &'a str) -> (r: Result<u64, ParseByteError<'a>>)
    ensures
        parse_result_view(r) == parse_spec(s@, u64::MAX),
{
    parse_byte_amount_at(s, u64::MAX)
}

/// Law: a nonempty run of decimal digits followed by a recognized unit token
/// parses to the digits' value times the unit's multiplier, whenever that
/// multiplier and that product fit the target width.
pub proof fn lemma_parse_amount_with_unit(
    ds: Seq<char>,
    unit: Seq<char>,
    base: u64,
    power: u32,
    max: u64,
)
    requires
        ds.len() > 0,
        all_digits(ds),
        digits_value(ds) <= max,
        spec_unit_lookup(unit) == Some((base, power)),
        pow(base as int, power as nat) <= max,
        digits_value(ds) * pow(base as int, power as nat) <= max,
    ensures
        parse_spec(ds + unit, max) == Ok::<u64, SpecParseError>(
            (digits_value(ds) * pow(base as int, power as nat)) as u64,
        ),
{
    let s = ds + unit;
    assert(1 <= unit.len() <= 3);
    lemma_unit_token_alpha(unit);
    let dlen = ds.len() as int;
    let len = s.len() as int;
    assert(forall|k: int| 0 <= k < dlen ==> s[k] == ds[k]);
    assert(forall|k: int| dlen <= k < len ==> s[k] == unit[k - dlen]);
    assert(forall|k: int| 0 <= k < dlen ==> is_digit_char(#[trigger] s[k]));
    assert(forall|k: int|
        0 <= k < len ==> !is_white_char(#[trigger] s[k]) && (is_alpha_char(s[k]) <==> dlen <= k));
    lemma_white_prefix_end_unique(s, 0, 0);
    lemma_white_suffix_start_unique(s, len, len);
    let t = trim_spec(s);
    assert(t =~= s);
    assert(!is_alpha_char(t[0]));
    lemma_run_end_unique(t, false, 0, dlen);
    assert(t.subrange(0, dlen) =~= ds);
    lemma_run_end_unique(t, true, dlen, len);
    assert(t.subrange(dlen, len) =~= unit);
}

} // verus!
