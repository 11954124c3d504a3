//! Parsing a base-10 numeral into a `u64`.
//!
//! A numeral is accepted exactly when it is non-empty, consists of ASCII
//! digits alone (no sign, no whitespace), and its value fits in 64 bits.
//! Each way of failing is pinned to exactly the inputs on which it occurs:
//! an empty input, an input with a non-digit byte, and a run of digits
//! whose value is too large.

use vstd::prelude::*;

verus! {

/// Why a numeral was rejected.
#[derive(Clone, Copy, Debug, PartialEq, Eq, Structural)]
pub enum ParseError {
    /// The input held no bytes at all.
    Empty,
    /// Some byte of the input was not an ASCII digit.
    InvalidDigit,
    /// The digits were well-formed but their value exceeds `u64::MAX`.
    Overflow,
}

/// The byte is an ASCII digit, `'0'` through `'9'`.
pub open spec fn is_ascii_digit(b: u8) -> bool {
    48 <= b <= 57
}

/// The numeric value of one ASCII digit.
pub open spec fn digit_value(b: u8) -> nat
    recommends
        is_ascii_digit(b),
{
    (b - 48) as nat
}

/// Every byte of the sequence is an ASCII digit.
pub open spec fn all_digits(s: Seq<u8>) -> bool {
    forall|i: int| 0 <= i < s.len() ==> is_ascii_digit(#[trigger] s[i])
}

/// The value of a sequence of ASCII digits read in base 10; an empty
/// sequence reads as zero.
pub open spec fn decimal_value(s: Seq<u8>) -> nat
    recommends
        all_digits(s),
    decreases s.len(),
{
    if s.len() == 0 {
        0
    } else {
        decimal_value(s.drop_last()) * 10 + digit_value(s.last())
    }
}

/// Reading more digits never makes the value smaller.
proof fn lemma_decimal_prefix_le(s: Seq<u8>, i: int, j: int)
    requires
        0 <= i <= j <= s.len(),
    ensures
        decimal_value(s.take(i)) <= decimal_value(s.take(j)),
    decreases j - i,
{
    if i < j {
        lemma_decimal_prefix_le(s, i, j - 1);
        let t = s.take(j);
        assert(t.drop_last() =~= s.take(j - 1));
        assert(decimal_value(s.take(j - 1)) * 10 >= decimal_value(s.take(j - 1)));
    }
}

/// Parses the bytes of a base-10 numeral as an unsigned 64-bit integer.
///
/// Succeeds exactly on a non-empty, all-digit input whose value fits, and
/// returns that value.  An empty input is reported as such; otherwise a
/// non-digit byte anywhere is reported before a too-large value.
pub fn parse_u64(s: &[u8]) -> (r: Result<u64, ParseError>)
    ensures
        r is Ok <==> s@.len() > 0 && all_digits(s@) && decimal_value(s@) <= u64::MAX,
        r is Ok ==> r->Ok_0 == decimal_value(s@),
        r == Err::<u64, ParseError>(ParseError::Empty) <==> s@.len() == 0,
        r == Err::<u64, ParseError>(ParseError::InvalidDigit) <==> s@.len() > 0 && !all_digits(
            s@,
        ),
        r == Err::<u64, ParseError>(ParseError::Overflow) <==> s@.len() > 0 && all_digits(s@)
            && decimal_value(s@) > u64::MAX,
{
    if s.len() == 0 {
        return Err(ParseError::Empty);
    }
    let mut i: usize = 0;
    while i < s.len()
        invariant
            0 <= i <= s@.len(),
            forall|j: int| 0 <= j < i ==> is_ascii_digit(#[trigger] s@[j]),
        decreases s@.len() - i,
    {
        if s[i] < 48 || s[i] > 57 {
            return Err(ParseError::InvalidDigit);
        }
        i = i + 1;
    }
    let mut acc: u64 = 0;
    i = 0;
    while i < s.len()
        invariant
            0 <= i <= s@.len(),
            all_digits(s@),
            acc == decimal_value(s@.take(i as int)),
        decreases s@.len() - i,
    {
        let d = s[i] - 48;
        proof {
            let t = s@.take(i + 1);
            assert(t.drop_last() =~= s@.take(i as int));
            assert(t.last() == s@[i as int]);
        }
        if acc > u64::MAX / 10 || (acc == u64::MAX / 10 && d > 5) {
            proof {
                assert(decimal_value(s@.take(i + 1)) > u64::MAX);
                lemma_decimal_prefix_le(s@, i + 1, s@.len() as int);
                assert(s@.take(s@.len() as int) =~= s@);
            }
            return Err(ParseError::Overflow);
        }
        acc = acc * 10 + d as u64;
        i = i + 1;
    }
    proof {
        assert(s@.take(s@.len() as int) =~= s@);
    }
    Ok(acc)
}

} // verus!
