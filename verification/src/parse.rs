//! The value reader: parses a whitespace token as an unsigned base-10
//! integer, and pulls-and-parses the next token of a splitter, turning
//! absence and parse failure into the input errors of the taxonomy.

use vstd::prelude::*;
use crate::errors::{Field, SolveError};
use crate::tokens::{BufReadSplitter, spec_tokens};

verus! {

/// Whether a byte is an ASCII decimal digit.
pub open spec fn is_digit(b: u8) -> bool {
    48 <= b <= 57
}

/// Every byte of `s` is an ASCII decimal digit.
pub open spec fn all_digits(s: Seq<u8>) -> bool {
    forall|k: int| 0 <= k < s.len() ==> is_digit(s[k])
}

/// The number denoted by a sequence of decimal digits, most significant first.
pub open spec fn digits_value(s: Seq<u8>) -> int
    decreases s.len(),
{
    if s.len() == 0 {
        0
    } else {
        digits_value(s.drop_last()) * 10 + (s.last() - 48)
    }
}

/// What parsing a token as a `u64` yields: the denoted number where the token
/// is a non-empty run of decimal digits whose value fits, nothing otherwise.
pub open spec fn spec_parse_u64(s: Seq<u8>) -> Option<u64> {
    if s.len() > 0 && all_digits(s) && digits_value(s) <= u64::MAX {
        Some(digits_value(s) as u64)
    } else {
        None
    }
}

/// A digit string's value is non-negative.
pub proof fn lemma_digits_value_nonneg(s: Seq<u8>)
    requires
        all_digits(s),
    ensures
        digits_value(s) >= 0,
    decreases s.len(),
{
    if s.len() > 0 {
        assert(all_digits(s.drop_last()));
        lemma_digits_value_nonneg(s.drop_last());
    }
}

/// Extending a digit string cannot shrink its value.
pub proof fn lemma_digits_value_prefix_le(s: Seq<u8>, i: int)
    requires
        all_digits(s),
        0 <= i <= s.len(),
    ensures
        digits_value(s.take(i)) <= digits_value(s),
    decreases s.len() - i,
{
    if i < s.len() {
        let t = s.take(i + 1);
        assert(all_digits(t));
        assert(t.drop_last() =~= s.take(i));
        lemma_digits_value_nonneg(s.take(i));
        assert(digits_value(t) == digits_value(s.take(i)) * 10 + (t.last() - 48));
        assert(digits_value(s.take(i)) * 10 >= digits_value(s.take(i)));
        lemma_digits_value_prefix_le(s, i + 1);
        assert(s.take(s.len() as int) =~= s);
    } else {
        assert(s.take(i) =~= s);
    }
}

/// Parses a token as an unsigned base-10 64-bit integer: the denoted value
/// where the token is a non-empty all-digit run that fits, `None` otherwise.
pub fn parse_u64(t: &[u8]) -> (r: Option<u64>)
    ensures
        r == spec_parse_u64(t@),
{
    let n = t.len();
    if n == 0 {
        return None;
    }
    let mut v: u64 = 0;
    let mut i: usize = 0;
    while i < n
        invariant
            0 <= i <= n,
            n == t@.len(),
            all_digits(t@.take(i as int)),
            v == digits_value(t@.take(i as int)),
        decreases n - i,
    {
        let b = t[i];
        if b < 48 || b > 57 {
            assert(!is_digit(t@[i as int]));
            assert(!all_digits(t@));
            return None;
        }
        let d = (b - 48) as u64;
        if v > (u64::MAX - d) / 10 {
            proof {
                let p = t@.take(i + 1);
                assert(all_digits(p));
                assert(p.drop_last() =~= t@.take(i as int));
                assert(digits_value(p) == v * 10 + d);
                assert(v * 10 + d > u64::MAX) by (nonlinear_arith)
                    requires
                        v > (u64::MAX - d) / 10,
                        0 <= d <= 9,
                {}
                if all_digits(t@) {
                    lemma_digits_value_prefix_le(t@, i + 1);
                    assert(digits_value(t@) > u64::MAX);
                }
            }
            return None;
        }
        proof {
            assert(v * 10 + d <= u64::MAX) by (nonlinear_arith)
                requires
                    v <= (u64::MAX - d) / 10,
                    0 <= d <= 9,
                    v >= 0,
            {}
            let p = t@.take(i + 1);
            assert(all_digits(p));
            assert(p.drop_last() =~= t@.take(i as int));
            assert(digits_value(p) == v * 10 + d);
        }
        v = v * 10 + d;
        i += 1;
    }
    assert(t@.take(n as int) =~= t@);
    Some(v)
}

/// Pulls the next token of the splitter and parses it, naming the logical
/// field in the error when no token is pending or parsing fails. The token
/// is consumed either way.
pub fn read_safe(splitter: &mut BufReadSplitter, field: Field) -> (r: Result<u64, SolveError>)
    ensures
        ({
            let toks = spec_tokens(old(splitter)@);
            match r {
                Ok(v) => toks.len() > 0 && spec_parse_u64(toks[0]) == Some(v)
                    && spec_tokens(final(splitter)@) == toks.skip(1),
                Err(e) => (e == SolveError::EndOfInput(field) && toks.len() == 0)
                    || (e == SolveError::Malformed(field) && toks.len() > 0
                        && spec_parse_u64(toks[0]) is None
                        && spec_tokens(final(splitter)@) == toks.skip(1)),
            }
        }),
{
    let ghost toks = spec_tokens(old(splitter)@);
    match splitter.next() {
        None => Err(SolveError::EndOfInput(field)),
        Some(t) => {
            proof {
                assert(toks[0] == t@);
                assert(spec_tokens(splitter@) =~= toks.skip(1));
            }
            match parse_u64(t.as_slice()) {
                Some(v) => Ok(v),
                None => Err(SolveError::Malformed(field)),
            }
        },
    }
}

} // verus!
