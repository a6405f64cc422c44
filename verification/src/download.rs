//! The computations of the single-file download mode: rate-limit
//! parsing, chunk sizing and inter-chunk delays.  The streaming itself
//! is I/O and lives with the surrounding application.

use vstd::prelude::*;
use crate::strings::to_chars;

verus! {

/// The numeric value of a decimal digit, or 10 for any other character.
pub open spec fn digit_val(c: char) -> int {
    match c {
        '0' => 0,
        '1' => 1,
        '2' => 2,
        '3' => 3,
        '4' => 4,
        '5' => 5,
        '6' => 6,
        '7' => 7,
        '8' => 8,
        '9' => 9,
        _ => 10,
    }
}

pub open spec fn is_digit(c: char) -> bool {
    digit_val(c) < 10
}

/// The value of a digit string read in base ten.
pub open spec fn digits_val(s: Seq<char>) -> int
    decreases s.len(),
{
    if s.len() == 0 {
        0
    } else {
        digits_val(s.drop_last()) * 10 + digit_val(s.last())
    }
}

/// A non-empty, all-digit string.
pub open spec fn all_digits(s: Seq<char>) -> bool {
    s.len() > 0 && forall|i: int| 0 <= i < s.len() ==> is_digit(#[trigger] s[i])
}

/// The byte multiplier of a rate-limit unit letter, or 0 for an invalid
/// one.
pub open spec fn rate_mult(u: char) -> int {
    if u == 'k' || u == 'K' {
        1024
    } else if u == 'm' || u == 'M' {
        1048576
    } else {
        0
    }
}

/// The number part of a rate limit parses to a machine integer.
pub open spec fn rate_num_ok(s: Seq<char>) -> bool {
    all_digits(s.drop_last()) && digits_val(s.drop_last()) <= u64::MAX
}

/// A well-formed rate limit: digits, a valid unit, and a product in
/// range.
pub open spec fn rate_valid(s: Seq<char>) -> bool {
    &&& s.len() > 0
    &&& rate_num_ok(s)
    &&& rate_mult(s.last()) > 0
    &&& digits_val(s.drop_last()) * rate_mult(s.last()) <= u64::MAX
}

/// The bytes-per-second value of a well-formed rate limit.
pub open spec fn rate_value(s: Seq<char>) -> int {
    digits_val(s.drop_last()) * rate_mult(s.last())
}

proof fn lemma_digits_val_nonneg(s: Seq<char>)
    ensures
        digits_val(s) >= 0,
    decreases s.len(),
{
    if s.len() > 0 {
        lemma_digits_val_nonneg(s.drop_last());
    }
}

/// Parse the digit prefix of a rate limit.
fn parse_digits(num: &Vec<char>) -> (r: Option<u64>)
    ensures
        match r {
            Some(v) => all_digits(num@) && v == digits_val(num@),
            None => !(all_digits(num@) && digits_val(num@) <= u64::MAX),
        },
{
    if num.len() == 0 {
        return None;
    }
    let mut acc: u64 = 0;
    let mut i: usize = 0;
    while i < num.len()
        invariant
            i <= num@.len(),
            num@.len() > 0,
            acc == digits_val(num@.take(i as int)),
            forall|j: int| 0 <= j < i ==> is_digit(#[trigger] num@[j]),
        decreases num@.len() - i,
    {
        let c = num[i];
        let d: u64 = match c {
            '0' => 0,
            '1' => 1,
            '2' => 2,
            '3' => 3,
            '4' => 4,
            '5' => 5,
            '6' => 6,
            '7' => 7,
            '8' => 8,
            '9' => 9,
            _ => 10,
        };
        if d == 10 {
            proof {
                assert(!is_digit(num@[i as int]));
            }
            return None;
        }
        if !(acc < 1844674407370955161 || (acc == 1844674407370955161 && d <= 5)) {
            proof {
                assert(digits_val(num@.take(i as int + 1)) > u64::MAX) by {
                    assert(num@.take(i as int + 1).drop_last() =~= num@.take(i as int));
                    assert(num@.take(i as int + 1).last() == num@[i as int]);
                }
                lemma_digits_val_grows(num@, i as int + 1);
            }
            return None;
        }
        proof {
            assert(num@.take(i as int + 1).drop_last() =~= num@.take(i as int));
            assert(num@.take(i as int + 1).last() == num@[i as int]);
        }
        acc = acc * 10 + d;
        i = i + 1;
    }
    proof {
        assert(num@.take(num@.len() as int) =~= num@);
    }
    Some(acc)
}

/// A digit string is worth at least any of its prefixes.
proof fn lemma_digits_val_grows(s: Seq<char>, k: int)
    requires
        0 <= k <= s.len(),
    ensures
        digits_val(s.take(k)) <= digits_val(s),
    decreases s.len() - k,
{
    if k < s.len() {
        lemma_digits_val_grows(s, k + 1);
        lemma_digits_val_nonneg(s.take(k));
        assert(s.take(k + 1).drop_last() =~= s.take(k));
        assert(digits_val(s.take(k + 1)) == digits_val(s.take(k)) * 10 + digit_val(s[k]));
        assert(digit_val(s[k]) >= 0);
    } else {
        assert(s.take(k) =~= s);
    }
}

/// Parse a rate limit of the form `<integer><k|K|m|M>` into bytes per
/// second.  Returns `Ok` exactly on well-formed limits whose value fits
/// a machine integer; the error names what was wrong.
pub fn parse_rate_limit(rate_limit: &str) -> (r: Result<u64, String>)
    ensures
        r is Ok <==> rate_valid(rate_limit@),
        r matches Ok(v) ==> v == rate_value(rate_limit@),
        rate_limit@.len() == 0 ==> (r matches Err(e) && e@ == "Invalid rate limit format"@),
        rate_limit@.len() > 0 && !rate_num_ok(rate_limit@) ==> (r matches Err(e) && e@
            == "Invalid number in rate limit"@),
        rate_limit@.len() > 0 && rate_num_ok(rate_limit@) && rate_mult(rate_limit@.last()) == 0
            ==> (r matches Err(e) && e@ == "Invalid unit in rate limit, use 'k' or 'M'"@),
        rate_limit@.len() > 0 && rate_num_ok(rate_limit@) && rate_mult(rate_limit@.last()) > 0
            && !rate_valid(rate_limit@) ==> (r matches Err(e) && e@
            == "Invalid number in rate limit"@),
{
    let chars = to_chars(rate_limit);
    if chars.len() == 0 {
        return Err("Invalid rate limit format".to_owned());
    }
    let unit = chars[chars.len() - 1];
    let mut num: Vec<char> = Vec::new();
    let mut i: usize = 0;
    while i < chars.len() - 1
        invariant
            chars@.len() > 0,
            i <= chars@.len() - 1,
            num@ == chars@.take(i as int),
        decreases chars@.len() - 1 - i,
    {
        num.push(chars[i]);
        i = i + 1;
        assert(num@ =~= chars@.take(i as int));
    }
    proof {
        assert(num@ =~= chars@.drop_last());
        assert(unit == chars@.last());
    }
    let value = match parse_digits(&num) {
        Some(v) => v,
        None => {
            return Err("Invalid number in rate limit".to_owned());
        },
    };
    if unit == 'k' || unit == 'K' {
        if value <= 18014398509481983 {
            Ok(value * 1024)
        } else {
            Err("Invalid number in rate limit".to_owned())
        }
    } else if unit == 'm' || unit == 'M' {
        if value <= 17592186044415 {
            Ok(value * 1048576)
        } else {
            Err("Invalid number in rate limit".to_owned())
        }
    } else {
        Err("Invalid unit in rate limit, use 'k' or 'M'".to_owned())
    }
}

/// The size of the next fixed-size download chunk.
pub fn next_chunk_size(remaining: u64) -> (r: u64)
    ensures
        r == if remaining < 8192 {
            remaining as int
        } else {
            8192int
        },
{
    if remaining < 8192 {
        remaining
    } else {
        8192
    }
}

/// How long to sleep after writing a chunk so that the transfer stays
/// under the configured rate, in milliseconds.
pub fn chunk_delay_ms(chunk_size: u64, rate_limit: u64) -> (r: u64)
    requires
        rate_limit > 0,
        chunk_size <= 0xffff_ffff_ffff_ffffint / 1500,
    ensures
        r == chunk_size as int * 1500 / rate_limit as int,
{
    chunk_size * 1500 / rate_limit
}

} // verus!
