//! Release dates. Tracks carry partial ISO dates (`YYYY`, `YYYY-MM`,
//! `YYYY-MM-DD`, or empty); `parse_date` pads well-formed partial dates to
//! a full date so that plain lexicographic comparison orders them
//! correctly, sends empty or unparseable dates to the earliest possible
//! date, and `parse_date_value` turns a date into a day number for
//! chronological comparison in the version matcher.

use vstd::prelude::*;
use chrono::Datelike;
use crate::strutil::chars_vec;

verus! {

/// Whether a character is an ASCII decimal digit.
pub open spec fn is_ascii_digit(c: char) -> bool {
    48 <= c as u32 <= 57
}

/// Whether every character of `s` is an ASCII decimal digit.
pub open spec fn all_digits(s: Seq<char>) -> bool {
    forall|i: int| 0 <= i < s.len() ==> is_ascii_digit(#[trigger] s[i])
}

/// The value of a two-digit group.
pub open spec fn two_digit_val(a: char, b: char) -> int {
    (a as u32 - 48) * 10 + (b as u32 - 48)
}

/// Whether `s` is a well-formed partial ISO date: a four-digit year,
/// optionally a month of 01 to 12, optionally a day of 01 to 31, separated
/// by dashes.
pub open spec fn spec_valid_date(s: Seq<char>) -> bool {
    ||| (s.len() == 4 && all_digits(s))
    ||| (s.len() == 7 && all_digits(s.take(4)) && s[4] == '-' && all_digits(s.skip(5)) && 1
        <= two_digit_val(s[5], s[6]) <= 12)
    ||| (s.len() == 10 && all_digits(s.take(4)) && s[4] == '-' && all_digits(s.subrange(5, 7))
        && s[7] == '-' && all_digits(s.skip(8)) && 1 <= two_digit_val(s[5], s[6]) <= 12 && 1
        <= two_digit_val(s[8], s[9]) <= 31)
}

/// A release date in comparable form: a well-formed partial date padded to
/// the full `YYYY-MM-DD` shape with month and day defaulting to `01`; an
/// empty or unparseable date becomes the earliest possible date.
pub open spec fn spec_parse_date(s: Seq<char>) -> Seq<char> {
    if !spec_valid_date(s) {
        "0000-01-01"@
    } else if s.len() == 4 {
        s + "-01-01"@
    } else if s.len() == 7 {
        s + "-01"@
    } else {
        s
    }
}

fn is_digit_char(c: char) -> (r: bool)
    ensures
        r == is_ascii_digit(c),
{
    let u = c as u32;
    48 <= u && u <= 57
}

fn digits_in_range(v: &Vec<char>, from: usize, to: usize) -> (r: bool)
    requires
        from <= to <= v@.len(),
    ensures
        r == all_digits(v@.subrange(from as int, to as int)),
{
    let mut i: usize = from;
    while i < to
        invariant
            from <= i <= to <= v@.len(),
            forall|j: int| from <= j < i ==> is_ascii_digit(#[trigger] v@[j]),
        decreases to - i,
    {
        if !is_digit_char(v[i]) {
            proof {
                assert(v@.subrange(from as int, to as int)[i - from] == v@[i as int]);
            }
            return false;
        }
        i = i + 1;
    }
    proof {
        assert forall|j: int|
            0 <= j < v@.subrange(from as int, to as int).len() implies is_ascii_digit(
            #[trigger] v@.subrange(from as int, to as int)[j],
        ) by {
            assert(v@.subrange(from as int, to as int)[j] == v@[j + from]);
        }
    }
    true
}

fn two_digit_pair(a: char, b: char) -> (r: u32)
    requires
        is_ascii_digit(a),
        is_ascii_digit(b),
    ensures
        r == two_digit_val(a, b),
{
    (a as u32 - 48) * 10 + (b as u32 - 48)
}

/// Pad a release date for comparison: `YYYY` becomes `YYYY-01-01` and
/// `YYYY-MM` becomes `YYYY-MM-01`; an empty or unparseable date sorts as
/// the earliest possible date.
pub fn parse_date(date: &str) -> (r: String)
    ensures
        r@ == spec_parse_date(date@),
{
    let v = chars_vec(date);
    let n = v.len();
    if n == 4 {
        proof {
            assert(v@.subrange(0, 4) =~= v@);
        }
        if digits_in_range(&v, 0, 4) {
            let mut r = date.to_owned();
            r.append("-01-01");
            return r;
        }
    } else if n == 7 {
        proof {
            assert(v@.subrange(0, 4) =~= v@.take(4));
            assert(v@.subrange(5, 7) =~= v@.skip(5));
        }
        if digits_in_range(&v, 0, 4) && v[4] == '-' && digits_in_range(&v, 5, 7) {
            proof {
                assert(v@.subrange(5, 7)[0] == v@[5]);
                assert(v@.subrange(5, 7)[1] == v@[6]);
            }
            let month = two_digit_pair(v[5], v[6]);
            if 1 <= month && month <= 12 {
                let mut r = date.to_owned();
                r.append("-01");
                return r;
            }
        }
    } else if n == 10 {
        proof {
            assert(v@.subrange(0, 4) =~= v@.take(4));
            assert(v@.subrange(8, 10) =~= v@.skip(8));
        }
        if digits_in_range(&v, 0, 4) && v[4] == '-' && digits_in_range(&v, 5, 7) && v[7] == '-'
            && digits_in_range(&v, 8, 10) {
            proof {
                assert(v@.subrange(5, 7)[0] == v@[5]);
                assert(v@.subrange(5, 7)[1] == v@[6]);
                assert(v@.subrange(8, 10)[0] == v@[8]);
                assert(v@.subrange(8, 10)[1] == v@[9]);
            }
            let month = two_digit_pair(v[5], v[6]);
            let day = two_digit_pair(v[8], v[9]);
            if 1 <= month && month <= 12 && 1 <= day && day <= 31 {
                return date.to_owned();
            }
        }
    }
    proof {
        assert(!spec_valid_date(date@));
    }
    String::from_str("0000-01-01")
}

/// The day number that the calendar gives to a padded date string; equal
/// strings give equal numbers, and the numbers order dates chronologically.
pub uninterp spec fn date_value_of(s: Seq<char>) -> i64;

/// Relies on chrono::NaiveDate::parse_from_str and Datelike::num_days_from_ce:
/// parses a `YYYY-MM-DD` string (falling back to the default date when it does
/// not parse) and returns its day count from the calendar's epoch, which is
/// monotone in the date; the result depends on the string alone.
#[verifier::external_body]
fn date_value(s: &str) -> (r: i64)
    ensures
        r == date_value_of(s@),
{
    let d = chrono::NaiveDate::parse_from_str(s, "%Y-%m-%d").unwrap_or_default();
    d.num_days_from_ce() as i64
}

/// The chronological value of a (possibly partial) release date: the padded
/// date's day number.
pub fn parse_date_value(date: &str) -> (r: i64)
    ensures
        r == date_value_of(spec_parse_date(date@)),
{
    let padded = parse_date(date);
    date_value(padded.as_str())
}

} // verus!
