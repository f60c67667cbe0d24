//! The start-date field: a calendar timestamp at millisecond precision with
//! the fixed text form `YYYY-MM-DD HH:MM:SS.fff`, where the input may carry
//! one to nine fractional digits (a decimal fraction of a second, cut to
//! milliseconds) and the output always carries three.

use vstd::prelude::*;

use crate::text::{
    all_digits, check_digits, digits_val, is_digit_char, lemma_digits_val_bounds,
    lemma_num_str_shape, lemma_num_str_val, lemma_pow10_table, num_str, pow10, push_num, read_num,
};

verus! {

/// A timestamp with millisecond precision, held as plain calendar fields.
#[derive(Clone, Copy, PartialEq, Eq, Structural, Debug)]
pub struct StartDate {
    pub year: u32,
    pub month: u32,
    pub day: u32,
    pub hour: u32,
    pub minute: u32,
    pub second: u32,
    pub millisecond: u32,
}

pub open spec fn is_leap_year(y: int) -> bool {
    (y % 4 == 0 && y % 100 != 0) || y % 400 == 0
}

pub open spec fn days_in_month(y: int, m: int) -> int {
    if m == 2 {
        if is_leap_year(y) {
            29
        } else {
            28
        }
    } else if m == 4 || m == 6 || m == 9 || m == 11 {
        30
    } else {
        31
    }
}

/// A well-formed calendar timestamp.
pub open spec fn date_valid(d: StartDate) -> bool {
    &&& d.year <= 9999
    &&& 1 <= d.month <= 12
    &&& 1 <= d.day <= days_in_month(d.year as int, d.month as int)
    &&& d.hour <= 23
    &&& d.minute <= 59
    &&& d.second <= 59
    &&& d.millisecond <= 999
}

/// Whether the characters of `s` follow the fixed date pattern, with one to
/// nine fractional digits.
pub open spec fn date_text_shape(s: Seq<char>) -> bool {
    &&& 21 <= s.len() <= 29
    &&& all_digits(s.subrange(0, 4))
    &&& s[4] == '-'
    &&& all_digits(s.subrange(5, 7))
    &&& s[7] == '-'
    &&& all_digits(s.subrange(8, 10))
    &&& s[10] == ' '
    &&& all_digits(s.subrange(11, 13))
    &&& s[13] == ':'
    &&& all_digits(s.subrange(14, 16))
    &&& s[16] == ':'
    &&& all_digits(s.subrange(17, 19))
    &&& s[19] == '.'
    &&& all_digits(s.subrange(20, s.len() as int))
}

/// The milliseconds named by a fractional-second digit string: the fraction
/// is read as a decimal fraction of one second and cut to three digits.
pub open spec fn frac_millis(f: Seq<char>) -> int {
    if f.len() >= 3 {
        digits_val(f.subrange(0, 3))
    } else {
        digits_val(f) * pow10((3 - f.len()) as nat)
    }
}

/// The timestamp named by a date text of the right shape.
pub open spec fn date_of_text(s: Seq<char>) -> StartDate {
    StartDate {
        year: digits_val(s.subrange(0, 4)) as u32,
        month: digits_val(s.subrange(5, 7)) as u32,
        day: digits_val(s.subrange(8, 10)) as u32,
        hour: digits_val(s.subrange(11, 13)) as u32,
        minute: digits_val(s.subrange(14, 16)) as u32,
        second: digits_val(s.subrange(17, 19)) as u32,
        millisecond: frac_millis(s.subrange(20, s.len() as int)) as u32,
    }
}

/// Parsing a date text: the timestamp when the text has the fixed shape and
/// names a valid calendar date, and nothing otherwise.
pub open spec fn date_parse(s: Seq<char>) -> Option<StartDate> {
    if date_text_shape(s) && date_valid(date_of_text(s)) {
        Some(date_of_text(s))
    } else {
        None
    }
}

/// The canonical text of a timestamp: three fractional digits.
pub open spec fn date_format(d: StartDate) -> Seq<char> {
    num_str(d.year as int, 4) + seq!['-'] + num_str(d.month as int, 2) + seq!['-'] + num_str(
        d.day as int,
        2,
    ) + seq![' '] + num_str(d.hour as int, 2) + seq![':'] + num_str(d.minute as int, 2) + seq![':']
        + num_str(d.second as int, 2) + seq!['.'] + num_str(d.millisecond as int, 3)
}

/// Ascending order on timestamps: the calendar fields compared most
/// significant first.
pub open spec fn date_le_spec(a: StartDate, b: StartDate) -> bool {
    if a.year != b.year {
        a.year < b.year
    } else if a.month != b.month {
        a.month < b.month
    } else if a.day != b.day {
        a.day < b.day
    } else if a.hour != b.hour {
        a.hour < b.hour
    } else if a.minute != b.minute {
        a.minute < b.minute
    } else if a.second != b.second {
        a.second < b.second
    } else {
        a.millisecond <= b.millisecond
    }
}

pub proof fn lemma_date_le_total(a: StartDate, b: StartDate)
    ensures
        date_le_spec(a, b) || date_le_spec(b, a),
        date_le_spec(a, b) && date_le_spec(b, a) ==> a == b,
{
}

pub proof fn lemma_date_le_trans(a: StartDate, b: StartDate, c: StartDate)
    requires
        date_le_spec(a, b),
        date_le_spec(b, c),
    ensures
        date_le_spec(a, c),
{
}

impl StartDate {
    /// Whether `self` comes no later than `other`.
    pub fn le(&self, other: &StartDate) -> (r: bool)
        ensures
            r == date_le_spec(*self, *other),
    {
        if self.year != other.year {
            self.year < other.year
        } else if self.month != other.month {
            self.month < other.month
        } else if self.day != other.day {
            self.day < other.day
        } else if self.hour != other.hour {
            self.hour < other.hour
        } else if self.minute != other.minute {
            self.minute < other.minute
        } else if self.second != other.second {
            self.second < other.second
        } else {
            self.millisecond <= other.millisecond
        }
    }
}

/// The days of the month in a year.
pub fn days_in_month_exec(y: u32, m: u32) -> (r: u32)
    ensures
        r == days_in_month(y as int, m as int),
{
    if m == 2 {
        if (y % 4 == 0 && y % 100 != 0) || y % 400 == 0 {
            29
        } else {
            28
        }
    } else if m == 4 || m == 6 || m == 9 || m == 11 {
        30
    } else {
        31
    }
}

/// Parse a date text into a timestamp; nothing when the text does not have
/// the fixed shape or names no valid calendar date.
pub fn parse_start_date(s: &str) -> (r: Option<StartDate>)
    ensures
        r == date_parse(s@),
{
    let len = s.unicode_len();
    if len < 21 || len > 29 {
        return None;
    }
    if !(s.get_char(4) == '-' && s.get_char(7) == '-' && s.get_char(10) == ' ' && s.get_char(13)
        == ':' && s.get_char(16) == ':' && s.get_char(19) == '.') {
        return None;
    }
    if !check_digits(s, 0, 4) || !check_digits(s, 5, 7) || !check_digits(s, 8, 10)
        || !check_digits(s, 11, 13) || !check_digits(s, 14, 16) || !check_digits(s, 17, 19)
        || !check_digits(s, 20, len) {
        return None;
    }
    let year = read_num(s, 0, 4);
    let month = read_num(s, 5, 7);
    let day = read_num(s, 8, 10);
    let hour = read_num(s, 11, 13);
    let minute = read_num(s, 14, 16);
    let second = read_num(s, 17, 19);
    let flen = len - 20;
    let millisecond: u32 = if flen >= 3 {
        let r = read_num(s, 20, 23);
        proof {
            assert(s@.subrange(20, s@.len() as int).subrange(0, 3) =~= s@.subrange(20, 23));
            assert(all_digits(s@.subrange(20, 23)));
            lemma_digits_val_bounds(s@.subrange(20, 23));
            lemma_pow10_table();
        }
        r
    } else {
        let v = read_num(s, 20, len);
        proof {
            assert(s@.subrange(20, s@.len() as int) =~= s@.subrange(20, len as int));
            lemma_digits_val_bounds(s@.subrange(20, len as int));
            lemma_pow10_table();
        }
        if flen == 1 {
            v * 100
        } else {
            v * 10
        }
    };
    let d = StartDate { year, month, day, hour, minute, second, millisecond };
    proof {
        assert(date_text_shape(s@));
        assert(d == date_of_text(s@));
        lemma_digits_val_bounds(s@.subrange(0, 4));
        lemma_digits_val_bounds(s@.subrange(5, 7));
        lemma_digits_val_bounds(s@.subrange(8, 10));
        lemma_digits_val_bounds(s@.subrange(11, 13));
        lemma_digits_val_bounds(s@.subrange(14, 16));
        lemma_digits_val_bounds(s@.subrange(17, 19));
        lemma_pow10_table();
    }
    if month < 1 || month > 12 {
        return None;
    }
    if day < 1 || day > days_in_month_exec(year, month) {
        return None;
    }
    if hour > 23 || minute > 59 || second > 59 {
        return None;
    }
    proof {
        assert(date_valid(d));
    }
    Some(d)
}

/// Append the canonical text of a timestamp.
pub fn push_date(out: &mut String, d: &StartDate)
    ensures
        final(out)@ == old(out)@ + date_format(*d),
{
    push_num(out, d.year as u64, 4);
    out.append("-");
    push_num(out, d.month as u64, 2);
    out.append("-");
    push_num(out, d.day as u64, 2);
    out.append(" ");
    push_num(out, d.hour as u64, 2);
    out.append(":");
    push_num(out, d.minute as u64, 2);
    out.append(":");
    push_num(out, d.second as u64, 2);
    out.append(".");
    push_num(out, d.millisecond as u64, 3);
    proof {
        reveal_strlit("-");
        reveal_strlit(" ");
        reveal_strlit(":");
        reveal_strlit(".");
        assert("-"@ =~= seq!['-']);
        assert(" "@ =~= seq![' ']);
        assert(":"@ =~= seq![':']);
        assert("."@ =~= seq!['.']);
        assert(final(out)@ =~= old(out)@ + date_format(*d));
    }
}

/// Round trip: the canonical text of a valid timestamp parses back to the
/// same timestamp.
pub proof fn lemma_date_round_trip(d: StartDate)
    requires
        date_valid(d),
    ensures
        date_parse(date_format(d)) == Some(d),
{
    let s = date_format(d);
    lemma_pow10_table();
    lemma_num_str_shape(d.year as int, 4);
    lemma_num_str_shape(d.month as int, 2);
    lemma_num_str_shape(d.day as int, 2);
    lemma_num_str_shape(d.hour as int, 2);
    lemma_num_str_shape(d.minute as int, 2);
    lemma_num_str_shape(d.second as int, 2);
    lemma_num_str_shape(d.millisecond as int, 3);
    lemma_num_str_val(d.year as int, 4);
    lemma_num_str_val(d.month as int, 2);
    lemma_num_str_val(d.day as int, 2);
    lemma_num_str_val(d.hour as int, 2);
    lemma_num_str_val(d.minute as int, 2);
    lemma_num_str_val(d.second as int, 2);
    lemma_num_str_val(d.millisecond as int, 3);
    assert(s.len() == 23);
    assert(s.subrange(0, 4) =~= num_str(d.year as int, 4));
    assert(s.subrange(5, 7) =~= num_str(d.month as int, 2));
    assert(s.subrange(8, 10) =~= num_str(d.day as int, 2));
    assert(s.subrange(11, 13) =~= num_str(d.hour as int, 2));
    assert(s.subrange(14, 16) =~= num_str(d.minute as int, 2));
    assert(s.subrange(17, 19) =~= num_str(d.second as int, 2));
    assert(s.subrange(20, 23) =~= num_str(d.millisecond as int, 3));
    assert(date_text_shape(s));
    let f = s.subrange(20, s.len() as int);
    assert(f.subrange(0, 3) =~= s.subrange(20, 23));
    assert(frac_millis(f) == d.millisecond);
    assert(date_of_text(s) == d);
}

} // verus!
