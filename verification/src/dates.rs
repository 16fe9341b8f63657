//! Calendar values for the archive and streak engine. Dates carry plain
//! year, month and day numbers; stepping backward one day treats every
//! month as thirty days long, the approximation the streak algorithm is
//! specified with. Dates also render to the `YYYY-MM-DD` and `YYYY-MM`
//! keys used by the stats maps and the archive filenames.

use vstd::prelude::*;

use crate::text::chars_to_string;
use crate::text::digit_char;
use crate::text::is_digit;

verus! {

#[derive(PartialEq, Eq, Structural, Clone, Copy, Debug)]
pub struct Date {
    pub year: u32,
    pub month: u32,
    pub day: u32,
}

/// A date the engine can walk from: positive year up to four digits,
/// month and day in calendar range.
pub open spec fn date_valid(d: Date) -> bool {
    1 <= d.year <= 9999 && 1 <= d.month <= 12 && 1 <= d.day <= 31
}

pub fn check_date_valid(d: &Date) -> (r: bool)
    ensures
        r == date_valid(*d),
{
    1 <= d.year && d.year <= 9999 && 1 <= d.month && d.month <= 12 && 1 <= d.day && d.day <= 31
}

/// Orders dates chronologically as a single number.
pub open spec fn date_code(d: Date) -> int {
    d.year * 10000 + d.month * 100 + d.day
}

/// Orders months chronologically as a single number.
pub open spec fn month_code_of(d: Date) -> int {
    d.year * 100 + d.month
}

/// The previous day under the fixed thirty-day-month approximation.
pub open spec fn spec_prev_day(d: Date) -> Date {
    if d.day > 1 {
        Date { day: (d.day - 1) as u32, ..d }
    } else if d.month > 1 {
        Date { month: (d.month - 1) as u32, day: 30u32, ..d }
    } else {
        Date { year: (d.year - 1) as u32, month: 12u32, day: 30u32 }
    }
}

pub fn prev_day(d: &Date) -> (r: Date)
    requires
        date_valid(*d),
    ensures
        r == spec_prev_day(*d),
{
    if d.day > 1 {
        Date { year: d.year, month: d.month, day: d.day - 1 }
    } else if d.month > 1 {
        Date { year: d.year, month: d.month - 1, day: 30 }
    } else {
        Date { year: d.year - 1, month: 12, day: 30 }
    }
}

/// Stepping backward strictly decreases the date code and stays within
/// walking range as long as the year stays positive.
pub proof fn lemma_prev_day_code(d: Date)
    requires
        date_valid(d),
    ensures
        date_code(spec_prev_day(d)) < date_code(d),
        spec_prev_day(d).year >= 1 ==> date_valid(spec_prev_day(d)),
        date_code(spec_prev_day(d)) >= 0,
{
}

pub open spec fn digit_of(n: int) -> char {
    if n == 0 {
        '0'
    } else if n == 1 {
        '1'
    } else if n == 2 {
        '2'
    } else if n == 3 {
        '3'
    } else if n == 4 {
        '4'
    } else if n == 5 {
        '5'
    } else if n == 6 {
        '6'
    } else if n == 7 {
        '7'
    } else if n == 8 {
        '8'
    } else {
        '9'
    }
}

pub fn digit_to_char(n: u32) -> (r: char)
    requires
        n < 10,
    ensures
        r == digit_of(n as int),
{
    if n == 0 {
        '0'
    } else if n == 1 {
        '1'
    } else if n == 2 {
        '2'
    } else if n == 3 {
        '3'
    } else if n == 4 {
        '4'
    } else if n == 5 {
        '5'
    } else if n == 6 {
        '6'
    } else if n == 7 {
        '7'
    } else if n == 8 {
        '8'
    } else {
        '9'
    }
}

/// The numeric value of a decimal digit character.
pub open spec fn digit_val(c: char) -> int {
    c as int - '0' as int
}

pub fn digit_value(c: char) -> (r: u32)
    requires
        is_digit(c),
    ensures
        r == digit_val(c),
{
    c as u32 - '0' as u32
}

/// The shape of an ISO `YYYY-MM-DD` date: digits with dashes at the
/// fifth and eighth position.
pub open spec fn is_date10(s: Seq<char>) -> bool {
    &&& s.len() == 10
    &&& is_digit(s[0])
    &&& is_digit(s[1])
    &&& is_digit(s[2])
    &&& is_digit(s[3])
    &&& s[4] == '-'
    &&& is_digit(s[5])
    &&& is_digit(s[6])
    &&& s[7] == '-'
    &&& is_digit(s[8])
    &&& is_digit(s[9])
}

/// Checks the ISO date shape on ten characters of a slice.
pub fn date_shape(w: &[char], i: usize) -> (r: bool)
    requires
        i + 10 <= w@.len(),
    ensures
        r == is_date10(w@.subrange(i as int, i as int + 10)),
{
    let r = digit_char(w[i]) && digit_char(w[i + 1]) && digit_char(w[i + 2]) && digit_char(
        w[i + 3],
    ) && w[i + 4] == '-' && digit_char(w[i + 5]) && digit_char(w[i + 6]) && w[i + 7] == '-'
        && digit_char(w[i + 8]) && digit_char(w[i + 9]);
    proof {
        let s = w@.subrange(i as int, i as int + 10);
        assert(s.len() == 10);
        assert(forall|j: int| 0 <= j < 10 ==> s[j] == w@[i + j]);
    }
    r
}

/// The shape of a `YYYY-MM` month key.
pub open spec fn is_month7(s: Seq<char>) -> bool {
    &&& s.len() == 7
    &&& is_digit(s[0])
    &&& is_digit(s[1])
    &&& is_digit(s[2])
    &&& is_digit(s[3])
    &&& s[4] == '-'
    &&& is_digit(s[5])
    &&& is_digit(s[6])
}

/// Checks the month-key shape on seven characters of a slice.
pub fn month_shape(w: &[char], i: usize) -> (r: bool)
    requires
        i + 7 <= w@.len(),
    ensures
        r == is_month7(w@.subrange(i as int, i as int + 7)),
{
    let r = digit_char(w[i]) && digit_char(w[i + 1]) && digit_char(w[i + 2]) && digit_char(
        w[i + 3],
    ) && w[i + 4] == '-' && digit_char(w[i + 5]) && digit_char(w[i + 6]);
    proof {
        let s = w@.subrange(i as int, i as int + 7);
        assert(s.len() == 7);
        assert(forall|j: int| 0 <= j < 7 ==> s[j] == w@[i + j]);
    }
    r
}

/// The `YYYY-MM-DD` rendering of a date, zero-padded.
pub open spec fn spec_date_key(d: Date) -> Seq<char> {
    seq![
        digit_of(d.year as int / 1000 % 10),
        digit_of(d.year as int / 100 % 10),
        digit_of(d.year as int / 10 % 10),
        digit_of(d.year as int % 10),
        '-',
        digit_of(d.month as int / 10 % 10),
        digit_of(d.month as int % 10),
        '-',
        digit_of(d.day as int / 10 % 10),
        digit_of(d.day as int % 10),
    ]
}

/// The `YYYY-MM` rendering of a date's month, zero-padded.
pub open spec fn spec_month_key(d: Date) -> Seq<char> {
    seq![
        digit_of(d.year as int / 1000 % 10),
        digit_of(d.year as int / 100 % 10),
        digit_of(d.year as int / 10 % 10),
        digit_of(d.year as int % 10),
        '-',
        digit_of(d.month as int / 10 % 10),
        digit_of(d.month as int % 10),
    ]
}

pub proof fn lemma_digit_of_is_digit(n: int)
    requires
        0 <= n <= 9,
    ensures
        is_digit(digit_of(n)),
        digit_val(digit_of(n)) == n,
{
}

/// A rendered date key has the ISO date shape, and a rendered month key
/// the month-key shape.
pub proof fn lemma_date_key_shape(d: Date)
    ensures
        is_date10(spec_date_key(d)),
        is_month7(spec_month_key(d)),
{
    lemma_digit_of_is_digit(d.year as int / 1000 % 10);
    lemma_digit_of_is_digit(d.year as int / 100 % 10);
    lemma_digit_of_is_digit(d.year as int / 10 % 10);
    lemma_digit_of_is_digit(d.year as int % 10);
    lemma_digit_of_is_digit(d.month as int / 10 % 10);
    lemma_digit_of_is_digit(d.month as int % 10);
    lemma_digit_of_is_digit(d.day as int / 10 % 10);
    lemma_digit_of_is_digit(d.day as int % 10);
}

/// The characters of a date's day key, as a vector.
pub fn date_key_chars(d: &Date) -> (r: Vec<char>)
    requires
        date_valid(*d),
    ensures
        r@ == spec_date_key(*d),
{
    let mut r: Vec<char> = Vec::new();
    r.push(digit_to_char(d.year / 1000 % 10));
    r.push(digit_to_char(d.year / 100 % 10));
    r.push(digit_to_char(d.year / 10 % 10));
    r.push(digit_to_char(d.year % 10));
    r.push('-');
    r.push(digit_to_char(d.month / 10 % 10));
    r.push(digit_to_char(d.month % 10));
    r.push('-');
    r.push(digit_to_char(d.day / 10 % 10));
    r.push(digit_to_char(d.day % 10));
    proof {
        assert(r@ =~= spec_date_key(*d));
    }
    r
}

/// The `YYYY-MM-DD` key of a date, as a string.
pub fn date_key(d: &Date) -> (r: String)
    requires
        date_valid(*d),
    ensures
        r@ == spec_date_key(*d),
{
    let v = date_key_chars(d);
    chars_to_string(&v)
}

/// The `YYYY-MM` key of a date's month, as a string.
pub fn month_key(d: &Date) -> (r: String)
    requires
        date_valid(*d),
    ensures
        r@ == spec_month_key(*d),
{
    let mut r: Vec<char> = Vec::new();
    r.push(digit_to_char(d.year / 1000 % 10));
    r.push(digit_to_char(d.year / 100 % 10));
    r.push(digit_to_char(d.year / 10 % 10));
    r.push(digit_to_char(d.year % 10));
    r.push('-');
    r.push(digit_to_char(d.month / 10 % 10));
    r.push(digit_to_char(d.month % 10));
    proof {
        assert(r@ =~= spec_month_key(*d));
    }
    chars_to_string(&r)
}

/// The month number encoded by a `YYYY-MM` key.
pub open spec fn spec_month_val(s: Seq<char>) -> int {
    digit_val(s[0]) * 100000 + digit_val(s[1]) * 10000 + digit_val(s[2]) * 1000 + digit_val(s[3])
        * 100 + digit_val(s[5]) * 10 + digit_val(s[6])
}

/// Reads a `YYYY-MM` key back as a month number.
pub fn month_val(s: &[char]) -> (r: u32)
    requires
        is_month7(s@),
    ensures
        r == spec_month_val(s@),
{
    digit_value(s[0]) * 100000 + digit_value(s[1]) * 10000 + digit_value(s[2]) * 1000 + digit_value(
        s[3],
    ) * 100 + digit_value(s[5]) * 10 + digit_value(s[6])
}

} // verus!
