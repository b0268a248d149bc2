//! Calendar dates and timestamps: validity, ordering, and the two fixed
//! textual formats that the pipeline reads (listing pages and record
//! timestamps).

use vstd::prelude::*;

verus! {

/// A calendar date.
#[derive(Clone, Copy, PartialEq, Eq, Structural, Debug)]
pub struct SimpleDate {
    pub year: u32,
    pub month: u8,
    pub day: u8,
}

/// A calendar date with a time of day.
#[derive(Clone, Copy, PartialEq, Eq, Structural, Debug)]
pub struct Timestamp {
    pub date: SimpleDate,
    pub hour: u8,
    pub minute: u8,
    pub second: u8,
}

pub open spec fn leap_year(y: int) -> bool {
    (y % 4 == 0 && y % 100 != 0) || y % 400 == 0
}

pub open spec fn days_in_month(y: int, m: int) -> int {
    if m == 2 {
        if leap_year(y) {
            29
        } else {
            28
        }
    } else if m == 4 || m == 6 || m == 9 || m == 11 {
        30
    } else {
        31
    }
}

pub open spec fn date_valid(d: SimpleDate) -> bool {
    &&& 1 <= d.month <= 12
    &&& 1 <= d.day <= days_in_month(d.year as int, d.month as int)
}

pub open spec fn ts_valid(t: Timestamp) -> bool {
    &&& date_valid(t.date)
    &&& t.hour < 24
    &&& t.minute < 60
    &&& t.second < 60
}

/// `a` denotes a strictly later calendar day than `b`.
pub open spec fn spec_date_after(a: SimpleDate, b: SimpleDate) -> bool {
    ||| a.year > b.year
    ||| (a.year == b.year && a.month > b.month)
    ||| (a.year == b.year && a.month == b.month && a.day > b.day)
}

/// `a` denotes a strictly later instant than `b`.
pub open spec fn spec_ts_after(a: Timestamp, b: Timestamp) -> bool {
    ||| spec_date_after(a.date, b.date)
    ||| (a.date == b.date && a.hour > b.hour)
    ||| (a.date == b.date && a.hour == b.hour && a.minute > b.minute)
    ||| (a.date == b.date && a.hour == b.hour && a.minute == b.minute && a.second > b.second)
}

/// Is `to_check` strictly after `reference`?
pub fn date_is_after(to_check: SimpleDate, reference: SimpleDate) -> (r: bool)
    ensures
        r == spec_date_after(to_check, reference),
{
    if to_check.year != reference.year {
        to_check.year > reference.year
    } else if to_check.month != reference.month {
        to_check.month > reference.month
    } else {
        to_check.day > reference.day
    }
}

/// Is `to_check` a strictly later instant than `reference`?
pub fn timestamp_is_after(to_check: Timestamp, reference: Timestamp) -> (r: bool)
    ensures
        r == spec_ts_after(to_check, reference),
{
    if date_is_after(to_check.date, reference.date) {
        true
    } else if date_is_after(reference.date, to_check.date) {
        false
    } else if to_check.hour != reference.hour {
        to_check.hour > reference.hour
    } else if to_check.minute != reference.minute {
        to_check.minute > reference.minute
    } else {
        to_check.second > reference.second
    }
}

/// Strictly-after is irreflexive: no date is after itself.
pub proof fn lemma_date_after_irreflexive(d: SimpleDate)
    ensures
        !spec_date_after(d, d),
{
}

/// Strictly-after orders any two distinct dates one way, and only one way.
pub proof fn lemma_date_after_asymmetric(d1: SimpleDate, d2: SimpleDate)
    ensures
        spec_date_after(d1, d2) ==> !spec_date_after(d2, d1),
        d1 != d2 ==> (spec_date_after(d1, d2) || spec_date_after(d2, d1)),
{
}

/// Strictly-after on timestamps is irreflexive.
pub proof fn lemma_ts_after_irreflexive(t: Timestamp)
    ensures
        !spec_ts_after(t, t),
{
}

/// Strictly-after orders any two distinct timestamps one way, and only one way.
pub proof fn lemma_ts_after_asymmetric(t1: Timestamp, t2: Timestamp)
    ensures
        spec_ts_after(t1, t2) ==> !spec_ts_after(t2, t1),
        t1 != t2 ==> (spec_ts_after(t1, t2) || spec_ts_after(t2, t1)),
{
}

/// Strictly-after is transitive.
pub proof fn lemma_ts_after_transitive(t1: Timestamp, t2: Timestamp, t3: Timestamp)
    ensures
        spec_ts_after(t1, t2) && spec_ts_after(t2, t3) ==> spec_ts_after(t1, t3),
{
}

pub open spec fn is_digit(c: char) -> bool {
    48 <= c as int <= 57
}

pub open spec fn digit_val(c: char) -> int {
    c as int - 48
}

pub open spec fn two_digits(s: Seq<char>, i: int) -> int {
    digit_val(s[i]) * 10 + digit_val(s[i + 1])
}

pub open spec fn four_digits(s: Seq<char>, i: int) -> int {
    digit_val(s[i]) * 1000 + digit_val(s[i + 1]) * 100 + digit_val(s[i + 2]) * 10 + digit_val(
        s[i + 3],
    )
}

/// The month number (1 to 12) named by the three-letter abbreviation at
/// position `i`, or 0 when the three characters name no month.
pub open spec fn month_abbrev_num(s: Seq<char>, i: int) -> int {
    if s[i] == 'J' && s[i + 1] == 'a' && s[i + 2] == 'n' {
        1
    } else if s[i] == 'F' && s[i + 1] == 'e' && s[i + 2] == 'b' {
        2
    } else if s[i] == 'M' && s[i + 1] == 'a' && s[i + 2] == 'r' {
        3
    } else if s[i] == 'A' && s[i + 1] == 'p' && s[i + 2] == 'r' {
        4
    } else if s[i] == 'M' && s[i + 1] == 'a' && s[i + 2] == 'y' {
        5
    } else if s[i] == 'J' && s[i + 1] == 'u' && s[i + 2] == 'n' {
        6
    } else if s[i] == 'J' && s[i + 1] == 'u' && s[i + 2] == 'l' {
        7
    } else if s[i] == 'A' && s[i + 1] == 'u' && s[i + 2] == 'g' {
        8
    } else if s[i] == 'S' && s[i + 1] == 'e' && s[i + 2] == 'p' {
        9
    } else if s[i] == 'O' && s[i + 1] == 'c' && s[i + 2] == 't' {
        10
    } else if s[i] == 'N' && s[i + 1] == 'o' && s[i + 2] == 'v' {
        11
    } else if s[i] == 'D' && s[i + 1] == 'e' && s[i + 2] == 'c' {
        12
    } else {
        0
    }
}

/// Shape of a listing-page timestamp, e.g. `2023-Oct-15 10:30:00`.
pub open spec fn listing_ts_shape(s: Seq<char>) -> bool {
    &&& s.len() == 20
    &&& is_digit(s[0]) && is_digit(s[1]) && is_digit(s[2]) && is_digit(s[3])
    &&& s[4] == '-'
    &&& month_abbrev_num(s, 5) != 0
    &&& s[8] == '-'
    &&& is_digit(s[9]) && is_digit(s[10])
    &&& s[11] == ' '
    &&& is_digit(s[12]) && is_digit(s[13])
    &&& s[14] == ':'
    &&& is_digit(s[15]) && is_digit(s[16])
    &&& s[17] == ':'
    &&& is_digit(s[18]) && is_digit(s[19])
}

pub open spec fn listing_ts_of(s: Seq<char>) -> Timestamp {
    Timestamp {
        date: SimpleDate {
            year: four_digits(s, 0) as u32,
            month: month_abbrev_num(s, 5) as u8,
            day: two_digits(s, 9) as u8,
        },
        hour: two_digits(s, 12) as u8,
        minute: two_digits(s, 15) as u8,
        second: two_digits(s, 18) as u8,
    }
}

/// The timestamp a listing-page cell denotes, if its text is well formed
/// and names a real instant.
pub open spec fn parse_listing_ts_spec(s: Seq<char>) -> Option<Timestamp> {
    if listing_ts_shape(s) && ts_valid(listing_ts_of(s)) {
        Some(listing_ts_of(s))
    } else {
        None
    }
}

/// Shape of a record timestamp, e.g. `2023-10-15T10:30:00Z`.
pub open spec fn iso_ts_shape(s: Seq<char>) -> bool {
    &&& s.len() == 20
    &&& is_digit(s[0]) && is_digit(s[1]) && is_digit(s[2]) && is_digit(s[3])
    &&& s[4] == '-'
    &&& is_digit(s[5]) && is_digit(s[6])
    &&& s[7] == '-'
    &&& is_digit(s[8]) && is_digit(s[9])
    &&& s[10] == 'T'
    &&& is_digit(s[11]) && is_digit(s[12])
    &&& s[13] == ':'
    &&& is_digit(s[14]) && is_digit(s[15])
    &&& s[16] == ':'
    &&& is_digit(s[17]) && is_digit(s[18])
    &&& s[19] == 'Z'
}

pub open spec fn iso_ts_of(s: Seq<char>) -> Timestamp {
    Timestamp {
        date: SimpleDate {
            year: four_digits(s, 0) as u32,
            month: two_digits(s, 5) as u8,
            day: two_digits(s, 8) as u8,
        },
        hour: two_digits(s, 11) as u8,
        minute: two_digits(s, 14) as u8,
        second: two_digits(s, 17) as u8,
    }
}

/// The timestamp a record field denotes, if its text is well formed and
/// names a real instant.
pub open spec fn parse_iso_ts_spec(s: Seq<char>) -> Option<Timestamp> {
    if iso_ts_shape(s) && ts_valid(iso_ts_of(s)) {
        Some(iso_ts_of(s))
    } else {
        None
    }
}

/// Reads one character and returns its digit value, or `None` when it is no
/// digit.
fn digit_at(s: &str, i: usize) -> (r: Option<u8>)
    requires
        i < s@.len(),
    ensures
        r is Some <==> is_digit(s@[i as int]),
        r is Some ==> r->0 == digit_val(s@[i as int]),
{
    let c = s.get_char(i);
    let v = c as u32;
    if 48 <= v && v <= 57 {
        Some((v - 48) as u8)
    } else {
        None
    }
}

/// Reads two consecutive digits as a number from 0 to 99.
fn two_digits_at(s: &str, i: usize) -> (r: Option<u8>)
    requires
        i + 1 < s@.len() <= usize::MAX,
    ensures
        r is Some <==> is_digit(s@[i as int]) && is_digit(s@[i + 1]),
        r is Some ==> r->0 == two_digits(s@, i as int),
{
    match (digit_at(s, i), digit_at(s, i + 1)) {
        (Some(a), Some(b)) => Some(a * 10 + b),
        _ => None,
    }
}

/// Reads four consecutive digits as a number from 0 to 9999.
fn four_digits_at(s: &str, i: usize) -> (r: Option<u32>)
    requires
        i + 3 < s@.len() <= usize::MAX,
    ensures
        r is Some <==> is_digit(s@[i as int]) && is_digit(s@[i + 1]) && is_digit(s@[i + 2])
            && is_digit(s@[i + 3]),
        r is Some ==> r->0 == four_digits(s@, i as int),
{
    match (digit_at(s, i), digit_at(s, i + 1), digit_at(s, i + 2), digit_at(s, i + 3)) {
        (Some(a), Some(b), Some(c), Some(d)) => Some(
            (a as u32) * 1000 + (b as u32) * 100 + (c as u32) * 10 + (d as u32),
        ),
        _ => None,
    }
}

/// Reads the three-letter month abbreviation at position `i`; 0 when the
/// letters name no month.
fn month_abbrev_at(s: &str, i: usize) -> (r: u8)
    requires
        i + 2 < s@.len() <= usize::MAX,
    ensures
        r == month_abbrev_num(s@, i as int),
{
    let a = s.get_char(i);
    let b = s.get_char(i + 1);
    let c = s.get_char(i + 2);
    if a == 'J' && b == 'a' && c == 'n' {
        1
    } else if a == 'F' && b == 'e' && c == 'b' {
        2
    } else if a == 'M' && b == 'a' && c == 'r' {
        3
    } else if a == 'A' && b == 'p' && c == 'r' {
        4
    } else if a == 'M' && b == 'a' && c == 'y' {
        5
    } else if a == 'J' && b == 'u' && c == 'n' {
        6
    } else if a == 'J' && b == 'u' && c == 'l' {
        7
    } else if a == 'A' && b == 'u' && c == 'g' {
        8
    } else if a == 'S' && b == 'e' && c == 'p' {
        9
    } else if a == 'O' && b == 'c' && c == 't' {
        10
    } else if a == 'N' && b == 'o' && c == 'v' {
        11
    } else if a == 'D' && b == 'e' && c == 'c' {
        12
    } else {
        0
    }
}

/// Checks that the timestamp's fields name a real instant.
fn check_ts_valid(t: Timestamp) -> (r: bool)
    ensures
        r == ts_valid(t),
{
    let dim: u8 = if t.date.month == 2 {
        if (t.date.year % 4 == 0 && t.date.year % 100 != 0) || t.date.year % 400 == 0 {
            29
        } else {
            28
        }
    } else if t.date.month == 4 || t.date.month == 6 || t.date.month == 9 || t.date.month == 11 {
        30
    } else {
        31
    };
    1 <= t.date.month && t.date.month <= 12 && 1 <= t.date.day && t.date.day <= dim && t.hour < 24
        && t.minute < 60 && t.second < 60
}

/// Parses a listing-page modification cell such as `2023-Oct-15 10:30:00`.
pub fn parse_listing_timestamp(s: &str) -> (r: Option<Timestamp>)
    ensures
        r == parse_listing_ts_spec(s@),
{
    if s.unicode_len() != 20 {
        return None;
    }
    let year = match four_digits_at(s, 0) {
        Some(y) => y,
        None => { return None; },
    };
    if s.get_char(4) != '-' {
        return None;
    }
    let month = month_abbrev_at(s, 5);
    if month == 0 {
        return None;
    }
    if s.get_char(8) != '-' {
        return None;
    }
    let day = match two_digits_at(s, 9) {
        Some(d) => d,
        None => { return None; },
    };
    if s.get_char(11) != ' ' {
        return None;
    }
    let hour = match two_digits_at(s, 12) {
        Some(h) => h,
        None => { return None; },
    };
    if s.get_char(14) != ':' {
        return None;
    }
    let minute = match two_digits_at(s, 15) {
        Some(m) => m,
        None => { return None; },
    };
    if s.get_char(17) != ':' {
        return None;
    }
    let second = match two_digits_at(s, 18) {
        Some(x) => x,
        None => { return None; },
    };
    let t = Timestamp {
        date: SimpleDate { year, month, day },
        hour,
        minute,
        second,
    };
    if check_ts_valid(t) {
        Some(t)
    } else {
        None
    }
}

/// Parses a record timestamp such as `2023-10-15T10:30:00Z`.
pub fn parse_iso_timestamp(s: &str) -> (r: Option<Timestamp>)
    ensures
        r == parse_iso_ts_spec(s@),
{
    if s.unicode_len() != 20 {
        return None;
    }
    let year = match four_digits_at(s, 0) {
        Some(y) => y,
        None => { return None; },
    };
    if s.get_char(4) != '-' {
        return None;
    }
    let month = match two_digits_at(s, 5) {
        Some(m) => m,
        None => { return None; },
    };
    if s.get_char(7) != '-' {
        return None;
    }
    let day = match two_digits_at(s, 8) {
        Some(d) => d,
        None => { return None; },
    };
    if s.get_char(10) != 'T' {
        return None;
    }
    let hour = match two_digits_at(s, 11) {
        Some(h) => h,
        None => { return None; },
    };
    if s.get_char(13) != ':' {
        return None;
    }
    let minute = match two_digits_at(s, 14) {
        Some(m) => m,
        None => { return None; },
    };
    if s.get_char(16) != ':' {
        return None;
    }
    let second = match two_digits_at(s, 17) {
        Some(x) => x,
        None => { return None; },
    };
    if s.get_char(19) != 'Z' {
        return None;
    }
    let t = Timestamp {
        date: SimpleDate { year, month, day },
        hour,
        minute,
        second,
    };
    if check_ts_valid(t) {
        Some(t)
    } else {
        None
    }
}

} // verus!
