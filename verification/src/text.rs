//! The text forms of dates, times and decimal numbers, as the storage
//! file carries them: dates as `YYYY-MM-DD`, times as `HH:MM:SS`.

use vstd::prelude::*;
use crate::datetime::Date;
use crate::datetime::Time;
use crate::datetime::date_valid;
use crate::datetime::date_valid_exec;
use crate::datetime::time_valid;
use crate::datetime::time_valid_exec;

verus! {

/// The decimal digit character for a value from 0 to 9.
pub open spec fn digit_char(v: int) -> char {
    if v == 0 {
        '0'
    } else if v == 1 {
        '1'
    } else if v == 2 {
        '2'
    } else if v == 3 {
        '3'
    } else if v == 4 {
        '4'
    } else if v == 5 {
        '5'
    } else if v == 6 {
        '6'
    } else if v == 7 {
        '7'
    } else if v == 8 {
        '8'
    } else {
        '9'
    }
}

/// The value of a decimal digit character, or -1 when the character is
/// no digit.
pub open spec fn digit_val(c: char) -> int {
    if c == '0' {
        0
    } else if c == '1' {
        1
    } else if c == '2' {
        2
    } else if c == '3' {
        3
    } else if c == '4' {
        4
    } else if c == '5' {
        5
    } else if c == '6' {
        6
    } else if c == '7' {
        7
    } else if c == '8' {
        8
    } else if c == '9' {
        9
    } else {
        -1
    }
}

pub proof fn lemma_digit_char_val(v: int)
    requires
        0 <= v < 10,
    ensures
        digit_val(digit_char(v)) == v,
{
}

pub proof fn lemma_digit_val_char(c: char)
    requires
        digit_val(c) >= 0,
    ensures
        digit_char(digit_val(c)) == c,
{
}

/// A value below 100 as two digits, zero padded.
pub open spec fn pad2(v: int) -> Seq<char> {
    seq![digit_char(v / 10), digit_char(v % 10)]
}

/// A value below 10000 as four digits, zero padded.
pub open spec fn pad4(v: int) -> Seq<char> {
    seq![
        digit_char(v / 1000),
        digit_char(v / 100 % 10),
        digit_char(v / 10 % 10),
        digit_char(v % 10),
    ]
}

/// A date as the storage file writes it: `YYYY-MM-DD`.
pub open spec fn date_text(d: Date) -> Seq<char> {
    pad4(d.year as int) + seq!['-'] + pad2(d.month as int) + seq!['-'] + pad2(d.day as int)
}

/// A time as the storage file writes it: `HH:MM:SS`.
pub open spec fn time_text(t: Time) -> Seq<char> {
    pad2(t.hour as int) + seq![':'] + pad2(t.minute as int) + seq![':'] + pad2(t.second as int)
}

/// Each character of the date text, by position.
pub proof fn lemma_date_text_parts(d: Date)
    ensures
        date_text(d).len() == 10,
        date_text(d)[0] == digit_char(d.year as int / 1000),
        date_text(d)[1] == digit_char(d.year as int / 100 % 10),
        date_text(d)[2] == digit_char(d.year as int / 10 % 10),
        date_text(d)[3] == digit_char(d.year as int % 10),
        date_text(d)[4] == '-',
        date_text(d)[5] == digit_char(d.month as int / 10),
        date_text(d)[6] == digit_char(d.month as int % 10),
        date_text(d)[7] == '-',
        date_text(d)[8] == digit_char(d.day as int / 10),
        date_text(d)[9] == digit_char(d.day as int % 10),
{
}

/// Each character of the time text, by position.
pub proof fn lemma_time_text_parts(t: Time)
    ensures
        time_text(t).len() == 8,
        time_text(t)[0] == digit_char(t.hour as int / 10),
        time_text(t)[1] == digit_char(t.hour as int % 10),
        time_text(t)[2] == ':',
        time_text(t)[3] == digit_char(t.minute as int / 10),
        time_text(t)[4] == digit_char(t.minute as int % 10),
        time_text(t)[5] == ':',
        time_text(t)[6] == digit_char(t.second as int / 10),
        time_text(t)[7] == digit_char(t.second as int % 10),
{
}

/// A value below 10000 is its four digits put back together.
pub proof fn lemma_dec4(v: int)
    requires
        0 <= v < 10000,
    ensures
        v == (v / 1000) * 1000 + (v / 100 % 10) * 100 + (v / 10 % 10) * 10 + v % 10,
        0 <= v / 1000 < 10,
        0 <= v / 100 % 10 < 10,
        0 <= v / 10 % 10 < 10,
        0 <= v % 10 < 10,
{
    vstd::arithmetic::div_mod::lemma_fundamental_div_mod(v, 10);
    vstd::arithmetic::div_mod::lemma_mod_division_less_than_divisor(v, 10);
    vstd::arithmetic::div_mod::lemma_fundamental_div_mod(v / 10, 10);
    vstd::arithmetic::div_mod::lemma_mod_division_less_than_divisor(v / 10, 10);
    vstd::arithmetic::div_mod::lemma_div_denominator(v, 10, 10);
    vstd::arithmetic::div_mod::lemma_fundamental_div_mod(v / 100, 10);
    vstd::arithmetic::div_mod::lemma_mod_division_less_than_divisor(v / 100, 10);
    vstd::arithmetic::div_mod::lemma_div_denominator(v, 100, 10);
    assert((v / 10) / 10 == v / 100);
    assert((v / 100) / 10 == v / 1000);
}

/// A value below 100 is its two digits put back together.
pub proof fn lemma_dec2(v: int)
    requires
        0 <= v < 100,
    ensures
        v == (v / 10) * 10 + v % 10,
        0 <= v / 10 < 10,
        0 <= v % 10 < 10,
{
    vstd::arithmetic::div_mod::lemma_fundamental_div_mod(v, 10);
    vstd::arithmetic::div_mod::lemma_mod_division_less_than_divisor(v, 10);
}

/// A date text names its date: equal texts of valid four-digit-year
/// dates mean equal dates.
pub proof fn lemma_date_text_unique(d1: Date, d2: Date)
    requires
        date_valid(d1),
        0 <= d1.year <= 9999,
        date_valid(d2),
        0 <= d2.year <= 9999,
        date_text(d1) == date_text(d2),
    ensures
        d1 == d2,
{
    lemma_date_text_inverts(d1, date_text(d1));
    lemma_date_text_inverts(d2, date_text(d1));
}

/// A time text names its time: equal texts of valid times mean equal
/// times.
pub proof fn lemma_time_text_unique(t1: Time, t2: Time)
    requires
        time_valid(t1),
        time_valid(t2),
        time_text(t1) == time_text(t2),
    ensures
        t1 == t2,
{
    lemma_time_text_parts(t1);
    lemma_time_text_parts(t2);
    lemma_dec2(t1.hour as int);
    lemma_dec2(t1.minute as int);
    lemma_dec2(t1.second as int);
    lemma_dec2(t2.hour as int);
    lemma_dec2(t2.minute as int);
    lemma_dec2(t2.second as int);
    lemma_digit_char_val(t1.hour as int / 10);
    lemma_digit_char_val(t1.hour as int % 10);
    lemma_digit_char_val(t1.minute as int / 10);
    lemma_digit_char_val(t1.minute as int % 10);
    lemma_digit_char_val(t1.second as int / 10);
    lemma_digit_char_val(t1.second as int % 10);
    lemma_digit_char_val(t2.hour as int / 10);
    lemma_digit_char_val(t2.hour as int % 10);
    lemma_digit_char_val(t2.minute as int / 10);
    lemma_digit_char_val(t2.minute as int % 10);
    lemma_digit_char_val(t2.second as int / 10);
    lemma_digit_char_val(t2.second as int % 10);
}

/// Relies on `str::chars` and `collect`: the characters of the string,
/// in order, as a vector.
#[verifier::external_body]
pub fn string_to_chars(s: &str) -> (r: Vec<char>)
    ensures
        r@ == s@,
{
    s.chars().collect()
}

/// Relies on `String::from_iter` over `char`: the string holds exactly
/// the characters handed in, in order.
#[verifier::external_body]
pub fn chars_to_string(v: Vec<char>) -> (r: String)
    ensures
        r@ == v@,
{
    v.into_iter().collect()
}

pub fn digit_char_exec(v: u32) -> (c: char)
    requires
        v < 10,
    ensures
        c == digit_char(v as int),
{
    match v {
        0 => '0',
        1 => '1',
        2 => '2',
        3 => '3',
        4 => '4',
        5 => '5',
        6 => '6',
        7 => '7',
        8 => '8',
        _ => '9',
    }
}

pub fn digit_val_exec(c: char) -> (r: Option<u32>)
    ensures
        match r {
            Some(v) => v < 10 && digit_val(c) == v as int,
            None => digit_val(c) == -1,
        },
{
    match c {
        '0' => Some(0),
        '1' => Some(1),
        '2' => Some(2),
        '3' => Some(3),
        '4' => Some(4),
        '5' => Some(5),
        '6' => Some(6),
        '7' => Some(7),
        '8' => Some(8),
        '9' => Some(9),
        _ => None,
    }
}

/// Write a valid date with a four-digit year as `YYYY-MM-DD`.
pub fn format_date(d: &Date) -> (r: String)
    requires
        date_valid(*d),
        0 <= d.year <= 9999,
    ensures
        r@ == date_text(*d),
{
    let y = d.year as u32;
    let mut v: Vec<char> = Vec::new();
    v.push(digit_char_exec(y / 1000));
    v.push(digit_char_exec(y / 100 % 10));
    v.push(digit_char_exec(y / 10 % 10));
    v.push(digit_char_exec(y % 10));
    v.push('-');
    v.push(digit_char_exec(d.month / 10));
    v.push(digit_char_exec(d.month % 10));
    v.push('-');
    v.push(digit_char_exec(d.day / 10));
    v.push(digit_char_exec(d.day % 10));
    proof {
        lemma_date_text_parts(*d);
        assert(v@ =~= date_text(*d));
    }
    chars_to_string(v)
}

/// Write a valid time as `HH:MM:SS`.
pub fn format_time(t: &Time) -> (r: String)
    requires
        time_valid(*t),
    ensures
        r@ == time_text(*t),
{
    let mut v: Vec<char> = Vec::new();
    v.push(digit_char_exec(t.hour / 10));
    v.push(digit_char_exec(t.hour % 10));
    v.push(':');
    v.push(digit_char_exec(t.minute / 10));
    v.push(digit_char_exec(t.minute % 10));
    v.push(':');
    v.push(digit_char_exec(t.second / 10));
    v.push(digit_char_exec(t.second % 10));
    proof {
        lemma_time_text_parts(*t);
        assert(v@ =~= time_text(*t));
    }
    chars_to_string(v)
}

/// The date text of a valid date with a four-digit year determines the
/// date: every character is pinned, and the fields are read back from
/// the digit values.
pub proof fn lemma_date_text_inverts(d: Date, gs: Seq<char>)
    requires
        date_valid(d),
        0 <= d.year <= 9999,
        gs == date_text(d),
    ensures
        gs.len() == 10,
        gs[4] == '-' && gs[7] == '-',
        digit_val(gs[0]) >= 0 && digit_val(gs[1]) >= 0 && digit_val(gs[2]) >= 0 && digit_val(
            gs[3],
        ) >= 0,
        digit_val(gs[5]) >= 0 && digit_val(gs[6]) >= 0,
        digit_val(gs[8]) >= 0 && digit_val(gs[9]) >= 0,
        d.year as int == 1000 * digit_val(gs[0]) + 100 * digit_val(gs[1]) + 10 * digit_val(
            gs[2],
        ) + digit_val(gs[3]),
        d.month as int == 10 * digit_val(gs[5]) + digit_val(gs[6]),
        d.day as int == 10 * digit_val(gs[8]) + digit_val(gs[9]),
{
    lemma_date_text_parts(d);
    lemma_dec4(d.year as int);
    lemma_dec2(d.month as int);
    lemma_dec2(d.day as int);
    lemma_digit_char_val(d.year as int / 1000);
    lemma_digit_char_val(d.year as int / 100 % 10);
    lemma_digit_char_val(d.year as int / 10 % 10);
    lemma_digit_char_val(d.year as int % 10);
    lemma_digit_char_val(d.month as int / 10);
    lemma_digit_char_val(d.month as int % 10);
    lemma_digit_char_val(d.day as int / 10);
    lemma_digit_char_val(d.day as int % 10);
}

/// Read a `YYYY-MM-DD` date.  `Some` comes back exactly when the text
/// is the date text of a valid date with a four-digit year, and then
/// holds that date.
#[verifier::rlimit(100)]
pub fn parse_date(s: &str) -> (r: Option<Date>)
    ensures
        match r {
            Some(d) => date_valid(d) && 0 <= d.year <= 9999 && s@ == date_text(d),
            None => forall|d: Date|
                date_valid(d) && 0 <= d.year <= 9999 ==> s@ != date_text(d),
        },
{
    let v = string_to_chars(s);
    let ghost gs = s@;
    if v.len() != 10 {
        proof {
            assert forall|d: Date| date_valid(d) && 0 <= d.year <= 9999 implies gs
                != date_text(d) by {
                lemma_date_text_parts(d);
            }
        }
        return None;
    }
    let d0 = digit_val_exec(v[0]);
    let d1 = digit_val_exec(v[1]);
    let d2 = digit_val_exec(v[2]);
    let d3 = digit_val_exec(v[3]);
    let d5 = digit_val_exec(v[5]);
    let d6 = digit_val_exec(v[6]);
    let d8 = digit_val_exec(v[8]);
    let d9 = digit_val_exec(v[9]);
    let shape_ok = d0.is_some() && d1.is_some() && d2.is_some() && d3.is_some() && v[4] == '-'
        && d5.is_some() && d6.is_some() && v[7] == '-' && d8.is_some() && d9.is_some();
    if !shape_ok {
        proof {
            assert forall|d: Date| date_valid(d) && 0 <= d.year <= 9999 implies gs
                != date_text(d) by {
                if gs == date_text(d) {
                    lemma_date_text_inverts(d, gs);
                }
            }
        }
        return None;
    }
    let year: u32 = 1000 * d0.unwrap() + 100 * d1.unwrap() + 10 * d2.unwrap() + d3.unwrap();
    let month: u32 = 10 * d5.unwrap() + d6.unwrap();
    let day: u32 = 10 * d8.unwrap() + d9.unwrap();
    let date = Date { year: year as i32, month, day };
    proof {
        // Any valid date whose text reads `gs` has exactly these
        // digits, hence these field values.
        assert forall|d: Date|
            date_valid(d) && 0 <= d.year <= 9999 && gs == date_text(d) implies d == date by {
            lemma_date_text_inverts(d, gs);
        }
    }
    if !date_valid_exec(&date) {
        return None;
    }
    proof {
        lemma_date_text_parts(date);
        lemma_dec4(year as int);
        lemma_dec2(month as int);
        lemma_dec2(day as int);
        lemma_digit_val_char(gs[0]);
        lemma_digit_val_char(gs[1]);
        lemma_digit_val_char(gs[2]);
        lemma_digit_val_char(gs[3]);
        lemma_digit_val_char(gs[5]);
        lemma_digit_val_char(gs[6]);
        lemma_digit_val_char(gs[8]);
        lemma_digit_val_char(gs[9]);
        assert(gs =~= date_text(date));
    }
    Some(date)
}

/// Read an `HH:MM:SS` time.  `Some` comes back exactly when the text
/// is the time text of a valid time, and then holds that time.
pub fn parse_time(s: &str) -> (r: Option<Time>)
    ensures
        match r {
            Some(t) => time_valid(t) && s@ == time_text(t),
            None => forall|t: Time| time_valid(t) ==> s@ != time_text(t),
        },
{
    let v = string_to_chars(s);
    let ghost gs = s@;
    if v.len() != 8 {
        proof {
            assert forall|t: Time| time_valid(t) implies gs != time_text(t) by {
                lemma_time_text_parts(t);
            }
        }
        return None;
    }
    let d0 = digit_val_exec(v[0]);
    let d1 = digit_val_exec(v[1]);
    let d3 = digit_val_exec(v[3]);
    let d4 = digit_val_exec(v[4]);
    let d6 = digit_val_exec(v[6]);
    let d7 = digit_val_exec(v[7]);
    let shape_ok = d0.is_some() && d1.is_some() && v[2] == ':' && d3.is_some() && d4.is_some()
        && v[5] == ':' && d6.is_some() && d7.is_some();
    if !shape_ok {
        proof {
            assert forall|t: Time| time_valid(t) implies gs != time_text(t) by {
                lemma_time_text_parts(t);
                lemma_dec2(t.hour as int);
                lemma_dec2(t.minute as int);
                lemma_dec2(t.second as int);
                if gs == time_text(t) {
                    lemma_digit_char_val(t.hour as int / 10);
                    lemma_digit_char_val(t.hour as int % 10);
                    lemma_digit_char_val(t.minute as int / 10);
                    lemma_digit_char_val(t.minute as int % 10);
                    lemma_digit_char_val(t.second as int / 10);
                    lemma_digit_char_val(t.second as int % 10);
                }
            }
        }
        return None;
    }
    let hour: u32 = 10 * d0.unwrap() + d1.unwrap();
    let minute: u32 = 10 * d3.unwrap() + d4.unwrap();
    let second: u32 = 10 * d6.unwrap() + d7.unwrap();
    let time = Time { hour, minute, second };
    proof {
        assert forall|t: Time| time_valid(t) && gs == time_text(t) implies t == time by {
            lemma_time_text_parts(t);
            lemma_dec2(t.hour as int);
            lemma_dec2(t.minute as int);
            lemma_dec2(t.second as int);
            lemma_digit_char_val(t.hour as int / 10);
            lemma_digit_char_val(t.hour as int % 10);
            lemma_digit_char_val(t.minute as int / 10);
            lemma_digit_char_val(t.minute as int % 10);
            lemma_digit_char_val(t.second as int / 10);
            lemma_digit_char_val(t.second as int % 10);
        }
    }
    if !time_valid_exec(&time) {
        return None;
    }
    proof {
        lemma_time_text_parts(time);
        lemma_dec2(hour as int);
        lemma_dec2(minute as int);
        lemma_dec2(second as int);
        lemma_digit_val_char(gs[0]);
        lemma_digit_val_char(gs[1]);
        lemma_digit_val_char(gs[3]);
        lemma_digit_val_char(gs[4]);
        lemma_digit_val_char(gs[6]);
        lemma_digit_val_char(gs[7]);
        assert(gs =~= time_text(time));
    }
    Some(time)
}

} // verus!
