//! Calendar arithmetic for the store.
//!
//! Partitions are keyed by the UTC calendar day of their rows' timestamps
//! (microseconds since the Unix epoch). Internally a day is its epoch day
//! number `ts / MICROS_PER_DAY`; the calendar rendering `YYYY.MM.DD` used for
//! partition directory names is obtained from jiff.
//!
//! The supported range is the epoch day numbers `0 ..= MAX_DAY`, that is
//! 1970-01-01 through 9999-12-30 UTC; timestamps outside it are rejected at
//! the API boundary.

use vstd::prelude::*;
use vstd::string::StringExecFns;

use crate::error::ZolaError;

verus! {

pub const MICROS_PER_DAY: i64 = 86_400_000_000;

/// The last whole UTC day whose midnight jiff can still represent as a
/// timestamp: 9999-12-30.
pub const MAX_DAY: i64 = 2_932_895;

/// The last supported microsecond timestamp: the final microsecond of
/// `MAX_DAY`.
pub const MAX_TS: i64 = (MAX_DAY + 1) * MICROS_PER_DAY - 1;

/// A timestamp the store accepts: non-negative and no later than the final
/// microsecond of `MAX_DAY`.
pub open spec fn ts_supported(t: i64) -> bool {
    0 <= t <= MAX_TS
}

/// The epoch day number that a supported timestamp falls in.
pub open spec fn day_of(t: i64) -> int {
    t as int / MICROS_PER_DAY as int
}

/// The proleptic Gregorian calendar date `(year, month, day)` of an epoch day
/// number, as jiff computes it.
pub uninterp spec fn ymd_of_day(day: int) -> (int, int, int);

/// Relies on jiff's `Timestamp::from_second` and `Zoned::date` (through
/// `TimeZone::UTC`): the UTC calendar date of an in-range second, which
/// depends only on the UTC day the second falls in, with the component ranges
/// that jiff's `Date` type guarantees.
#[verifier::external_body]
fn utc_ymd_of_second(sec: i64) -> (r: Option<(i16, i8, i8)>)
    ensures
        r.is_some() <==> -377_705_023_201 <= sec <= 253_402_207_200,
        r matches Some(ymd) ==> {
            &&& (ymd.0 as int, ymd.1 as int, ymd.2 as int) == ymd_of_day(
                sec as int / 86_400,
            )
            &&& -9999 <= ymd.0 <= 9999
            &&& 1 <= ymd.1 <= 12
            &&& 1 <= ymd.2 <= 31
            &&& sec >= 0 ==> ymd.0 >= 1970
        },
{
    match jiff::Timestamp::from_second(sec) {
        Ok(t) => {
            let d = t.to_zoned(jiff::tz::TimeZone::UTC).date();
            Some((d.year(), d.month(), d.day()))
        },
        Err(_) => None,
    }
}

/// The epoch day of `(year, month, day)` when jiff accepts it — a real
/// proleptic Gregorian date whose UTC midnight is a representable instant —
/// and nothing otherwise.
pub uninterp spec fn civil_day_of(y: int, m: int, d: int) -> Option<int>;

/// Relies on jiff's `civil::Date::new` and `Date::to_zoned` (through
/// `TimeZone::UTC`): both steps are deterministic in `(y, m, d)` alone, they
/// succeed exactly on the dates `civil_day_of` accepts, midnight UTC of such
/// a date is a whole number of days from the epoch, and that day's calendar
/// date is the given one.
#[verifier::external_body]
fn utc_second_of_ymd(y: i16, m: i8, d: i8) -> (r: Option<i64>)
    ensures
        match r {
            Some(sec) => {
                &&& civil_day_of(y as int, m as int, d as int) == Some(sec as int / 86_400)
                &&& sec % 86_400 == 0
                &&& ymd_of_day(sec as int / 86_400) == (y as int, m as int, d as int)
                &&& -377_705_023_201 <= sec <= 253_402_207_200
            },
            None => civil_day_of(y as int, m as int, d as int) is None,
        },
{
    match jiff::civil::Date::new(y, m, d) {
        Ok(date) => match date.to_zoned(jiff::tz::TimeZone::UTC) {
            Ok(z) => Some(z.timestamp().as_second()),
            Err(_) => None,
        },
        Err(_) => None,
    }
}

/// The epoch day number of a supported timestamp.
pub fn micros_to_day(t: i64) -> (d: i64)
    requires
        ts_supported(t),
    ensures
        d == day_of(t),
        0 <= d <= MAX_DAY,
{
    let d = t / MICROS_PER_DAY;
    proof {
        vstd::arithmetic::div_mod::lemma_div_is_ordered(
            t as int,
            MAX_TS as int,
            MICROS_PER_DAY as int,
        );
    }
    d
}

/// The date integer `year * 10000 + month * 100 + day`.
pub open spec fn spec_date_int(ymd: (int, int, int)) -> int {
    ymd.0 * 10000 + ymd.1 * 100 + ymd.2
}

/// The calendar date of a supported epoch day, packed as
/// `year * 10000 + month * 100 + day`.
pub fn day_to_date_int(day: i64) -> (r: i32)
    requires
        0 <= day <= MAX_DAY,
    ensures
        r == spec_date_int(ymd_of_day(day as int)),
        19700101 <= r <= 99991231,
{
    let sec = day * 86_400;
    match utc_ymd_of_second(sec) {
        Some((y, m, d)) => {
            proof {
                assert(sec as int / 86_400 == day as int) by (nonlinear_arith)
                    requires
                        sec == day * 86_400,
                        0 <= day,
                ;
            }
            (y as i32) * 10000 + (m as i32) * 100 + (d as i32)
        },
        // Unreachable: every supported day's midnight is in jiff's range.
        None => 19700101,
    }
}

/// The date integer of the UTC day of a supported timestamp; errors with
/// `SchemaMismatch` exactly on unsupported timestamps.
pub fn micros_to_date_int(t: i64) -> (r: Result<i32, ZolaError>)
    ensures
        r.is_ok() <==> ts_supported(t),
        r matches Ok(di) ==> di == spec_date_int(ymd_of_day(day_of(t))) && 19700101 <= di
            <= 99991231,
        r matches Err(e) ==> e matches ZolaError::SchemaMismatch(_),
{
    if t < 0 || t > MAX_TS {
        Err(ZolaError::SchemaMismatch(String::from_str(
            "timestamp outside the supported calendar range",
        )))
    } else {
        Ok(day_to_date_int(micros_to_day(t)))
    }
}

/// The character for a single decimal digit.
pub open spec fn spec_digit_char(v: int) -> char {
    if v == 0 {
        '0'
    } else if v == 1 {
        '1'
    } else if v == 2 {
        '2'
    } else if v == 3 {
        '3'
    } else if v == 4 {
        '4'
    } else if v == 5 {
        '5'
    } else if v == 6 {
        '6'
    } else if v == 7 {
        '7'
    } else if v == 8 {
        '8'
    } else {
        '9'
    }
}

fn push_digit(s: &mut String, v: u32)
    requires
        v < 10,
    ensures
        final(s)@ == old(s)@.push(spec_digit_char(v as int)),
{
    let lit: &str = match v {
        0 => "0",
        1 => "1",
        2 => "2",
        3 => "3",
        4 => "4",
        5 => "5",
        6 => "6",
        7 => "7",
        8 => "8",
        _ => "9",
    };
    proof {
        reveal_strlit("0");
        reveal_strlit("1");
        reveal_strlit("2");
        reveal_strlit("3");
        reveal_strlit("4");
        reveal_strlit("5");
        reveal_strlit("6");
        reveal_strlit("7");
        reveal_strlit("8");
        reveal_strlit("9");
    }
    s.append(lit);
    proof {
        assert(s@ =~= old(s)@.push(spec_digit_char(v as int)));
    }
}

/// The ten-character rendering `YYYY.MM.DD` of a date integer.
pub open spec fn spec_date_str_of_int(di: int) -> Seq<char> {
    let y = di / 10000;
    let m = (di % 10000) / 100;
    let d = di % 100;
    seq![
        spec_digit_char(y / 1000),
        spec_digit_char((y / 100) % 10),
        spec_digit_char((y / 10) % 10),
        spec_digit_char(y % 10),
        '.',
        spec_digit_char(m / 10),
        spec_digit_char(m % 10),
        '.',
        spec_digit_char(d / 10),
        spec_digit_char(d % 10),
    ]
}

/// Render a date integer as the partition directory name `YYYY.MM.DD`.
pub fn date_int_to_str(date_int: i32) -> (r: String)
    requires
        0 <= date_int <= 99_991_231,
    ensures
        r@ == spec_date_str_of_int(date_int as int),
{
    let y: u32 = (date_int as u32) / 10000;
    let m: u32 = ((date_int as u32) % 10000) / 100;
    let d: u32 = (date_int as u32) % 100;
    let mut s = String::new();
    push_digit(&mut s, y / 1000);
    push_digit(&mut s, (y / 100) % 10);
    push_digit(&mut s, (y / 10) % 10);
    push_digit(&mut s, y % 10);
    proof {
        reveal_strlit(".");
    }
    s.append(".");
    push_digit(&mut s, m / 10);
    push_digit(&mut s, m % 10);
    s.append(".");
    push_digit(&mut s, d / 10);
    push_digit(&mut s, d % 10);
    proof {
        assert(s@ =~= spec_date_str_of_int(date_int as int));
    }
    s
}

/// The directory name of the partition holding a supported epoch day.
pub fn day_to_date_str(day: i64) -> (r: String)
    requires
        0 <= day <= MAX_DAY,
    ensures
        r@ == spec_date_str_of_int(spec_date_int(ymd_of_day(day as int))),
{
    date_int_to_str(day_to_date_int(day))
}

/// The value of a decimal digit character, if it is one.
pub open spec fn spec_digit_val(c: char) -> Option<int> {
    if c == '0' {
        Some(0)
    } else if c == '1' {
        Some(1)
    } else if c == '2' {
        Some(2)
    } else if c == '3' {
        Some(3)
    } else if c == '4' {
        Some(4)
    } else if c == '5' {
        Some(5)
    } else if c == '6' {
        Some(6)
    } else if c == '7' {
        Some(7)
    } else if c == '8' {
        Some(8)
    } else if c == '9' {
        Some(9)
    } else {
        None
    }
}

fn digit_val(c: char) -> (r: Option<u32>)
    ensures
        r matches Some(v) ==> spec_digit_val(c) == Some(v as int) && v <= 9,
        r is None <==> spec_digit_val(c) is None,
{
    match c {
        '0' => Some(0),
        '1' => Some(1),
        '2' => Some(2),
        '3' => Some(3),
        '4' => Some(4),
        '5' => Some(5),
        '6' => Some(6),
        '7' => Some(7),
        '8' => Some(8),
        '9' => Some(9),
        _ => None,
    }
}

/// A string has the shape of a partition directory name: ten characters,
/// `YYYY.MM.DD`, all digits but the two dots.
pub open spec fn spec_is_date_str(s: Seq<char>) -> bool {
    &&& s.len() == 10
    &&& s[4] == '.'
    &&& s[7] == '.'
    &&& forall|i: int|
        0 <= i < 10 && i != 4 && i != 7 ==> spec_digit_val(#[trigger] s[i]) is Some
}

/// The `(year, month, day)` a date-shaped string spells.
pub open spec fn spec_date_str_ymd(s: Seq<char>) -> (int, int, int) {
    (
        spec_digit_val(s[0])->Some_0 * 1000 + spec_digit_val(s[1])->Some_0 * 100 + spec_digit_val(
            s[2],
        )->Some_0 * 10 + spec_digit_val(s[3])->Some_0,
        spec_digit_val(s[5])->Some_0 * 10 + spec_digit_val(s[6])->Some_0,
        spec_digit_val(s[8])->Some_0 * 10 + spec_digit_val(s[9])->Some_0,
    )
}

/// Whether a directory name has the `YYYY.MM.DD` shape.
pub fn is_date_str(s: &str) -> (r: bool)
    ensures
        r == spec_is_date_str(s@),
{
    if s.unicode_len() != 10 {
        return false;
    }
    let mut i: usize = 0;
    while i < 10
        invariant
            i <= 10,
            s@.len() == 10,
            forall|k: int|
                0 <= k < i ==> if k == 4 || k == 7 {
                    s@[k] == '.'
                } else {
                    spec_digit_val(#[trigger] s@[k]) is Some
                },
        decreases 10 - i,
    {
        let c = s.get_char(i);
        if i == 4 || i == 7 {
            if c != '.' {
                return false;
            }
        } else {
            if digit_val(c).is_none() {
                return false;
            }
        }
        i = i + 1;
    }
    true
}

/// The epoch day a directory name denotes: the name must have the date
/// shape, spell a date jiff accepts, and fall in the supported day range.
pub open spec fn spec_date_str_day(s: Seq<char>) -> Option<int> {
    if !spec_is_date_str(s) {
        None
    } else {
        let ymd = spec_date_str_ymd(s);
        match civil_day_of(ymd.0, ymd.1, ymd.2) {
            Some(day) => if 0 <= day <= MAX_DAY {
                Some(day)
            } else {
                None
            },
            None => None,
        }
    }
}

/// The epoch day named by a partition directory name, when the name has the
/// date shape, spells a real calendar date, and falls in the supported range.
pub fn date_str_to_day(s: &str) -> (r: Option<i64>)
    ensures
        r is Some <==> spec_date_str_day(s@) is Some,
        r matches Some(day) ==> {
            &&& Some(day as int) == spec_date_str_day(s@)
            &&& 0 <= day <= MAX_DAY
            &&& ymd_of_day(day as int) == spec_date_str_ymd(s@)
        },
{
    if !is_date_str(s) {
        return None;
    }
    let d0 = digit_val(s.get_char(0)).unwrap();
    let d1 = digit_val(s.get_char(1)).unwrap();
    let d2 = digit_val(s.get_char(2)).unwrap();
    let d3 = digit_val(s.get_char(3)).unwrap();
    let d5 = digit_val(s.get_char(5)).unwrap();
    let d6 = digit_val(s.get_char(6)).unwrap();
    let d8 = digit_val(s.get_char(8)).unwrap();
    let d9 = digit_val(s.get_char(9)).unwrap();
    let y: i64 = (d0 * 1000 + d1 * 100 + d2 * 10 + d3) as i64;
    let m: i64 = (d5 * 10 + d6) as i64;
    let d: i64 = (d8 * 10 + d9) as i64;
    proof {
        assert((y as int, m as int, d as int) == spec_date_str_ymd(s@));
    }
    match utc_second_of_ymd(y as i16, m as i8, d as i8) {
        Some(sec) => {
            if sec < 0 {
                proof {
                    // A negative second lies on a negative epoch day.
                    vstd::arithmetic::div_mod::lemma_div_is_ordered(sec as int, -1, 86_400);
                }
                return None;
            }
            let day = sec / 86_400;
            proof {
                vstd::arithmetic::div_mod::lemma_fundamental_div_mod(sec as int, 86_400);
            }
            if day > MAX_DAY {
                return None;
            }
            Some(day)
        },
        None => None,
    }
}

/// The directory name of the partition a supported timestamp falls in;
/// errors with `SchemaMismatch` exactly on unsupported timestamps.
pub fn micros_to_date_str(t: i64) -> (r: Result<String, ZolaError>)
    ensures
        r.is_ok() <==> ts_supported(t),
        r matches Ok(s) ==> s@ == spec_date_str_of_int(
            spec_date_int(ymd_of_day(day_of(t))),
        ),
        r matches Err(e) ==> e matches ZolaError::SchemaMismatch(_),
{
    match micros_to_date_int(t) {
        Ok(di) => Ok(date_int_to_str(di)),
        Err(e) => Err(e),
    }
}

} // verus!
