//! Timestamps as fixed-width text whose byte order is the order of time.

use vstd::prelude::*;
use chrono::{Datelike, Timelike};

verus! {

/// A moment in UTC as calendar date and time of day.
#[derive(Clone, Copy, Debug)]
pub struct CivilTime {
    pub year: i32,
    pub month: u32,
    pub day: u32,
    pub hour: u32,
    pub minute: u32,
    pub second: u32,
    pub nanosecond: u32,
}

impl CivilTime {
    /// The fields lie where a calendar puts them; a nanosecond count of a
    /// thousand million or more stands for a leap second.
    pub open spec fn in_range(self) -> bool {
        &&& 1 <= self.month <= 12
        &&& 1 <= self.day <= 31
        &&& self.hour <= 23
        &&& self.minute <= 59
        &&& self.second <= 59
        &&& self.nanosecond < 2_000_000_000
    }

    /// The year can be written with four digits.
    pub open spec fn four_digit_year(self) -> bool {
        0 <= self.year <= 9999
    }
}

/// The date and time in UTC that lie `secs` seconds and `nsec` nanoseconds
/// after the start of 1970, as chrono computes them; `None` where chrono
/// has no such date.
pub uninterp spec fn utc_civil(secs: int, nsec: int) -> Option<CivilTime>;

/// The second of the day on which the second `secs` since the start of
/// 1970 falls, every day having 86400 of them.
pub open spec fn second_of_day(secs: int) -> int {
    secs % 86_400
}

/// Calls chrono's `NaiveDateTime::from_timestamp_opt` and reads the fields
/// of its result through `Datelike` and `Timelike`. Believed of it: the
/// result depends on the two arguments alone; its month and day lie in the
/// ranges that `Datelike` documents; its hour, minute and second are those
/// of the second of the day, which is the remainder of `secs` by 86400;
/// and its nanosecond count is the one passed in. Year, month and day are
/// chrono's and are not stated here.
#[allow(deprecated)]
#[verifier::external_body]
fn civil_from_timestamp(secs: i64, nsec: u32) -> (r: Option<CivilTime>)
    ensures
        r == utc_civil(secs as int, nsec as int),
        r matches Some(c) ==> {
            &&& c.in_range()
            &&& c.hour == second_of_day(secs as int) / 3_600
            &&& c.minute == second_of_day(secs as int) / 60 % 60
            &&& c.second == second_of_day(secs as int) % 60
            &&& c.nanosecond == nsec
        },
{
    match chrono::NaiveDateTime::from_timestamp_opt(secs, nsec) {
        Some(t) => Some(
            CivilTime {
                year: t.year(),
                month: t.month(),
                day: t.day(),
                hour: t.hour(),
                minute: t.minute(),
                second: t.second(),
                nanosecond: t.nanosecond(),
            },
        ),
        None => None,
    }
}

/// The digit `0`; the other digits follow it.
pub const ZERO: u8 = 48;

/// The decimal digits of `i`, with zeros in front where they are fewer
/// than `w`.
pub open spec fn digits(i: nat, w: nat) -> Seq<u8>
    decreases i, w,
{
    if i == 0 && w == 0 {
        Seq::empty()
    } else {
        digits(i / 10, if w > 0 { (w - 1) as nat } else { 0 }).push((ZERO + i % 10) as u8)
    }
}

/// The width asked for by a signed count: none where it is negative.
pub open spec fn width(w: int) -> nat {
    if w > 0 {
        w as nat
    } else {
        0
    }
}

/// `i` can be written with `w` digits.
pub open spec fn fits(i: nat, w: nat) -> bool
    decreases w,
{
    if w == 0 {
        i == 0
    } else {
        fits(i / 10, (w - 1) as nat)
    }
}

/// A number that can be written with `w` digits is written with exactly
/// `w` digits.
pub proof fn lemma_fits_len(i: nat, w: nat)
    requires
        fits(i, w),
    ensures
        digits(i, w).len() == w,
    decreases w,
{
    if w > 0 {
        lemma_fits_len(i / 10, (w - 1) as nat);
    }
}

/// Every byte of `s` is a decimal digit.
pub open spec fn all_digits(s: Seq<u8>) -> bool {
    forall|k: int| 0 <= k < s.len() ==> ZERO <= #[trigger] s[k] <= ZERO + 9
}

/// The digits of a number are decimal digits.
pub proof fn lemma_digits_are_digits(i: nat, w: nat)
    ensures
        all_digits(digits(i, w)),
    decreases i, w,
{
    if !(i == 0 && w == 0) {
        lemma_digits_are_digits(
            i / 10,
            if w > 0 {
                (w - 1) as nat
            } else {
                0
            },
        );
    }
}

/// Appends to `buf` the decimal digits of `i`, at least `w` of them.
pub fn itoa(buf: &mut Vec<u8>, i: u32, w: i32)
    requires
        i <= 9999,
        w <= 4,
    ensures
        final(buf)@ == old(buf)@ + digits(i as nat, width(w as int)),
{
    let mut b: [u8; 4] = [0u8; 4];
    let mut bp: usize = 4;
    let mut i: u32 = i;
    let mut w: i32 = w;
    let ghost all = digits(i as nat, width(w as int));
    proof {
        assert(all =~= all + b@.subrange(4, 4));
    }
    while i > 0 || w > 0
        invariant
            bp <= 4,
            w <= bp,
            bp == 0 ==> i == 0,
            bp == 1 ==> i <= 9,
            bp == 2 ==> i <= 99,
            bp == 3 ==> i <= 999,
            bp == 4 ==> i <= 9999,
            all == digits(i as nat, width(w as int)) + b@.subrange(bp as int, 4),
        decreases bp,
    {
        let ghost tail = b@.subrange(bp as int, 4);
        let d: u8 = ZERO + (i % 10) as u8;
        if w > 0 {
            w -= 1;
        }
        bp -= 1;
        b[bp] = d;
        i /= 10;
        proof {
            assert(b@.subrange(bp as int, 4) =~= seq![d] + tail);
            assert(digits(i as nat, width(w as int)).push(d) + tail =~= digits(
                i as nat,
                width(w as int),
            ) + (seq![d] + tail));
        }
    }
    let mut k: usize = bp;
    while k < 4
        invariant
            bp <= k <= 4,
            buf@ == old(buf)@ + b@.subrange(bp as int, k as int),
        decreases 4 - k,
    {
        buf.push(b[k]);
        k += 1;
        proof {
            assert(buf@ =~= old(buf)@ + b@.subrange(bp as int, k as int));
        }
    }
    proof {
        assert(digits(0, 0) =~= Seq::<u8>::empty());
        assert(all =~= b@.subrange(bp as int, 4));
    }
}

pub const DASH: u8 = 45;

pub const SPACE: u8 = 32;

pub const COLON: u8 = 58;

pub const DOT: u8 = 46;

pub const ZULU: u8 = 90;

/// The date of a moment as text: `YYYY-MM-DD`, each field with zeros in
/// front.
pub open spec fn date_text(t: CivilTime) -> Seq<u8> {
    digits(t.year as nat, 4) + seq![DASH] + digits(t.month as nat, 2) + seq![DASH] + digits(
        t.day as nat,
        2,
    )
}

/// A time of day as text: `HH:MM:SS.mmmZ`, each field with zeros in front.
pub open spec fn clock_text(hour: nat, minute: nat, second: nat, milli: nat) -> Seq<u8> {
    digits(hour, 2) + seq![COLON] + digits(minute, 2) + seq![COLON] + digits(second, 2)
        + seq![DOT] + digits(milli, 3) + seq![ZULU]
}

/// The text of a moment: `YYYY-MM-DD HH:MM:SS.mmmZ`, the fraction cut to
/// milliseconds.
pub open spec fn rfc3339_text(t: CivilTime) -> Seq<u8> {
    date_text(t) + seq![SPACE] + clock_text(
        t.hour as nat,
        t.minute as nat,
        t.second as nat,
        (t.nanosecond / 1_000_000) as nat,
    )
}

/// Appends to `b` the text of the moment `dt`.
pub fn rfc3339(dt: &CivilTime, b: &mut Vec<u8>)
    requires
        dt.in_range(),
        dt.four_digit_year(),
    ensures
        final(b)@ == old(b)@ + rfc3339_text(*dt),
{
    itoa(b, dt.year as u32, 4);
    b.push(DASH);
    itoa(b, dt.month, 2);
    b.push(DASH);
    itoa(b, dt.day, 2);
    b.push(SPACE);
    itoa(b, dt.hour, 2);
    b.push(COLON);
    itoa(b, dt.minute, 2);
    b.push(COLON);
    itoa(b, dt.second, 2);
    b.push(DOT);
    itoa(b, dt.nanosecond / 1_000_000, 3);
    b.push(ZULU);
    assert(b@ =~= old(b)@ + rfc3339_text(*dt));
}

/// Outside a leap second the text of a moment is 24 bytes long.
pub proof fn lemma_rfc3339_text_len(t: CivilTime)
    requires
        t.in_range(),
        t.four_digit_year(),
        t.nanosecond < 1_000_000_000,
    ensures
        rfc3339_text(t).len() == 24,
{
    reveal_with_fuel(fits, 5);
    lemma_fits_len(t.year as nat, 4);
    lemma_fits_len(t.month as nat, 2);
    lemma_fits_len(t.day as nat, 2);
    lemma_fits_len(t.hour as nat, 2);
    lemma_fits_len(t.minute as nat, 2);
    lemma_fits_len(t.second as nat, 2);
    lemma_fits_len((t.nanosecond / 1_000_000) as nat, 3);
}

/// The moment that lies `usec` microseconds after the start of 1970, where
/// chrono has one.
pub open spec fn usec_civil(usec: u64) -> Option<CivilTime> {
    utc_civil(usec as int / 1_000_000, (usec as int % 1_000_000) * 1_000)
}

/// Whether `usec` microseconds after the start of 1970 is a moment that
/// can be written: chrono has a date for it, in a year of four digits.
pub open spec fn has_stamp(usec: u64) -> bool {
    match usec_civil(usec) {
        Some(t) => t.four_digit_year(),
        None => false,
    }
}

/// The text of the moment `usec` microseconds after the start of 1970.
pub open spec fn stamp(usec: u64) -> Seq<u8> {
    rfc3339_text(usec_civil(usec).unwrap())
}

/// The time of day `usec` microseconds after the start of 1970, as text.
pub open spec fn usec_clock_text(usec: u64) -> Seq<u8> {
    let s = second_of_day(usec as int / 1_000_000);
    clock_text(
        (s / 3_600) as nat,
        (s / 60 % 60) as nat,
        (s % 60) as nat,
        (usec as int % 1_000_000 / 1_000) as nat,
    )
}

/// What is known of the text of a moment that can be written: it is 24
/// bytes long, and after chrono's date and a space it holds the time of
/// day that follows from `usec` alone.
pub open spec fn stamp_laid_out(usec: u64) -> bool {
    &&& stamp(usec).len() == 24
    &&& stamp(usec) == date_text(usec_civil(usec).unwrap()) + seq![SPACE] + usec_clock_text(usec)
}

/// Appends to `b` the text of the moment `usec` microseconds after the
/// start of 1970.
pub fn usec(usec: u64, b: &mut Vec<u8>)
    requires
        has_stamp(usec),
    ensures
        final(b)@ == old(b)@ + stamp(usec),
        stamp_laid_out(usec),
{
    let secs: u64 = usec / 1_000_000;
    let nsec: u64 = (usec - secs * 1_000_000) * 1_000;
    match civil_from_timestamp(secs as i64, nsec as u32) {
        Some(dt) => {
            proof {
                lemma_rfc3339_text_len(dt);
                assert(dt.nanosecond / 1_000_000 == usec as int % 1_000_000 / 1_000);
            }
            rfc3339(&dt, b);
        },
        None => {},
    }
}

/// Appends to `b` the text of the moment `usec` microseconds after the
/// start of 1970 and returns `true`; where that moment cannot be written,
/// leaves `b` as it is and returns `false`.
pub fn try_usec(usec: u64, b: &mut Vec<u8>) -> (ok: bool)
    ensures
        ok == has_stamp(usec),
        ok ==> final(b)@ == old(b)@ + stamp(usec) && stamp_laid_out(usec),
        !ok ==> final(b)@ == old(b)@,
{
    let secs: u64 = usec / 1_000_000;
    let nsec: u64 = (usec - secs * 1_000_000) * 1_000;
    match civil_from_timestamp(secs as i64, nsec as u32) {
        Some(dt) => {
            if 0 <= dt.year && dt.year <= 9999 {
                self::usec(usec, b);
                true
            } else {
                false
            }
        },
        None => false,
    }
}

} // verus!
