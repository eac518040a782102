use history_export::timefmt::{itoa, rfc3339, try_usec, usec, CivilTime};

fn digits_of(i: u32, w: i32) -> Vec<u8> {
    let mut b = Vec::new();
    itoa(&mut b, i, w);
    b
}

fn stamp_of(t: u64) -> Option<Vec<u8>> {
    let mut b = Vec::new();
    if try_usec(t, &mut b) {
        Some(b)
    } else {
        assert!(b.is_empty());
        None
    }
}

#[test]
fn itoa_pads_with_zeros() {
    assert_eq!(digits_of(7, 2), b"07".to_vec());
    assert_eq!(digits_of(7, 4), b"0007".to_vec());
    assert_eq!(digits_of(0, 3), b"000".to_vec());
    assert_eq!(digits_of(12, 2), b"12".to_vec());
}

#[test]
fn itoa_writes_more_digits_than_the_width_where_needed() {
    assert_eq!(digits_of(123, 2), b"123".to_vec());
    assert_eq!(digits_of(9999, 1), b"9999".to_vec());
    assert_eq!(digits_of(5, 0), b"5".to_vec());
    assert_eq!(digits_of(5, -3), b"5".to_vec());
}

#[test]
fn itoa_of_zero_without_width_writes_nothing() {
    assert_eq!(digits_of(0, 0), Vec::<u8>::new());
    assert_eq!(digits_of(0, -1), Vec::<u8>::new());
}

#[test]
fn itoa_appends_to_the_buffer() {
    let mut b = b"x=".to_vec();
    itoa(&mut b, 42, 4);
    assert_eq!(b, b"x=0042".to_vec());
}

#[test]
fn rfc3339_writes_fixed_width_fields() {
    let t = CivilTime { year: 987, month: 6, day: 5, hour: 4, minute: 3, second: 2, nanosecond: 1_999_999 };
    let mut b = Vec::new();
    rfc3339(&t, &mut b);
    assert_eq!(b, b"0987-06-05 04:03:02.001Z".to_vec());
}

#[test]
fn rfc3339_cuts_the_fraction_to_milliseconds() {
    let t = CivilTime { year: 2024, month: 12, day: 31, hour: 23, minute: 59, second: 59, nanosecond: 999_999_999 };
    let mut b = b"at ".to_vec();
    rfc3339(&t, &mut b);
    assert_eq!(b, b"at 2024-12-31 23:59:59.999Z".to_vec());
}

#[test]
fn usec_of_zero_is_the_start_of_1970() {
    let mut b = Vec::new();
    usec(0, &mut b);
    assert_eq!(b, b"1970-01-01 00:00:00.000Z".to_vec());
}

#[test]
fn usec_writes_date_and_time_in_utc() {
    let mut b = Vec::new();
    usec(1_000_000_000_123_456, &mut b);
    assert_eq!(b, b"2001-09-09 01:46:40.123Z".to_vec());
    let mut c = Vec::new();
    usec(1_709_210_096_789_000, &mut c);
    assert_eq!(c, b"2024-02-29 12:34:56.789Z".to_vec());
}

#[test]
fn usec_truncates_microseconds() {
    assert_eq!(stamp_of(999), Some(b"1970-01-01 00:00:00.000Z".to_vec()));
    assert_eq!(stamp_of(1_000), Some(b"1970-01-01 00:00:00.001Z".to_vec()));
    assert_eq!(stamp_of(1_999_999), Some(b"1970-01-01 00:00:01.999Z".to_vec()));
}

#[test]
fn usec_appends_to_the_buffer() {
    let mut b = b"visited ".to_vec();
    usec(86_400_000_000, &mut b);
    assert_eq!(b, b"visited 1970-01-02 00:00:00.000Z".to_vec());
}

#[test]
fn stamps_are_24_bytes_and_sort_like_the_times() {
    let times: [u64; 7] = [
        0,
        999,
        1_000,
        59_999_999,
        60_000_000,
        1_700_000_000_000_000,
        253_402_300_799_999_999,
    ];
    let stamps: Vec<Vec<u8>> = times.iter().map(|t| stamp_of(*t).unwrap()).collect();
    for s in stamps.iter() {
        assert_eq!(s.len(), 24);
    }
    for pair in stamps.windows(2) {
        assert!(pair[0] <= pair[1]);
    }
    assert!(stamps[1] < stamps[2]);
}

#[test]
fn try_usec_accepts_the_last_moment_of_year_9999() {
    assert_eq!(stamp_of(253_402_300_799_999_999), Some(b"9999-12-31 23:59:59.999Z".to_vec()));
}

#[test]
fn try_usec_refuses_years_of_five_digits() {
    assert_eq!(stamp_of(253_402_300_800_000_000), None);
    assert_eq!(stamp_of(u64::MAX), None);
}

#[test]
fn try_usec_leaves_the_buffer_alone_when_it_refuses() {
    let mut b = b"kept".to_vec();
    assert!(!try_usec(u64::MAX, &mut b));
    assert_eq!(b, b"kept".to_vec());
}

fn text_of(t: &CivilTime) -> Vec<u8> {
    let mut b = Vec::new();
    rfc3339(t, &mut b);
    b
}

fn moment(year: i32, month: u32, day: u32, hour: u32, minute: u32, second: u32, nanosecond: u32) -> CivilTime {
    CivilTime { year, month, day, hour, minute, second, nanosecond }
}

#[test]
fn rfc3339_texts_sort_like_the_moments() {
    let ascending = [
        moment(0, 1, 1, 0, 0, 0, 0),
        moment(999, 12, 31, 23, 59, 59, 999_000_000),
        moment(1000, 1, 1, 0, 0, 0, 0),
        moment(2024, 1, 31, 23, 0, 0, 0),
        moment(2024, 2, 1, 0, 0, 0, 0),
        moment(2024, 2, 1, 0, 0, 0, 1_000_000),
        moment(2024, 2, 1, 0, 0, 9, 0),
        moment(2024, 2, 1, 0, 10, 0, 0),
        moment(2024, 2, 1, 9, 0, 0, 0),
        moment(2024, 2, 10, 0, 0, 0, 0),
        moment(2024, 10, 1, 0, 0, 0, 0),
        moment(9999, 12, 31, 23, 59, 59, 999_999_999),
    ];
    let texts: Vec<Vec<u8>> = ascending.iter().map(text_of).collect();
    for t in texts.iter() {
        assert_eq!(t.len(), 24);
    }
    for pair in texts.windows(2) {
        assert!(pair[0] < pair[1]);
    }
}

#[test]
fn rfc3339_of_moments_within_one_millisecond_is_the_same() {
    let a = moment(2024, 2, 1, 3, 4, 5, 6_000_000);
    let b = moment(2024, 2, 1, 3, 4, 5, 6_999_999);
    assert_eq!(text_of(&a), text_of(&b));
    assert_eq!(text_of(&a), b"2024-02-01 03:04:05.006Z".to_vec());
}

#[test]
fn usec_time_of_day_follows_from_the_count_alone() {
    let day: u64 = 86_400_000_000;
    for t in [0u64, 19_000 * day, 19_723 * day] {
        let s = stamp_of(t + 45_296_789_012).unwrap();
        assert_eq!(&s[10..], b" 12:34:56.789Z");
    }
}
