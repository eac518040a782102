use history_export::entry::{file_next, EntryBuf};
use history_export::merge::merge;
use history_export::visit::{db_next, SourceError, Visit};

const T1: u64 = 1_700_000_000_000_000;
const T2: u64 = 1_700_000_001_500_000;

fn visit(date: u64, url: &[u8], title: Option<&[u8]>) -> Visit {
    Visit { url: url.to_vec(), title: title.map(|t| t.to_vec()), date }
}

fn record(date: u64, url: &[u8], title: Option<&[u8]>) -> EntryBuf {
    let mut e = EntryBuf::new();
    assert_eq!(db_next(Some(&visit(date, url, title)), &mut e), Ok(true));
    e
}

#[test]
fn db_next_writes_key_tab_title_newline() {
    let e = record(T1, b"https://a.com/", Some(b"A"));
    assert_eq!(e.line(), b"2023-11-14 22:13:20.000Z https://a.com/\tA\n");
    assert_eq!(e.prefix(), b"2023-11-14 22:13:20.000Z https://a.com/");
}

#[test]
fn db_next_without_title_writes_no_tab() {
    let e = record(T2, b"b.com", None);
    assert_eq!(e.line(), b"2023-11-14 22:13:21.500Z b.com\n");
    assert_eq!(e.prefix(), b"2023-11-14 22:13:21.500Z b.com");
}

#[test]
fn db_next_treats_an_empty_title_as_none() {
    let e = record(T2, b"b.com", Some(b""));
    assert_eq!(e.line(), b"2023-11-14 22:13:21.500Z b.com\n");
    assert_eq!(e.prefix(), b"2023-11-14 22:13:21.500Z b.com");
}

#[test]
fn db_next_keeps_tabs_of_the_title() {
    let e = record(0, b"u", Some(b"a\tb"));
    assert_eq!(e.line(), b"1970-01-01 00:00:00.000Z u\ta\tb\n");
    assert_eq!(e.prefix(), b"1970-01-01 00:00:00.000Z u");
}

#[test]
fn db_next_at_the_end_of_the_rows() {
    let mut e = record(T1, b"a.com", None);
    assert_eq!(db_next(None, &mut e), Ok(false));
    assert_eq!(e.line(), b"2023-11-14 22:13:20.000Z a.com\n");
}

#[test]
fn db_next_refuses_a_time_beyond_year_9999() {
    let mut e = record(T1, b"a.com", None);
    let far = visit(253_402_300_800_000_000, b"b.com", Some(b"B"));
    assert_eq!(db_next(Some(&far), &mut e), Err(SourceError::Timestamp));
    assert_eq!(e.line(), b"2023-11-14 22:13:20.000Z a.com\n");
    assert_eq!(e.prefix(), b"2023-11-14 22:13:20.000Z a.com");
}

#[test]
fn source_error_says_what_is_wrong() {
    assert_eq!(SourceError::Timestamp.message(), "visit time cannot be written as a timestamp");
}

#[test]
fn a_written_line_reads_back_with_the_same_key() {
    for title in [None, Some(&b""[..]), Some(&b"Title"[..]), Some(&b"with\ttab"[..])] {
        let written = record(T1, b"https://example.com/path?q=1", title);
        let mut read = EntryBuf::new();
        assert!(file_next(written.line().to_vec(), &mut read));
        assert_eq!(read.prefix(), written.prefix());
        assert_eq!(read.line(), written.line());
    }
}

#[test]
fn fresh_duplicates_collapse_with_no_merge_file() {
    let fresh = vec![
        record(T1, b"a.com", Some(b"A")),
        record(T1, b"a.com", Some(b"A")),
        record(T2, b"b.com", Some(b"B")),
    ];
    let out = merge(&fresh, &Vec::new());
    assert_eq!(
        out,
        b"2023-11-14 22:13:20.000Z a.com\tA\n2023-11-14 22:13:21.500Z b.com\tB\n".to_vec()
    );
}

#[test]
fn fresh_record_loses_a_tie_against_the_export() {
    let fresh = vec![record(1_704_067_200_000_000, b"example.com", Some(b"NewTitle"))];
    let mut old = EntryBuf::new();
    assert!(file_next(b"2024-01-01 00:00:00.000Z example.com\tOldTitle\n".to_vec(), &mut old));
    let out = merge(&fresh, &vec![old]);
    assert_eq!(out, b"2024-01-01 00:00:00.000Z example.com\tOldTitle\n".to_vec());
}

#[test]
fn visits_within_one_millisecond_share_a_key() {
    let fresh = vec![
        record(T1, b"a.com", Some(b"first")),
        record(T1 + 999, b"a.com", Some(b"second")),
        record(T1 + 1_000, b"a.com", Some(b"third")),
    ];
    let out = merge(&fresh, &Vec::new());
    assert_eq!(
        out,
        b"2023-11-14 22:13:20.000Z a.com\tfirst\n2023-11-14 22:13:20.001Z a.com\tthird\n".to_vec()
    );
}
