use history_export::export::export;
use history_export::visit::{SourceError, Visit};

const T1: u64 = 1_700_000_000_000_000;
const T2: u64 = 1_700_000_060_000_000;

fn visit(date: u64, url: &[u8], title: Option<&[u8]>) -> Visit {
    Visit { url: url.to_vec(), title: title.map(|t| t.to_vec()), date }
}

#[test]
fn export_of_nothing_is_empty() {
    assert_eq!(export(&Vec::new(), b""), Ok(Vec::new()));
}

#[test]
fn export_without_earlier_export_writes_the_rows() {
    let rows = vec![
        visit(T1, b"a.com", Some(b"A")),
        visit(T1, b"a.com", Some(b"A")),
        visit(T2, b"b.com", Some(b"B")),
    ];
    assert_eq!(
        export(&rows, b""),
        Ok(b"2023-11-14 22:13:20.000Z a.com\tA\n2023-11-14 22:14:20.000Z b.com\tB\n".to_vec())
    );
}

#[test]
fn export_without_rows_reproduces_the_earlier_export() {
    let previous: &[u8] = b"2023-11-14 22:13:20.000Z a.com\tA\n2023-11-14 22:14:20.000Z b.com\n";
    assert_eq!(export(&Vec::new(), previous), Ok(previous.to_vec()));
}

#[test]
fn export_keeps_the_title_of_the_earlier_export_on_a_tie() {
    let rows = vec![visit(1_704_067_200_000_000, b"example.com", Some(b"NewTitle"))];
    let previous: &[u8] = b"2024-01-01 00:00:00.000Z example.com\tOldTitle\n";
    assert_eq!(export(&rows, previous), Ok(previous.to_vec()));
}

#[test]
fn export_interleaves_rows_and_lines_by_key() {
    let rows = vec![
        visit(T1, b"a.com", Some(b"fresh a")),
        visit(T2, b"a.com", None),
        visit(T2, b"c.com", Some(b"fresh c")),
    ];
    let previous: &[u8] =
        b"2023-11-14 22:13:20.000Z a.com\told a\n2023-11-14 22:14:20.000Z b.com\told b\n";
    let expected: &[u8] = b"2023-11-14 22:13:20.000Z a.com\told a\n2023-11-14 22:14:20.000Z a.com\n2023-11-14 22:14:20.000Z b.com\told b\n2023-11-14 22:14:20.000Z c.com\tfresh c\n";
    assert_eq!(export(&rows, previous), Ok(expected.to_vec()));
}

#[test]
fn export_run_twice_writes_the_same_bytes() {
    let rows = vec![
        visit(T1, b"a.com", Some(b"A")),
        visit(T1 + 5, b"a.com", Some(b"A, a moment later")),
        visit(T2, b"b.com", None),
        visit(T2 + 2_000, b"b.com", Some(b"")),
    ];
    let previous: &[u8] = b"2001-09-09 01:46:40.000Z old.example\tOld\n2023-11-14 22:14:20.000Z b.com\tkept\n";
    let first = export(&rows, previous).unwrap();
    let second = export(&rows, &first).unwrap();
    assert_eq!(second, first);
    let third = export(&Vec::new(), &first).unwrap();
    assert_eq!(third, first);
}

#[test]
fn export_deduplicates_the_earlier_export() {
    let previous: &[u8] = b"k1\tfirst\nk1\tsecond\nk1\nk2\n\n\n";
    assert_eq!(export(&Vec::new(), previous), Ok(b"k1\tfirst\nk2\n\n".to_vec()));
}

#[test]
fn export_takes_a_last_line_without_newline_as_it_is() {
    let previous: &[u8] = b"a\tx\nb";
    assert_eq!(export(&Vec::new(), previous), Ok(previous.to_vec()));
}

#[test]
fn export_refuses_a_row_beyond_year_9999() {
    let rows = vec![
        visit(T1, b"a.com", None),
        visit(253_402_300_800_000_000, b"b.com", None),
    ];
    assert_eq!(export(&rows, b"k\n"), Err(SourceError::Timestamp));
}
