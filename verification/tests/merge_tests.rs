use history_export::dedup::Dedup;
use history_export::entry::{file_next, EntryBuf};
use history_export::merge::{merge, next_turn, step, Turn};

fn entry(line: &[u8]) -> EntryBuf {
    let mut e = EntryBuf::new();
    assert!(file_next(line.to_vec(), &mut e));
    e
}

fn entries(lines: &[&[u8]]) -> Vec<EntryBuf> {
    lines.iter().map(|l| entry(l)).collect()
}

fn split(export: &[u8]) -> Vec<EntryBuf> {
    export.split_inclusive(|b| *b == b'\n').map(entry).collect()
}

fn keys(export: &[u8]) -> Vec<Vec<u8>> {
    split(export).iter().map(|e| e.prefix().to_vec()).collect()
}

#[test]
fn tie_keeps_the_line_of_the_earlier_export() {
    let fresh = entries(&[b"2024-01-01 00:00:00.000Z example.com\tNewTitle\n"]);
    let file = entries(&[b"2024-01-01 00:00:00.000Z example.com\tOldTitle\n"]);
    let out = merge(&fresh, &file);
    assert_eq!(out, b"2024-01-01 00:00:00.000Z example.com\tOldTitle\n".to_vec());
}

#[test]
fn duplicate_fresh_records_collapse_to_one_line() {
    let fresh = entries(&[
        b"2024-01-01 00:00:00.000Z a.com\tA\n",
        b"2024-01-01 00:00:00.000Z a.com\tA\n",
        b"2024-01-02 00:00:00.000Z b.com\tB\n",
    ]);
    let out = merge(&fresh, &Vec::new());
    assert_eq!(
        out,
        b"2024-01-01 00:00:00.000Z a.com\tA\n2024-01-02 00:00:00.000Z b.com\tB\n".to_vec()
    );
}

#[test]
fn both_sources_empty_give_an_empty_output() {
    assert_eq!(merge(&Vec::new(), &Vec::new()), Vec::<u8>::new());
}

#[test]
fn empty_file_source_gives_the_fresh_records() {
    let lines: [&[u8]; 3] = [b"a 1\tx\n", b"b 2\n", b"c 3\ty\n"];
    let out = merge(&entries(&lines), &Vec::new());
    assert_eq!(out, lines.concat());
    assert_eq!(split(&out).len(), 3);
}

#[test]
fn empty_fresh_source_reproduces_the_file() {
    let lines: [&[u8]; 3] = [b"a 1\tx\n", b"b 2\n", b"c 3\ty\n"];
    let out = merge(&Vec::new(), &entries(&lines));
    assert_eq!(out, lines.concat());
}

#[test]
fn empty_fresh_source_still_deduplicates_the_file() {
    let file = entries(&[b"a\tone\n", b"a\ttwo\n", b"a\n", b"b\n", b"b\tthree\n"]);
    let out = merge(&Vec::new(), &file);
    assert_eq!(out, b"a\tone\nb\n".to_vec());
}

#[test]
fn merging_an_export_with_itself_reproduces_it() {
    let export: &[u8] = b"2023-01-01 10:00:00.000Z a.com\tA\n2023-01-01 10:00:00.000Z b.com\n2023-06-01 00:00:00.001Z a.com\tA again\n";
    let out = merge(&split(export), &split(export));
    assert_eq!(out, export.to_vec());
    let again = merge(&split(&out), &split(&out));
    assert_eq!(again, out);
}

#[test]
fn a_second_run_over_the_same_records_changes_nothing() {
    let fresh = entries(&[b"a\tnew a\n", b"c\tnew c\n", b"c\tnew c twice\n", b"e\n"]);
    let file = entries(&[b"b\told b\n", b"c\told c\n", b"d\n"]);
    let first = merge(&fresh, &file);
    assert_eq!(first, b"a\tnew a\nb\told b\nc\told c\nd\ne\n".to_vec());
    let second = merge(&fresh, &split(&first));
    assert_eq!(second, first);
}

#[test]
fn output_keys_increase() {
    let fresh = entries(&[b"a\n", b"a\tx\n", b"c\n", b"d\n", b"d\n", b"f\n"]);
    let file = entries(&[b"a\ty\n", b"b\n", b"d\tz\n", b"e\n", b"e\n"]);
    let out = merge(&fresh, &file);
    let ks = keys(&out);
    assert_eq!(ks, vec![b"a".to_vec(), b"b".to_vec(), b"c".to_vec(), b"d".to_vec(), b"e".to_vec(), b"f".to_vec()]);
    for pair in ks.windows(2) {
        assert!(pair[0] < pair[1]);
    }
}

#[test]
fn adjacent_output_keys_differ_even_for_unsorted_sources() {
    let fresh = entries(&[b"z\n", b"z\n", b"a\n", b"a\n"]);
    let file = entries(&[b"m\n", b"m\n", b"b\n"]);
    let out = merge(&fresh, &file);
    let ks = keys(&out);
    for pair in ks.windows(2) {
        assert_ne!(pair[0], pair[1]);
    }
}

#[test]
fn interleaved_run_of_one_key_keeps_the_first_in_merge_order() {
    let fresh = entries(&[b"k\tfresh 1\n", b"k\tfresh 2\n", b"k\tfresh 3\n"]);
    let file = entries(&[b"k\tfile 1\n", b"k\tfile 2\n"]);
    assert_eq!(merge(&fresh, &file), b"k\tfile 1\n".to_vec());
}

#[test]
fn long_run_in_one_source_keeps_its_first_record() {
    let fresh = entries(&[b"k\t1\n", b"k\t2\n", b"k\t3\n", b"k\t4\n", b"l\n"]);
    assert_eq!(merge(&fresh, &Vec::new()), b"k\t1\nl\n".to_vec());
}

#[test]
fn every_record_of_the_earlier_export_is_kept() {
    let fresh = entries(&[b"a\tfresh\n", b"b\tfresh\n", b"c\tfresh\n"]);
    let file = entries(&[b"a\tfile\n", b"c\tfile\n"]);
    assert_eq!(merge(&fresh, &file), b"a\tfile\nb\tfresh\nc\tfile\n".to_vec());
}

#[test]
fn a_key_that_is_a_prefix_of_another_goes_first() {
    let fresh = entries(&[b"ab\n"]);
    let file = entries(&[b"a\n", b"abc\n"]);
    assert_eq!(merge(&fresh, &file), b"a\nab\nabc\n".to_vec());
}

#[test]
fn next_turn_is_done_when_both_sources_are_exhausted() {
    assert_eq!(next_turn(None, None), Turn::Done);
}

#[test]
fn next_turn_drains_the_source_that_is_left() {
    let e = entry(b"k\n");
    assert_eq!(next_turn(Some(&e), None), Turn::Fresh);
    assert_eq!(next_turn(None, Some(&e)), Turn::File);
}

#[test]
fn next_turn_takes_the_smaller_key() {
    let a = entry(b"a\tx\n");
    let b = entry(b"b\n");
    assert_eq!(next_turn(Some(&a), Some(&b)), Turn::Fresh);
    assert_eq!(next_turn(Some(&b), Some(&a)), Turn::File);
}

#[test]
fn next_turn_on_a_tie_takes_the_file() {
    let a = entry(b"k\tfresh\n");
    let b = entry(b"k\tfile\n");
    assert_eq!(next_turn(Some(&a), Some(&b)), Turn::File);
}

#[test]
fn step_puts_the_record_whose_turn_it_is() {
    let mut d = Dedup::new(Vec::new());
    let mut fresh = entry(b"b\tfresh\n");
    let mut file = entry(b"a\tfile\n");
    assert_eq!(step(&mut d, true, &mut fresh, true, &mut file), Turn::File);
    assert_eq!(file.line(), b"");
    assert_eq!(fresh.line(), b"b\tfresh\n");
    assert_eq!(d.pending(), 7);
    assert_eq!(step(&mut d, true, &mut fresh, false, &mut file), Turn::Fresh);
    assert_eq!(fresh.line(), b"");
    assert_eq!(step(&mut d, false, &mut fresh, false, &mut file), Turn::Done);
    assert_eq!(d.take_written(), b"a\tfile\nb\tfresh\n".to_vec());
}

#[test]
fn step_ignores_the_buffer_of_an_exhausted_source() {
    let mut d = Dedup::new(Vec::new());
    let mut fresh = entry(b"z\n");
    let mut file = entry(b"a\tstale\n");
    assert_eq!(step(&mut d, true, &mut fresh, false, &mut file), Turn::Fresh);
    assert_eq!(file.line(), b"a\tstale\n");
    assert_eq!(d.take_written(), b"z\n".to_vec());
}
