//! A whole run held in memory: from the rows of the query and the bytes of
//! the earlier export to the bytes of the new export.

use vstd::prelude::*;
use crate::bytes::{free_of, lemma_free_of_concat};
use crate::entry::{
    export_records,
    file_next,
    first_line_len,
    lemma_first_line_len,
    line_record,
    read_line,
    EntryBuf,
    Record,
    NEWLINE,
    TAB,
};
use crate::laws::{
    lemma_merge_self,
    lemma_merged_from_sources,
    lemma_merged_one_source,
    lemma_remerge,
    sorted,
    strictly_sorted,
};
use crate::merge::{lines, merge, merged, records};
use crate::timefmt::has_stamp;
use crate::visit::{
    db_next,
    lemma_visit_key_free_of,
    lemma_visit_line_reads_back,
    title_part,
    visit_key,
    visit_record,
    SourceError,
    Visit,
};

verus! {

/// The records that are written for the rows of a query.
pub open spec fn visit_records(rows: Seq<Visit>) -> Seq<Record> {
    rows.map_values(|v: Visit| v.record())
}

/// The time of every row can be written as a timestamp.
pub open spec fn all_stamped(rows: Seq<Visit>) -> bool {
    forall|i: int| 0 <= i < rows.len() ==> has_stamp((#[trigger] rows[i]).date)
}

/// The bytes of the export that a run writes from the fresh records and
/// the bytes of the earlier export.
pub open spec fn exported(fresh: Seq<Record>, previous: Seq<u8>) -> Seq<u8> {
    lines(merged(fresh, export_records(previous)))
}

fn fresh_entries(rows: &Vec<Visit>) -> (r: Result<Vec<EntryBuf>, SourceError>)
    ensures
        all_stamped(rows@) ==> (r matches Ok(v) && records(v@) == visit_records(rows@)),
        !all_stamped(rows@) ==> r is Err,
{
    let mut v: Vec<EntryBuf> = Vec::new();
    let mut i: usize = 0;
    while i < rows.len()
        invariant
            i <= rows.len(),
            v.len() == i,
            forall|k: int| 0 <= k < i ==> has_stamp((#[trigger] rows[k]).date),
            forall|k: int| 0 <= k < i ==> (#[trigger] v[k])@ == rows[k].record(),
        decreases rows.len() - i,
    {
        let mut e = EntryBuf::new();
        match db_next(Some(&rows[i]), &mut e) {
            Ok(_) => {
                v.push(e);
            },
            Err(err) => {
                return Err(err);
            },
        }
        i += 1;
    }
    assert(records(v@) =~= visit_records(rows@));
    Ok(v)
}

fn file_entries(previous: &[u8]) -> (v: Vec<EntryBuf>)
    ensures
        records(v@) == export_records(previous@),
{
    let mut v: Vec<EntryBuf> = Vec::new();
    let mut pos: usize = 0;
    proof {
        assert(previous@.skip(0) =~= previous@);
        assert(records(v@) + export_records(previous@) =~= export_records(previous@));
    }
    loop
        invariant
            pos <= previous.len(),
            export_records(previous@) == records(v@) + export_records(previous@.skip(pos as int)),
        ensures
            records(v@) == export_records(previous@),
        decreases previous.len() - pos,
    {
        let ghost rest = previous@.skip(pos as int);
        let ghost before = records(v@);
        let line = read_line(previous, pos);
        let n: usize = line.len();
        proof {
            lemma_first_line_len(rest);
        }
        let mut e = EntryBuf::new();
        if !file_next(line, &mut e) {
            proof {
                assert(before + Seq::<Record>::empty() =~= before);
            }
            break ;
        }
        v.push(e);
        pos += n;
        proof {
            assert(rest.skip(n as int) =~= previous@.skip(pos as int));
            assert(records(v@) =~= before + seq![line_record(rest.take(n as int))]);
            assert(before + (seq![line_record(rest.take(n as int))] + export_records(
                previous@.skip(pos as int),
            )) =~= before + seq![line_record(rest.take(n as int))] + export_records(
                previous@.skip(pos as int),
            ));
        }
    }
    v
}

/// Runs a whole merge in memory: the rows of the query, in the order in
/// which the query delivers them, against the bytes of the earlier export,
/// empty where there is none. The result is the new export; a row whose
/// time cannot be written as a timestamp is an error.
pub fn export(rows: &Vec<Visit>, previous: &[u8]) -> (r: Result<Vec<u8>, SourceError>)
    ensures
        all_stamped(rows@) ==> (r matches Ok(out) && out@ == exported(
            visit_records(rows@),
            previous@,
        )),
        !all_stamped(rows@) ==> (r matches Err(e) && e == SourceError::Timestamp),
{
    let fresh = match fresh_entries(rows) {
        Ok(fresh) => fresh,
        Err(_) => {
            return Err(SourceError::Timestamp);
        },
    };
    let file = file_entries(previous);
    Ok(merge(&fresh, &file))
}

/// Splitting an export into lines loses nothing: the lines of its records,
/// one after the other, are the export.
pub proof fn lemma_lines_of_export_records(bytes: Seq<u8>)
    ensures
        lines(export_records(bytes)) == bytes,
    decreases bytes.len(),
{
    let n = first_line_len(bytes);
    lemma_first_line_len(bytes);
    if 0 < n <= bytes.len() {
        lemma_lines_of_export_records(bytes.skip(n));
        let r = line_record(bytes.take(n));
        let s = seq![r] + export_records(bytes.skip(n));
        assert(s.drop_first() =~= export_records(bytes.skip(n)));
        assert(bytes.take(n) + bytes.skip(n) =~= bytes);
    } else {
        assert(bytes =~= Seq::<u8>::empty());
    }
}

/// A record as an export holds it: its line is one line, ended by the one
/// newline in it, and its key is the key of that line.
pub open spec fn line_shaped(r: Record) -> bool {
    &&& r.line.len() > 0
    &&& r.line.last() == NEWLINE
    &&& free_of(r.line.drop_last(), NEWLINE)
    &&& r == line_record(r.line)
}

/// Every record of `s` is as an export holds it.
pub open spec fn all_line_shaped(s: Seq<Record>) -> bool {
    forall|i: int| 0 <= i < s.len() ==> line_shaped(#[trigger] s[i])
}

/// Bytes that are empty or end in a newline: an export without a broken
/// last line.
pub open spec fn newline_ended(bytes: Seq<u8>) -> bool {
    bytes.len() > 0 ==> bytes.last() == NEWLINE
}

proof fn lemma_first_line_len_is(bytes: Seq<u8>, n: int)
    requires
        0 < n <= bytes.len(),
        forall|j: int| 0 <= j < n - 1 ==> bytes[j] != NEWLINE,
        bytes[n - 1] == NEWLINE,
    ensures
        first_line_len(bytes) == n,
    decreases bytes.len(),
{
    if n > 1 {
        let rest = bytes.drop_first();
        assert forall|j: int| 0 <= j < n - 2 implies rest[j] != NEWLINE by {
            assert(rest[j] == bytes[j + 1]);
        }
        lemma_first_line_len_is(rest, n - 1);
    }
}

/// The records of an export that is empty or ends in a newline are as an
/// export holds them.
pub proof fn lemma_export_records_shaped(bytes: Seq<u8>)
    requires
        newline_ended(bytes),
    ensures
        all_line_shaped(export_records(bytes)),
    decreases bytes.len(),
{
    let n = first_line_len(bytes);
    lemma_first_line_len(bytes);
    if 0 < n <= bytes.len() {
        let line = bytes.take(n);
        let rest = bytes.skip(n);
        if rest.len() > 0 {
            assert(rest.last() == bytes.last());
        }
        lemma_export_records_shaped(rest);
        assert(line.last() == bytes[n - 1]);
        assert(free_of(line.drop_last(), NEWLINE)) by {
            assert forall|j: int| 0 <= j < line.drop_last().len() implies #[trigger] line.drop_last()[j]
                != NEWLINE by {
                assert(line.drop_last()[j] == bytes[j]);
            }
        }
        let inner = export_records(rest);
        let s = export_records(bytes);
        assert forall|i: int| 0 <= i < s.len() implies line_shaped(#[trigger] s[i]) by {
            if i > 0 {
                assert(s[i] == inner[i - 1]);
            }
        }
    }
}

/// Writing records line by line and splitting the bytes into lines again
/// gives the records back, where they are as an export holds them.
pub proof fn lemma_export_records_of_lines(s: Seq<Record>)
    requires
        all_line_shaped(s),
    ensures
        export_records(lines(s)) == s,
    decreases s.len(),
{
    if s.len() > 0 {
        let r = s[0];
        let rest = s.drop_first();
        let bytes = lines(s);
        let n = r.line.len() as int;
        assert forall|i: int| 0 <= i < rest.len() implies line_shaped(#[trigger] rest[i]) by {
            assert(rest[i] == s[i + 1]);
        }
        lemma_export_records_of_lines(rest);
        assert forall|j: int| 0 <= j < n - 1 implies bytes[j] != NEWLINE by {
            assert(bytes[j] == r.line.drop_last()[j]);
        }
        assert(bytes[n - 1] == r.line.last());
        lemma_first_line_len_is(bytes, n);
        assert(bytes.take(n) =~= r.line);
        assert(bytes.skip(n) =~= lines(rest));
        assert(seq![r] + rest =~= s);
    } else {
        assert(lines(s) =~= Seq::<u8>::empty());
        assert(export_records(lines(s)) =~= s);
    }
}

/// An address and a title that leave the line of a visit one line with the
/// key in front: no tab and no newline in the address, no newline in the
/// title.
pub open spec fn clean(url: Seq<u8>, title: Option<Seq<u8>>) -> bool {
    &&& free_of(url, TAB)
    &&& free_of(url, NEWLINE)
    &&& title matches Some(t) ==> free_of(t, NEWLINE)
}

/// The address and the title of every row are clean.
pub open spec fn all_clean(rows: Seq<Visit>) -> bool {
    forall|i: int| 0 <= i < rows.len() ==> clean((#[trigger] rows[i]).url@, rows[i].title_bytes())
}

/// The record of a visit with a clean address and title is as an export
/// holds it.
pub proof fn lemma_visit_record_shaped(url: Seq<u8>, title: Option<Seq<u8>>, date: u64)
    requires
        clean(url, title),
    ensures
        line_shaped(visit_record(url, title, date)),
{
    let r = visit_record(url, title, date);
    let key = visit_key(url, date);
    lemma_visit_line_reads_back(url, title, date);
    lemma_visit_key_free_of(url, date, NEWLINE);
    assert(free_of(title_part(title), NEWLINE)) by {
        match title {
            Some(t) => {
                if t.len() > 0 {
                    lemma_free_of_concat(seq![TAB], t, NEWLINE);
                }
            },
            None => {},
        }
    }
    lemma_free_of_concat(key, title_part(title), NEWLINE);
    assert(r.line.drop_last() =~= key + title_part(title));
}

/// Idempotence, byte for byte: an export whose keys increase, merged with
/// its own records, and merged with no fresh record at all, comes out as
/// the same bytes.
pub proof fn lemma_export_of_itself(previous: Seq<u8>)
    requires
        strictly_sorted(export_records(previous)),
    ensures
        exported(export_records(previous), previous) == previous,
        exported(Seq::empty(), previous) == previous,
{
    let s = export_records(previous);
    lemma_merge_self(s);
    lemma_merged_one_source(s);
    lemma_lines_of_export_records(previous);
}

/// Convergence, byte for byte: a second run over the same rows, against
/// the export that the first run wrote, writes the same export again.
/// Holds where both sources are in key order, the rows are clean, and the
/// earlier export has no broken last line.
pub proof fn lemma_export_converges(rows: Seq<Visit>, previous: Seq<u8>)
    requires
        sorted(visit_records(rows)),
        sorted(export_records(previous)),
        all_clean(rows),
        newline_ended(previous),
    ensures
        exported(visit_records(rows), exported(visit_records(rows), previous)) == exported(
            visit_records(rows),
            previous,
        ),
{
    let fresh = visit_records(rows);
    let file = export_records(previous);
    let out = merged(fresh, file);
    lemma_export_records_shaped(previous);
    lemma_merged_from_sources(fresh, file);
    assert forall|n: int| 0 <= n < out.len() implies line_shaped(#[trigger] out[n]) by {
        if fresh.contains(out[n]) {
            let k = choose|k: int| 0 <= k < fresh.len() && fresh[k] == out[n];
            lemma_visit_record_shaped(rows[k].url@, rows[k].title_bytes(), rows[k].date);
        } else {
            let k = choose|k: int| 0 <= k < file.len() && file[k] == out[n];
            assert(line_shaped(file[k]));
        }
    }
    lemma_export_records_of_lines(out);
    lemma_remerge(fresh, file);
}

} // verus!
