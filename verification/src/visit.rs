//! Freshly queried visits and the lines that are written for them.

use vstd::prelude::*;
use crate::bytes::{free_of, lemma_free_of_concat};
use crate::entry::{key_len, line_record, tab_prefix_len, EntryBuf, Record, NEWLINE, TAB};
use crate::timefmt::{
    all_digits,
    digits,
    has_stamp,
    lemma_digits_are_digits,
    rfc3339_text,
    stamp,
    try_usec,
    usec_civil,
    CivilTime,
    COLON,
    DASH,
    DOT,
    SPACE,
    ZERO,
    ZULU,
};

verus! {

/// One visit as the history database delivers it: the address, the title
/// of the page where it has one, and the time of the visit in microseconds
/// since the start of 1970.
pub struct Visit {
    pub url: Vec<u8>,
    pub title: Option<Vec<u8>>,
    pub date: u64,
}

/// Why a visit cannot be turned into a record.
#[derive(Clone, Copy, Debug, PartialEq, Eq, Structural)]
pub enum SourceError {
    /// The time of the visit lies outside the years that a timestamp of
    /// four year digits can name.
    Timestamp,
}

impl SourceError {
    /// What went wrong, in words.
    pub fn message(&self) -> (m: &'static str)
        ensures
            m@ == "visit time cannot be written as a timestamp"@,
    {
        "visit time cannot be written as a timestamp"
    }
}

/// The key of a visit: its timestamp, a space, and its address.
pub open spec fn visit_key(url: Seq<u8>, date: u64) -> Seq<u8> {
    stamp(date) + seq![SPACE] + url
}

/// What follows the key on the line of a visit: a tab and the title, where
/// there is a title and it is not empty.
pub open spec fn title_part(title: Option<Seq<u8>>) -> Seq<u8> {
    match title {
        Some(t) => if t.len() > 0 {
            seq![TAB] + t
        } else {
            Seq::empty()
        },
        None => Seq::empty(),
    }
}

/// The record of a visit: its key, and the line that starts with the key
/// and ends with a newline.
pub open spec fn visit_record(url: Seq<u8>, title: Option<Seq<u8>>, date: u64) -> Record {
    Record {
        key: visit_key(url, date),
        line: visit_key(url, date) + title_part(title) + seq![NEWLINE],
    }
}

impl Visit {
    /// The title of the visit as plain bytes, where it has one.
    pub open spec fn title_bytes(&self) -> Option<Seq<u8>> {
        match self.title {
            Some(t) => Some(t@),
            None => None,
        }
    }

    /// The record that is written for the visit.
    pub open spec fn record(&self) -> Record {
        visit_record(self.url@, self.title_bytes(), self.date)
    }
}

/// Takes the next row of the query into `e`, and says whether there was
/// one: `None` is the end of the rows. A visit whose time cannot be
/// written as a timestamp is an error. Where no record is taken, `e` is
/// left as it was.
pub fn db_next(row: Option<&Visit>, e: &mut EntryBuf) -> (r: Result<bool, SourceError>)
    ensures
        match row {
            None => r == Ok::<bool, SourceError>(false) && final(e)@ == old(e)@,
            Some(v) => if has_stamp(v.date) {
                r == Ok::<bool, SourceError>(true) && final(e)@ == v.record()
            } else {
                r == Err::<bool, SourceError>(SourceError::Timestamp) && final(e)@ == old(e)@
            },
        },
{
    let v = match row {
        Some(v) => v,
        None => return Ok(false),
    };
    let mut line: Vec<u8> = Vec::new();
    if !try_usec(v.date, &mut line) {
        return Err(SourceError::Timestamp);
    }
    line.push(SPACE);
    line.extend_from_slice(v.url.as_slice());
    let pre: usize = line.len();
    assert(line@ =~= visit_key(v.url@, v.date));
    match &v.title {
        Some(t) => {
            if t.len() > 0 {
                line.push(TAB);
                line.extend_from_slice(t.as_slice());
            }
        },
        None => {},
    }
    assert(line@ =~= visit_key(v.url@, v.date) + title_part(v.title_bytes()));
    line.push(NEWLINE);
    assert(line@ =~= v.record().line);
    assert(line@.take(pre as int) =~= v.record().key);
    *e = EntryBuf::from_parts(line, pre);
    Ok(true)
}

/// A byte that no timestamp holds: no digit and none of the bytes that
/// stand between the fields.
pub open spec fn outside_stamps(x: u8) -> bool {
    &&& !(ZERO <= x <= ZERO + 9)
    &&& x != DASH
    &&& x != SPACE
    &&& x != COLON
    &&& x != DOT
    &&& x != ZULU
}

proof fn lemma_field_free_of(head: Seq<u8>, i: nat, w: nat, sep: u8, x: u8)
    requires
        free_of(head, x),
        outside_stamps(x),
        !outside_stamps(sep),
    ensures
        free_of(head + digits(i, w) + seq![sep], x),
{
    lemma_digits_are_digits(i, w);
    assert(all_digits(digits(i, w)));
    assert(free_of(digits(i, w), x)) by {
        assert forall|k: int| 0 <= k < digits(i, w).len() implies #[trigger] digits(i, w)[k] != x by {}
    }
    lemma_free_of_concat(head, digits(i, w), x);
    lemma_free_of_concat(head + digits(i, w), seq![sep], x);
}

/// The text of a moment holds digits and the bytes between its fields,
/// and no other byte.
pub proof fn lemma_rfc3339_text_free_of(t: CivilTime, x: u8)
    requires
        outside_stamps(x),
    ensures
        free_of(rfc3339_text(t), x),
{
    let s0 = Seq::<u8>::empty();
    let s1 = s0 + digits(t.year as nat, 4) + seq![DASH];
    let s2 = s1 + digits(t.month as nat, 2) + seq![DASH];
    let s3 = s2 + digits(t.day as nat, 2) + seq![SPACE];
    let s4 = s3 + digits(t.hour as nat, 2) + seq![COLON];
    let s5 = s4 + digits(t.minute as nat, 2) + seq![COLON];
    let s6 = s5 + digits(t.second as nat, 2) + seq![DOT];
    let s7 = s6 + digits((t.nanosecond / 1_000_000) as nat, 3) + seq![ZULU];
    lemma_field_free_of(s0, t.year as nat, 4, DASH, x);
    lemma_field_free_of(s1, t.month as nat, 2, DASH, x);
    lemma_field_free_of(s2, t.day as nat, 2, SPACE, x);
    lemma_field_free_of(s3, t.hour as nat, 2, COLON, x);
    lemma_field_free_of(s4, t.minute as nat, 2, COLON, x);
    lemma_field_free_of(s5, t.second as nat, 2, DOT, x);
    lemma_field_free_of(s6, (t.nanosecond / 1_000_000) as nat, 3, ZULU, x);
    assert(s7 =~= rfc3339_text(t));
}

/// The key of a visit holds the byte `x` only where its address does.
pub proof fn lemma_visit_key_free_of(url: Seq<u8>, date: u64, x: u8)
    requires
        free_of(url, x),
        outside_stamps(x),
    ensures
        free_of(visit_key(url, date), x),
{
    lemma_rfc3339_text_free_of(usec_civil(date).unwrap(), x);
    lemma_free_of_concat(stamp(date), seq![SPACE], x);
    lemma_free_of_concat(stamp(date) + seq![SPACE], url, x);
}

proof fn lemma_tab_prefix_len_is(line: Seq<u8>, k: int)
    requires
        0 <= k <= line.len(),
        forall|j: int| 0 <= j < k ==> line[j] != TAB,
        k < line.len() ==> line[k] == TAB,
    ensures
        tab_prefix_len(line) == k,
    decreases line.len(),
{
    if k > 0 {
        let rest = line.drop_first();
        assert forall|j: int| 0 <= j < k - 1 implies rest[j] != TAB by {
            assert(rest[j] == line[j + 1]);
        }
        lemma_tab_prefix_len_is(rest, k - 1);
    }
}

/// Reading back: the line that is written for a visit whose address holds
/// no tab, read from an export, gives the record of the visit again, key
/// and line.
pub proof fn lemma_visit_line_reads_back(url: Seq<u8>, title: Option<Seq<u8>>, date: u64)
    requires
        free_of(url, TAB),
    ensures
        line_record(visit_record(url, title, date).line) == visit_record(url, title, date),
{
    let key = visit_key(url, date);
    let line = visit_record(url, title, date).line;
    lemma_visit_key_free_of(url, date, TAB);
    assert forall|j: int| 0 <= j < key.len() implies line[j] != TAB by {
        assert(line[j] == key[j]);
    }
    if title_part(title).len() > 0 {
        assert(line[key.len() as int] == TAB);
        lemma_tab_prefix_len_is(line, key.len() as int);
    } else {
        assert(line =~= key + seq![NEWLINE]);
        lemma_tab_prefix_len_is(line, line.len() as int);
        assert(key_len(line) == line.len() - 1);
    }
    assert(line.take(key_len(line)) =~= key);
}

} // verus!
