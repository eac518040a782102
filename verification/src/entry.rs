//! Records as the merge sees them, and the buffer that carries one line.

use vstd::prelude::*;

verus! {

/// The byte that ends the key of a line that carries a title.
pub const TAB: u8 = 9;

/// The byte that ends every line of an export.
pub const NEWLINE: u8 = 10;

/// A record of the history: the key that orders and identifies it, and the
/// whole line that is written for it.
pub struct Record {
    pub key: Seq<u8>,
    pub line: Seq<u8>,
}

/// How many leading bytes of `line` stand before its first tab; the whole
/// length where it holds none.
pub open spec fn tab_prefix_len(line: Seq<u8>) -> int
    decreases line.len(),
{
    if line.len() == 0 || line[0] == TAB {
        0
    } else {
        1 + tab_prefix_len(line.drop_first())
    }
}

/// The length of the key of a line of an export: up to the first tab, or,
/// absent a tab, the line without the newline that ends it.
pub open spec fn key_len(line: Seq<u8>) -> int {
    let t = tab_prefix_len(line);
    if t < line.len() {
        t
    } else if line.len() > 0 && line.last() == NEWLINE {
        line.len() - 1
    } else {
        line.len() as int
    }
}

/// The record that a line of an export stands for.
pub open spec fn line_record(line: Seq<u8>) -> Record {
    Record { key: line.take(key_len(line)), line }
}

/// `tab_prefix_len` stops at the first tab and nowhere earlier.
pub proof fn lemma_tab_prefix_len(line: Seq<u8>)
    ensures
        0 <= tab_prefix_len(line) <= line.len(),
        forall|j: int| 0 <= j < tab_prefix_len(line) ==> line[j] != TAB,
        tab_prefix_len(line) < line.len() ==> line[tab_prefix_len(line)] == TAB,
    decreases line.len(),
{
    if line.len() > 0 && line[0] != TAB {
        let rest = line.drop_first();
        lemma_tab_prefix_len(rest);
        assert forall|j: int| 0 <= j < tab_prefix_len(line) implies line[j] != TAB by {
            if j > 0 {
                assert(line[j] == rest[j - 1]);
            }
        }
    }
}

/// A buffer for one line together with the length of its key.
pub struct EntryBuf {
    str: Vec<u8>,
    pre: usize,
}

impl View for EntryBuf {
    type V = Record;

    closed spec fn view(&self) -> Record {
        Record { key: self.str@.take(self.pre as int), line: self.str@ }
    }
}

impl EntryBuf {
    #[verifier::type_invariant]
    spec fn key_within_line(self) -> bool {
        self.pre <= self.str@.len()
    }

    /// An empty buffer: no line, no key.
    pub fn new() -> (e: Self)
        ensures
            e@.line == Seq::<u8>::empty(),
            e@.key == Seq::<u8>::empty(),
    {
        EntryBuf { str: Vec::new(), pre: 0 }
    }

    /// The key of the buffered line.
    pub fn prefix(&self) -> (key: &[u8])
        ensures
            key@ == self@.key,
    {
        proof {
            use_type_invariant(self);
        }
        let s = self.str.as_slice();
        let k = &s[0..self.pre];
        assert(k@ =~= self@.key);
        k
    }

    /// The buffered line, as it is written to an export.
    pub fn line(&self) -> (line: &[u8])
        ensures
            line@ == self@.line,
    {
        self.str.as_slice()
    }

    /// A buffer of its own with the same line and key.
    pub fn duplicate(&self) -> (e: Self)
        ensures
            e@ == self@,
    {
        proof {
            use_type_invariant(self);
        }
        let mut str: Vec<u8> = Vec::new();
        str.extend_from_slice(self.str.as_slice());
        assert(str@ =~= self.str@);
        EntryBuf { str, pre: self.pre }
    }

    /// Takes the bytes of `line` as the buffered line, the first `pre` of
    /// them as its key.
    pub(crate) fn from_parts(line: Vec<u8>, pre: usize) -> (e: Self)
        requires
            pre <= line@.len(),
        ensures
            e@ == (Record { key: line@.take(pre as int), line: line@ }),
    {
        EntryBuf { str: line, pre }
    }
}

/// The index of the first tab of `line`, or its length where it holds none.
fn find_tab(line: &[u8]) -> (k: usize)
    ensures
        k == tab_prefix_len(line@),
        k <= line@.len(),
{
    let mut i: usize = 0;
    proof {
        assert(line@.skip(0) =~= line@);
    }
    while i < line.len() && line[i] != TAB
        invariant
            i <= line.len(),
            tab_prefix_len(line@) == i + tab_prefix_len(line@.skip(i as int)),
        decreases line.len() - i,
    {
        proof {
            assert(line@.skip(i as int).drop_first() =~= line@.skip(i + 1));
        }
        i += 1;
    }
    i
}

/// Takes a line that was read from an earlier export into `e`, and says
/// whether there was one: an empty `line` is the end of the export, and
/// leaves `e` as it was.
pub fn file_next(line: Vec<u8>, e: &mut EntryBuf) -> (more: bool)
    ensures
        more == (line@.len() > 0),
        more ==> final(e)@ == line_record(line@),
        !more ==> final(e)@ == old(e)@,
{
    let n = line.len();
    if n == 0 {
        return false;
    }
    let t = find_tab(line.as_slice());
    let pre = if t < n {
        t
    } else if line[n - 1] == NEWLINE {
        n - 1
    } else {
        n
    };
    *e = EntryBuf::from_parts(line, pre);
    true
}

/// The length of the first line of `bytes`: up to and with its first
/// newline, or all of `bytes` where it holds none.
pub open spec fn first_line_len(bytes: Seq<u8>) -> int
    decreases bytes.len(),
{
    if bytes.len() == 0 {
        0
    } else if bytes[0] == NEWLINE {
        1
    } else {
        1 + first_line_len(bytes.drop_first())
    }
}

/// The records of an export, line by line.
pub open spec fn export_records(bytes: Seq<u8>) -> Seq<Record>
    decreases bytes.len(),
{
    let n = first_line_len(bytes);
    if 0 < n <= bytes.len() {
        seq![line_record(bytes.take(n))] + export_records(bytes.skip(n))
    } else {
        Seq::empty()
    }
}

/// The first line of a text that is not empty is not empty and ends where
/// the text ends or earlier; a newline is its last byte and no other.
pub proof fn lemma_first_line_len(bytes: Seq<u8>)
    ensures
        0 <= first_line_len(bytes) <= bytes.len(),
        bytes.len() > 0 ==> first_line_len(bytes) > 0,
        forall|j: int| 0 <= j < first_line_len(bytes) - 1 ==> bytes[j] != NEWLINE,
        first_line_len(bytes) < bytes.len() ==> bytes[first_line_len(bytes) - 1] == NEWLINE,
    decreases bytes.len(),
{
    if bytes.len() > 0 && bytes[0] != NEWLINE {
        let rest = bytes.drop_first();
        lemma_first_line_len(rest);
        assert forall|j: int| 0 <= j < first_line_len(bytes) - 1 implies bytes[j] != NEWLINE by {
            if j > 0 {
                assert(bytes[j] == rest[j - 1]);
            }
        }
        if first_line_len(bytes) < bytes.len() {
            assert(bytes[first_line_len(bytes) - 1] == rest[first_line_len(rest) - 1]);
        }
    }
}

/// The line of `bytes` that starts at `from`, with the newline that ends
/// it; empty at the end of `bytes`.
pub fn read_line(bytes: &[u8], from: usize) -> (line: Vec<u8>)
    ensures
        from <= bytes@.len() ==> line@ == bytes@.skip(from as int).take(
            first_line_len(bytes@.skip(from as int)),
        ),
        from > bytes@.len() ==> line@ == Seq::<u8>::empty(),
{
    let mut line: Vec<u8> = Vec::new();
    if from > bytes.len() {
        return line;
    }
    let ghost rest = bytes@.skip(from as int);
    let mut i: usize = from;
    proof {
        assert(rest.skip(0) =~= rest);
        assert(line@ =~= rest.take(0));
    }
    while i < bytes.len()
        invariant
            from <= i <= bytes.len(),
            rest == bytes@.skip(from as int),
            line@ == rest.take(i - from),
            first_line_len(rest) == i - from + first_line_len(rest.skip(i - from)),
        decreases bytes.len() - i,
    {
        let b: u8 = bytes[i];
        line.push(b);
        proof {
            assert(rest[i - from] == b);
            assert(rest.skip(i - from)[0] == b);
            assert(rest.skip(i - from).drop_first() =~= rest.skip(i + 1 - from));
            assert(line@ =~= rest.take(i + 1 - from));
        }
        i += 1;
        if b == NEWLINE {
            return line;
        }
    }
    proof {
        assert(rest.skip(i - from).len() == 0);
    }
    line
}

} // verus!
