//! The two-source merge: which source is drained next, the order in which
//! records reach the sink, and which of them survive.

use vstd::prelude::*;
use crate::bytes::{le, lex_le};
use crate::dedup::{accepts, Dedup};
use crate::entry::{EntryBuf, Record};

verus! {

/// What the merge does next.
#[derive(Clone, Copy, Debug, PartialEq, Eq, Structural)]
pub enum Turn {
    /// The record at the head of the earlier export goes to the sink.
    File,
    /// The record at the head of the fresh source goes to the sink.
    Fresh,
    /// Both sources are exhausted.
    Done,
}

/// The turn for the keys at the heads of the two sources, `None` standing
/// for an exhausted source. The smaller key goes first, and on equal keys
/// the earlier export goes before the fresh source.
pub open spec fn turn_for(fresh: Option<Seq<u8>>, file: Option<Seq<u8>>) -> Turn {
    match (fresh, file) {
        (None, None) => Turn::Done,
        (None, Some(_)) => Turn::File,
        (Some(_), None) => Turn::Fresh,
        (Some(a), Some(b)) => if lex_le(b, a) {
            Turn::File
        } else {
            Turn::Fresh
        },
    }
}

/// The key at the head of a sequence of records, if it has one.
pub open spec fn head_key(s: Seq<Record>) -> Option<Seq<u8>> {
    if s.len() > 0 {
        Some(s[0].key)
    } else {
        None
    }
}

/// The order in which the records of the two sources reach the sink.
pub open spec fn merge_order(fresh: Seq<Record>, file: Seq<Record>) -> Seq<Record>
    decreases fresh.len() + file.len(),
{
    match turn_for(head_key(fresh), head_key(file)) {
        Turn::Done => Seq::empty(),
        Turn::File => seq![file[0]] + merge_order(fresh, file.drop_first()),
        Turn::Fresh => seq![fresh[0]] + merge_order(fresh.drop_first(), file),
    }
}

/// The records of `s` that are written when `last` is the key of the record
/// written before them, if any was: each record whose key differs from that
/// of the record written last.
pub open spec fn survivors_after(last: Option<Seq<u8>>, s: Seq<Record>) -> Seq<Record>
    decreases s.len(),
{
    if s.len() == 0 {
        Seq::empty()
    } else if accepts(last, s[0].key) {
        seq![s[0]] + survivors_after(Some(s[0].key), s.drop_first())
    } else {
        survivors_after(last, s.drop_first())
    }
}

/// The records of `s` that a sink with nothing written yet writes.
pub open spec fn survivors(s: Seq<Record>) -> Seq<Record> {
    survivors_after(None, s)
}

/// The records that a merge of the two sources writes, in order.
pub open spec fn merged(fresh: Seq<Record>, file: Seq<Record>) -> Seq<Record> {
    survivors(merge_order(fresh, file))
}

/// The lines of the records of `s`, one after the other.
pub open spec fn lines(s: Seq<Record>) -> Seq<u8>
    decreases s.len(),
{
    if s.len() == 0 {
        Seq::empty()
    } else {
        s[0].line + lines(s.drop_first())
    }
}

/// The records that the buffers of `v` hold.
pub open spec fn records(v: Seq<EntryBuf>) -> Seq<Record> {
    v.map_values(|e: EntryBuf| e@)
}

/// Decides from the records at the heads of the two sources which of them
/// goes to the sink next; `None` stands for an exhausted source.
pub fn next_turn(fresh: Option<&EntryBuf>, file: Option<&EntryBuf>) -> (t: Turn)
    ensures
        t == turn_for(
            match fresh {
                Some(e) => Some(e@.key),
                None => None,
            },
            match file {
                Some(e) => Some(e@.key),
                None => None,
            },
        ),
{
    match (fresh, file) {
        (None, None) => Turn::Done,
        (None, Some(_)) => Turn::File,
        (Some(_), None) => Turn::Fresh,
        (Some(a), Some(b)) => if le(b.prefix(), a.prefix()) {
            Turn::File
        } else {
            Turn::Fresh
        },
    }
}

/// The key at the head of a source: that of `e` where the source is live.
pub open spec fn live_key(live: bool, e: Record) -> Option<Seq<u8>> {
    if live {
        Some(e.key)
    } else {
        None
    }
}

/// One step of the merge. `fresh` and `file` hold the records at the heads
/// of the two sources, as far as `fresh_live` and `file_live` say that the
/// source has one. The record whose turn it is goes to `d` and its buffer
/// is left empty for the caller to fill again from that source; the turn
/// is returned.
pub fn step(
    d: &mut Dedup,
    fresh_live: bool,
    fresh: &mut EntryBuf,
    file_live: bool,
    file: &mut EntryBuf,
) -> (t: Turn)
    ensures
        t == turn_for(live_key(fresh_live, old(fresh)@), live_key(file_live, old(file)@)),
        match t {
            Turn::File => {
                &&& final(d).after_put(old(d), old(file)@)
                &&& final(file)@.line == Seq::<u8>::empty()
                &&& final(file)@.key == Seq::<u8>::empty()
                &&& final(fresh)@ == old(fresh)@
            },
            Turn::Fresh => {
                &&& final(d).after_put(old(d), old(fresh)@)
                &&& final(fresh)@.line == Seq::<u8>::empty()
                &&& final(fresh)@.key == Seq::<u8>::empty()
                &&& final(file)@ == old(file)@
            },
            Turn::Done => {
                &&& final(d).written() == old(d).written()
                &&& final(d).last_key() == old(d).last_key()
                &&& final(fresh)@ == old(fresh)@
                &&& final(file)@ == old(file)@
            },
        },
{
    let t = next_turn(
        if fresh_live {
            Some(&*fresh)
        } else {
            None
        },
        if file_live {
            Some(&*file)
        } else {
            None
        },
    );
    match t {
        Turn::File => d.put(file),
        Turn::Fresh => d.put(fresh),
        Turn::Done => {},
    }
    t
}

/// Writing one more record and then the survivors of the rest is writing
/// the survivors of the whole.
proof fn lemma_survivors_step(last: Option<Seq<u8>>, r: Record, rest: Seq<Record>)
    ensures
        lines(survivors_after(last, seq![r] + rest)) == if accepts(last, r.key) {
            r.line + lines(survivors_after(Some(r.key), rest))
        } else {
            lines(survivors_after(last, rest))
        },
{
    let s = seq![r] + rest;
    assert(s.drop_first() =~= rest);
    if accepts(last, r.key) {
        let t = seq![r] + survivors_after(Some(r.key), rest);
        assert(t.drop_first() =~= survivors_after(Some(r.key), rest));
    }
}

/// What a source held in memory still has to deliver when `next` of its
/// records were taken from it, the last of them into the buffer at its
/// head where `live` says so.
pub open spec fn pending(s: Seq<Record>, next: int, live: bool) -> Seq<Record> {
    if live {
        s.skip(next - 1)
    } else {
        Seq::empty()
    }
}

/// Takes the next record of a source held in memory into `e`, and says
/// whether there was one.
fn advance(source: &Vec<EntryBuf>, next: &mut usize, e: &mut EntryBuf) -> (live: bool)
    requires
        *old(next) <= source.len(),
    ensures
        live == (*old(next) < source.len()),
        live ==> *final(next) == *old(next) + 1 && final(e)@ == source[*old(next) as int]@,
        !live ==> *final(next) == *old(next) && final(e)@ == old(e)@,
{
    if *next < source.len() {
        *e = source[*next].duplicate();
        *next = *next + 1;
        true
    } else {
        false
    }
}

/// Merges two sources held in memory: the lines of the records that
/// survive, in the order in which they are written.
pub fn merge(fresh: &Vec<EntryBuf>, file: &Vec<EntryBuf>) -> (out: Vec<u8>)
    ensures
        out@ == lines(merged(records(fresh@), records(file@))),
{
    let ghost a = records(fresh@);
    let ghost b = records(file@);
    let mut d = Dedup::new(Vec::new());
    let mut i: usize = 0;
    let mut j: usize = 0;
    let mut dbe = EntryBuf::new();
    let mut fie = EntryBuf::new();
    let mut dbn = advance(fresh, &mut i, &mut dbe);
    let mut fin = advance(file, &mut j, &mut fie);
    proof {
        assert(pending(a, i as int, dbn) =~= a);
        assert(pending(b, j as int, fin) =~= b);
        assert(Seq::<u8>::empty() + lines(merged(a, b)) =~= lines(merged(a, b)));
    }
    loop
        invariant
            a == records(fresh@),
            b == records(file@),
            i <= fresh.len(),
            j <= file.len(),
            dbn ==> i >= 1 && dbe@ == a[i - 1],
            fin ==> j >= 1 && fie@ == b[j - 1],
            !dbn ==> i == fresh.len(),
            !fin ==> j == file.len(),
            d.written() + lines(
                survivors_after(
                    d.last_key(),
                    merge_order(pending(a, i as int, dbn), pending(b, j as int, fin)),
                ),
            ) == lines(merged(a, b)),
        ensures
            d.written() == lines(merged(a, b)),
        decreases
                (if dbn { 1int } else { 0 }) + fresh.len() - i
                + (if fin { 1int } else { 0 }) + file.len() - j,
    {
        let ghost rest_a = pending(a, i as int, dbn);
        let ghost rest_b = pending(b, j as int, fin);
        let ghost before = d.written();
        let ghost last = d.last_key();
        match step(&mut d, dbn, &mut dbe, fin, &mut fie) {
            Turn::Done => {
                proof {
                    assert(before + Seq::<u8>::empty() =~= before);
                }
                break ;
            },
            Turn::File => {
                let ghost r = b[j - 1];
                fin = advance(file, &mut j, &mut fie);
                proof {
                    let next_b = pending(b, j as int, fin);
                    assert(rest_b.drop_first() =~= next_b);
                    lemma_survivors_step(last, r, merge_order(rest_a, next_b));
                    assert(before + (r.line + lines(
                        survivors_after(Some(r.key), merge_order(rest_a, next_b)),
                    )) =~= before + r.line + lines(
                        survivors_after(Some(r.key), merge_order(rest_a, next_b)),
                    ));
                }
            },
            Turn::Fresh => {
                let ghost r = a[i - 1];
                dbn = advance(fresh, &mut i, &mut dbe);
                proof {
                    let next_a = pending(a, i as int, dbn);
                    assert(rest_a.drop_first() =~= next_a);
                    lemma_survivors_step(last, r, merge_order(next_a, rest_b));
                    assert(before + (r.line + lines(
                        survivors_after(Some(r.key), merge_order(next_a, rest_b)),
                    )) =~= before + r.line + lines(
                        survivors_after(Some(r.key), merge_order(next_a, rest_b)),
                    ));
                }
            },
        }
    }
    d.take_written()
}

} // verus!
