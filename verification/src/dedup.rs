//! The sink side of the merge: one record per run of equal keys.

use vstd::prelude::*;
use crate::bytes::eq;
use crate::entry::{EntryBuf, Record};

verus! {

/// Whether a record with key `key` is written when `last` is the key of the
/// record written before it, if any was.
pub open spec fn accepts(last: Option<Seq<u8>>, key: Seq<u8>) -> bool {
    last != Some(key)
}

/// Writes records to an in-memory sink and drops each one whose key is that
/// of the record written just before it.
pub struct Dedup {
    e: Option<EntryBuf>,
    w: Vec<u8>,
}

impl Dedup {
    /// The key of the record that was written last; `None` until one is.
    pub closed spec fn last_key(&self) -> Option<Seq<u8>> {
        match self.e {
            Some(e) => Some(e@.key),
            None => None,
        }
    }

    /// The bytes that the sink holds.
    pub closed spec fn written(&self) -> Seq<u8> {
        self.w@
    }

    /// A deduplicating writer on top of the sink `w`, with nothing written
    /// through it yet.
    pub fn new(w: Vec<u8>) -> (d: Dedup)
        ensures
            d.last_key() == None::<Seq<u8>>,
            d.written() == w@,
    {
        Dedup { e: None, w }
    }

    /// How the writer stands after the record `r` was offered to it, as
    /// against before: where `r` is accepted its line is appended and its
    /// key remembered as the last one written; else nothing changes.
    pub open spec fn after_put(&self, before: &Dedup, r: Record) -> bool {
        if accepts(before.last_key(), r.key) {
            &&& self.written() == before.written() + r.line
            &&& self.last_key() == Some(r.key)
        } else {
            &&& self.written() == before.written()
            &&& self.last_key() == before.last_key()
        }
    }

    /// Offers the record in `e` to the sink and leaves `e` empty. The line
    /// is written at once, and the record remembered as the last one
    /// written, unless its key is that of the last one written.
    pub fn put(&mut self, e: &mut EntryBuf)
        ensures
            final(self).after_put(old(self), old(e)@),
            final(e)@.line == Seq::<u8>::empty(),
            final(e)@.key == Seq::<u8>::empty(),
    {
        let fresh = match &self.e {
            Some(last) => !eq(e.prefix(), last.prefix()),
            None => true,
        };
        let mut taken = EntryBuf::new();
        std::mem::swap(e, &mut taken);
        if fresh {
            self.w.extend_from_slice(taken.line());
            assert(self.w@ =~= old(self).w@ + taken@.line);
            self.e = Some(taken);
        }
    }

    /// Hands out the bytes that the sink holds and leaves it empty; which
    /// record was written last is kept.
    pub fn take_written(&mut self) -> (bytes: Vec<u8>)
        ensures
            bytes@ == old(self).written(),
            final(self).written() == Seq::<u8>::empty(),
            final(self).last_key() == old(self).last_key(),
    {
        let mut bytes: Vec<u8> = Vec::new();
        std::mem::swap(&mut self.w, &mut bytes);
        bytes
    }

    /// How many bytes the sink holds.
    pub fn pending(&self) -> (n: usize)
        ensures
            n == self.written().len(),
    {
        self.w.len()
    }
}

} // verus!
