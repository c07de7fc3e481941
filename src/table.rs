//! The leaf cursor over one sorted run held in memory. A run can be given an
//! unreadable block, so that the error paths of the cursors composed above it
//! can be driven.
use vstd::prelude::*;
use crate::key::{Entry, EntryView, InternalKey, HummockValue, bytes_less};
use crate::iterator::{HummockError, HummockIterator, HummockResult, drop_lt};

verus! {

/// A cursor over one sorted run. Entries from index `readable` on sit in a
/// block that cannot be fetched: reaching them fails with `error`. `seek`
/// scans the run from its first entry.
pub struct TableIterator {
    entries: Vec<Entry>,
    readable: usize,
    error: HummockError,
    pos: usize,
    valid: bool,
}

pub open spec fn entries_view(es: Seq<Entry>) -> Seq<EntryView> {
    es.map_values(|e: Entry| e@)
}

impl TableIterator {
    /// A cursor over a run whose blocks can all be fetched.
    pub fn new(entries: Vec<Entry>) -> (r: TableIterator)
        ensures
            r.wf(),
            r.whole() == entries_view(entries@),
            !r.may_fail(),
            r.rest().len() == 0,
    {
        let n = entries.len();
        TableIterator { entries, readable: n, error: HummockError::IoFailure, pos: 0, valid: false }
    }

    /// A cursor over a run whose entries from index `at` on cannot be fetched.
    pub fn with_failure(entries: Vec<Entry>, at: usize, error: HummockError) -> (r: TableIterator)
        ensures
            r.wf(),
            at < entries@.len() ==> r.whole() == entries_view(entries@).subrange(0, at as int),
            at >= entries@.len() ==> r.whole() == entries_view(entries@),
            r.may_fail() == (at < entries@.len()),
            r.rest().len() == 0,
    {
        let n = entries.len();
        let readable = if at < n { at } else { n };
        let r = TableIterator { entries, readable, error, pos: 0, valid: false };
        proof {
            assert(entries_view(entries@).subrange(0, n as int) =~= entries_view(entries@));
        }
        r
    }
}

impl HummockIterator for TableIterator {
    closed spec fn wf(&self) -> bool {
        &&& self.readable <= self.entries@.len()
        &&& self.valid ==> self.pos < self.readable
    }

    closed spec fn rest(&self) -> Seq<EntryView> {
        if self.valid {
            self.whole().subrange(self.pos as int, self.readable as int)
        } else {
            Seq::empty()
        }
    }

    closed spec fn whole(&self) -> Seq<EntryView> {
        entries_view(self.entries@).subrange(0, self.readable as int)
    }

    closed spec fn may_fail(&self) -> bool {
        self.readable < self.entries@.len()
    }

    fn next(&mut self) -> (r: HummockResult<()>) {
        proof {
            assert(self.rest().drop_first() =~= self.whole().subrange(self.pos + 1, self.readable as int));
        }
        self.pos = self.pos + 1;
        if self.pos < self.readable {
            Ok(())
        } else {
            self.valid = false;
            if self.readable < self.entries.len() {
                Err(self.error)
            } else {
                Ok(())
            }
        }
    }

    fn key(&self) -> (r: &InternalKey) {
        &self.entries[self.pos].key
    }

    fn value(&self) -> (r: &HummockValue) {
        &self.entries[self.pos].value
    }

    fn is_valid(&self) -> (r: bool) {
        self.valid
    }

    fn rewind(&mut self) -> (r: HummockResult<()>) {
        self.pos = 0;
        proof {
            assert(self.whole().subrange(0, self.readable as int) =~= self.whole());
        }
        if self.readable > 0 {
            self.valid = true;
            Ok(())
        } else {
            self.valid = false;
            if self.readable < self.entries.len() {
                Err(self.error)
            } else {
                Ok(())
            }
        }
    }

    fn seek(&mut self, key: &[u8]) -> (r: HummockResult<()>) {
        let mut i: usize = 0;
        proof {
            assert(self.whole().subrange(0, self.readable as int) =~= self.whole());
        }
        while i < self.readable && bytes_less(self.entries[i].key.user_key.as_slice(), key)
            invariant
                self.wf(),
                i <= self.readable,
                self.readable <= self.entries@.len(),
                self.whole() == old(self).whole(),
                self.may_fail() == old(self).may_fail(),
                drop_lt(self.whole(), key@) == drop_lt(
                    self.whole().subrange(i as int, self.readable as int),
                    key@,
                ),
            decreases self.readable - i,
        {
            proof {
                let s = self.whole().subrange(i as int, self.readable as int);
                assert(s[0] == self.entries@[i as int]@);
                assert(s.drop_first() =~= self.whole().subrange(i + 1, self.readable as int));
            }
            i = i + 1;
        }
        self.pos = i;
        if i < self.readable {
            proof {
                let s = self.whole().subrange(i as int, self.readable as int);
                assert(s[0] == self.entries@[i as int]@);
            }
            self.valid = true;
            Ok(())
        } else {
            self.valid = false;
            proof {
                assert(self.whole().subrange(i as int, self.readable as int) =~= Seq::<EntryView>::empty());
            }
            if self.readable < self.entries.len() {
                Err(self.error)
            } else {
                Ok(())
            }
        }
    }
}

} // verus!
