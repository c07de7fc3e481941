//! One owning handle over every kind of cursor in the stack.
use vstd::prelude::*;
use crate::key::{EntryView, InternalKey, HummockValue};
use crate::iterator::{HummockIterator, HummockResult};
use crate::table::TableIterator;
use crate::concat::ConcatIterator;
use crate::sorted::SortedIterator;
use crate::user_key::UserKeyIterator;

verus! {

/// A cursor of any kind, dispatching each call to the one it holds.
pub enum HummockIteratorImpl {
    Table(TableIterator),
    Concat(ConcatIterator),
    Sorted(SortedIterator<ConcatIterator>),
    UserKey(UserKeyIterator<SortedIterator<ConcatIterator>>),
}

impl HummockIterator for HummockIteratorImpl {
    open spec fn wf(&self) -> bool {
        match self {
            HummockIteratorImpl::Table(it) => it.wf(),
            HummockIteratorImpl::Concat(it) => it.wf(),
            HummockIteratorImpl::Sorted(it) => it.wf(),
            HummockIteratorImpl::UserKey(it) => it.wf(),
        }
    }

    open spec fn rest(&self) -> Seq<EntryView> {
        match self {
            HummockIteratorImpl::Table(it) => it.rest(),
            HummockIteratorImpl::Concat(it) => it.rest(),
            HummockIteratorImpl::Sorted(it) => it.rest(),
            HummockIteratorImpl::UserKey(it) => it.rest(),
        }
    }

    open spec fn whole(&self) -> Seq<EntryView> {
        match self {
            HummockIteratorImpl::Table(it) => it.whole(),
            HummockIteratorImpl::Concat(it) => it.whole(),
            HummockIteratorImpl::Sorted(it) => it.whole(),
            HummockIteratorImpl::UserKey(it) => it.whole(),
        }
    }

    open spec fn may_fail(&self) -> bool {
        match self {
            HummockIteratorImpl::Table(it) => it.may_fail(),
            HummockIteratorImpl::Concat(it) => it.may_fail(),
            HummockIteratorImpl::Sorted(it) => it.may_fail(),
            HummockIteratorImpl::UserKey(it) => it.may_fail(),
        }
    }

    fn next(&mut self) -> (r: HummockResult<()>) {
        match self {
            HummockIteratorImpl::Table(it) => it.next(),
            HummockIteratorImpl::Concat(it) => it.next(),
            HummockIteratorImpl::Sorted(it) => it.next(),
            HummockIteratorImpl::UserKey(it) => it.next(),
        }
    }

    fn key(&self) -> (r: &InternalKey) {
        match self {
            HummockIteratorImpl::Table(it) => it.key(),
            HummockIteratorImpl::Concat(it) => it.key(),
            HummockIteratorImpl::Sorted(it) => it.key(),
            HummockIteratorImpl::UserKey(it) => it.key(),
        }
    }

    fn value(&self) -> (r: &HummockValue) {
        match self {
            HummockIteratorImpl::Table(it) => it.value(),
            HummockIteratorImpl::Concat(it) => it.value(),
            HummockIteratorImpl::Sorted(it) => it.value(),
            HummockIteratorImpl::UserKey(it) => it.value(),
        }
    }

    fn is_valid(&self) -> (r: bool) {
        match self {
            HummockIteratorImpl::Table(it) => it.is_valid(),
            HummockIteratorImpl::Concat(it) => it.is_valid(),
            HummockIteratorImpl::Sorted(it) => it.is_valid(),
            HummockIteratorImpl::UserKey(it) => it.is_valid(),
        }
    }

    fn rewind(&mut self) -> (r: HummockResult<()>) {
        match self {
            HummockIteratorImpl::Table(it) => it.rewind(),
            HummockIteratorImpl::Concat(it) => it.rewind(),
            HummockIteratorImpl::Sorted(it) => it.rewind(),
            HummockIteratorImpl::UserKey(it) => it.rewind(),
        }
    }

    fn seek(&mut self, key: &[u8]) -> (r: HummockResult<()>) {
        match self {
            HummockIteratorImpl::Table(it) => it.seek(key),
            HummockIteratorImpl::Concat(it) => it.seek(key),
            HummockIteratorImpl::Sorted(it) => it.seek(key),
            HummockIteratorImpl::UserKey(it) => it.seek(key),
        }
    }
}

/// Reads a positioned cursor to its end, collecting the entries.
pub fn collect<I: HummockIterator>(it: &mut I) -> (r: HummockResult<Vec<(InternalKey, HummockValue)>>)
    requires
        old(it).wf(),
    ensures
        final(it).wf(),
        final(it).rest().len() == 0,
        r is Ok ==> r->Ok_0@.len() == old(it).rest().len() && forall|i: int| 0 <= i < r->Ok_0@.len() ==>
            (#[trigger] r->Ok_0@[i]).0.user_key@ == old(it).rest()[i].user_key
            && r->Ok_0@[i].0.epoch == old(it).rest()[i].epoch
            && r->Ok_0@[i].1@ == old(it).rest()[i].value,
        r is Err ==> old(it).may_fail(),
{
    let mut out: Vec<(InternalKey, HummockValue)> = Vec::new();
    let ghost s0 = it.rest();
    while it.is_valid()
        invariant
            it.wf(),
            it.may_fail() == old(it).may_fail(),
            s0 == old(it).rest(),
            out@.len() + it.rest().len() == s0.len(),
            it.rest() == s0.subrange(out@.len() as int, s0.len() as int),
            forall|i: int| 0 <= i < out@.len() ==>
                (#[trigger] out@[i]).0.user_key@ == s0[i].user_key
                && out@[i].0.epoch == s0[i].epoch
                && out@[i].1@ == s0[i].value,
        decreases it.rest().len(),
    {
        let k = it.key().clone();
        let v = it.value().clone();
        out.push((k, v));
        let res = it.next();
        if res.is_err() {
            return Err(res.unwrap_err());
        }
        proof {
            assert(it.rest() =~= s0.subrange(out@.len() as int, s0.len() as int));
        }
    }
    Ok(out)
}

} // verus!
