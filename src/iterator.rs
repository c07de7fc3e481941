//! The cursor contract shared by every iterator of the stack.
use vstd::prelude::*;
use crate::key::{EntryView, InternalKey, HummockValue, bytes_lt};

verus! {

/// Errors that a leaf fetch surfaces through `next`, `seek` and `rewind`.
#[derive(Clone, Copy, Debug, PartialEq, Eq, Structural)]
pub enum HummockError {
    /// The underlying storage fetch failed.
    IoFailure,
    /// A block failed its checksum or could not be decoded.
    CorruptBlock,
}

pub type HummockResult<T> = Result<T, HummockError>;

/// The stream `s` without its leading entries whose user key is below `k`.
pub open spec fn drop_lt(s: Seq<EntryView>, k: Seq<u8>) -> Seq<EntryView>
    decreases s.len(),
{
    if s.len() > 0 && bytes_lt(s[0].user_key, k) {
        drop_lt(s.drop_first(), k)
    } else {
        s
    }
}

/// A cursor over a sorted stream of entries.
///
/// `whole()` is the stream that `rewind` positions at; `rest()` is what is
/// left of it from the current entry on (empty when the cursor is not valid).
/// `may_fail()` holds when some run below has an unreadable block: only then
/// may `next`, `seek` or `rewind` return an error, after which the cursor is
/// exhausted.
pub trait HummockIterator {
    spec fn wf(&self) -> bool;

    spec fn rest(&self) -> Seq<EntryView>;

    spec fn whole(&self) -> Seq<EntryView>;

    spec fn may_fail(&self) -> bool;

    /// Moves a valid cursor to the next entry.
    fn next(&mut self) -> (r: HummockResult<()>)
        requires
            old(self).wf(),
            old(self).rest().len() > 0,
        ensures
            final(self).wf(),
            final(self).whole() == old(self).whole(),
            final(self).may_fail() == old(self).may_fail(),
            r is Ok ==> final(self).rest() == old(self).rest().drop_first(),
            r is Err ==> final(self).rest().len() == 0 && old(self).may_fail(),
    ;

    /// The current internal key.
    fn key(&self) -> (r: &InternalKey)
        requires
            self.wf(),
            self.rest().len() > 0,
        ensures
            r.user_key@ == self.rest()[0].user_key,
            r.epoch == self.rest()[0].epoch,
    ;

    /// The current value.
    fn value(&self) -> (r: &HummockValue)
        requires
            self.wf(),
            self.rest().len() > 0,
        ensures
            r@ == self.rest()[0].value,
    ;

    fn is_valid(&self) -> (r: bool)
        requires
            self.wf(),
        ensures
            r == (self.rest().len() > 0),
    ;

    /// Positions the cursor at the first entry.
    fn rewind(&mut self) -> (r: HummockResult<()>)
        requires
            old(self).wf(),
        ensures
            final(self).wf(),
            final(self).whole() == old(self).whole(),
            final(self).may_fail() == old(self).may_fail(),
            r is Ok ==> final(self).rest() == old(self).whole(),
            r is Err ==> final(self).rest().len() == 0 && old(self).may_fail(),
    ;

    /// Positions the cursor at the first entry whose user key is not below `key`.
    fn seek(&mut self, key: &[u8]) -> (r: HummockResult<()>)
        requires
            old(self).wf(),
        ensures
            final(self).wf(),
            final(self).whole() == old(self).whole(),
            final(self).may_fail() == old(self).may_fail(),
            r is Ok ==> final(self).rest() == drop_lt(old(self).whole(), key@),
            r is Err ==> final(self).rest().len() == 0 && old(self).may_fail(),
    ;
}

} // verus!
