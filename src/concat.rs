//! Concatenation of the non-overlapping runs of one level.
use vstd::prelude::*;
use crate::key::{EntryView, InternalKey, HummockValue, key_le, sorted};
use crate::iterator::{HummockIterator, HummockResult, drop_lt};
use crate::table::TableIterator;

verus! {

/// The runs `ts[j..]` read one after the other, each from its first entry.
pub open spec fn wholes_from(ts: Seq<TableIterator>, j: int) -> Seq<EntryView>
    decreases ts.len() - j,
{
    if j < 0 || j >= ts.len() {
        Seq::empty()
    } else {
        ts[j].whole() + wholes_from(ts, j + 1)
    }
}

pub open spec fn fails_from(ts: Seq<TableIterator>, j: int) -> bool {
    exists|i: int| j <= i < ts.len() && (#[trigger] ts[i]).may_fail()
}

proof fn lemma_wholes_from_same(ts: Seq<TableIterator>, us: Seq<TableIterator>, j: int)
    requires
        0 <= j,
        ts.len() == us.len(),
        forall|i: int| 0 <= i < ts.len() ==> (#[trigger] ts[i]).whole() == us[i].whole(),
    ensures
        wholes_from(ts, j) == wholes_from(us, j),
    decreases ts.len() - j,
{
    if j < ts.len() {
        lemma_wholes_from_same(ts, us, j + 1);
    }
}

proof fn lemma_fails_from_same(ts: Seq<TableIterator>, us: Seq<TableIterator>)
    requires
        ts.len() == us.len(),
        forall|i: int| 0 <= i < ts.len() ==> (#[trigger] ts[i]).may_fail() == us[i].may_fail(),
    ensures
        fails_from(ts, 0) == fails_from(us, 0),
{
    if fails_from(ts, 0) {
        let i = choose|i: int| 0 <= i < ts.len() && (#[trigger] ts[i]).may_fail();
        assert(us[i].may_fail());
    }
    if fails_from(us, 0) {
        let i = choose|i: int| 0 <= i < us.len() && (#[trigger] us[i]).may_fail();
        assert(ts[i].may_fail());
    }
}

/// Seeking into two streams read one after the other.
pub proof fn lemma_drop_lt_append(a: Seq<EntryView>, b: Seq<EntryView>, k: Seq<u8>)
    ensures
        drop_lt(a, k).len() > 0 ==> drop_lt(a + b, k) == drop_lt(a, k) + b,
        drop_lt(a, k).len() == 0 ==> drop_lt(a + b, k) == drop_lt(b, k),
    decreases a.len(),
{
    if a.len() > 0 {
        assert((a + b).drop_first() =~= a.drop_first() + b);
        assert((a + b)[0] == a[0]);
        lemma_drop_lt_append(a.drop_first(), b, k);
    } else {
        assert(a + b =~= b);
    }
}

proof fn lemma_wholes_from_lower(ts: Seq<TableIterator>, j: int, x: EntryView)
    requires
        0 <= j,
        forall|i: int, a: int| j <= i < ts.len() && 0 <= a < ts[i].whole().len() ==> key_le(x, #[trigger] ts[i].whole()[a]),
    ensures
        forall|m: int| 0 <= m < wholes_from(ts, j).len() ==> key_le(x, #[trigger] wholes_from(ts, j)[m]),
    decreases ts.len() - j,
{
    if j < ts.len() {
        lemma_wholes_from_lower(ts, j + 1, x);
        let w = ts[j].whole();
        let r = wholes_from(ts, j + 1);
        assert forall|m: int| 0 <= m < wholes_from(ts, j).len() implies key_le(x, #[trigger] wholes_from(ts, j)[m]) by {
            if m < w.len() {
                assert(wholes_from(ts, j)[m] == w[m]);
            } else {
                assert(wholes_from(ts, j)[m] == r[m - w.len()]);
            }
        }
    }
}

proof fn lemma_wholes_from_sorted(ts: Seq<TableIterator>, j: int)
    requires
        0 <= j,
        forall|i: int| 0 <= i < ts.len() ==> sorted(#[trigger] ts[i].whole()),
        forall|i: int, i2: int, a: int, b: int| 0 <= i < i2 < ts.len() && 0 <= a < ts[i].whole().len()
            && 0 <= b < ts[i2].whole().len() ==> key_le(#[trigger] ts[i].whole()[a], #[trigger] ts[i2].whole()[b]),
    ensures
        sorted(wholes_from(ts, j)),
    decreases ts.len() - j,
{
    if j < ts.len() {
        lemma_wholes_from_sorted(ts, j + 1);
        let w = ts[j].whole();
        let r = wholes_from(ts, j + 1);
        let all = wholes_from(ts, j);
        assert(sorted(w));
        assert forall|p: int, q: int| 0 <= p < q < all.len() implies key_le(#[trigger] all[p], #[trigger] all[q]) by {
            if q < w.len() {
                assert(all[p] == w[p] && all[q] == w[q]);
            } else if p >= w.len() {
                assert(all[p] == r[p - w.len()] && all[q] == r[q - w.len()]);
            } else {
                assert(all[p] == w[p] && all[q] == r[q - w.len()]);
                assert forall|i: int, a: int| j + 1 <= i < ts.len() && 0 <= a < ts[i].whole().len()
                    implies key_le(w[p], #[trigger] ts[i].whole()[a]) by {
                    assert(key_le(ts[j].whole()[p], ts[i].whole()[a]));
                }
                lemma_wholes_from_lower(ts, j + 1, w[p]);
            }
        }
    }
}

/// A level read from its first entry is ordered when each run is ordered and
/// no entry of a run is above an entry of a later run.
pub proof fn lemma_level_ordered(it: &ConcatIterator)
    requires
        forall|i: int| 0 <= i < it.runs().len() ==> sorted(#[trigger] it.runs()[i].whole()),
        forall|i: int, i2: int, a: int, b: int| 0 <= i < i2 < it.runs().len() && 0 <= a < it.runs()[i].whole().len()
            && 0 <= b < it.runs()[i2].whole().len()
            ==> key_le(#[trigger] it.runs()[i].whole()[a], #[trigger] it.runs()[i2].whole()[b]),
    ensures
        sorted(it.whole()),
{
    lemma_wholes_from_sorted(it.runs(), 0);
}

/// A cursor over an ordered sequence of runs whose key ranges do not overlap.
/// `seek` tries the runs in order and stops at the first one that has an
/// entry at or after the target.
pub struct ConcatIterator {
    tables: Vec<TableIterator>,
    cur: usize,
    valid: bool,
}

impl ConcatIterator {
    /// The runs, in the order they are read.
    pub closed spec fn runs(&self) -> Seq<TableIterator> {
        self.tables@
    }

    pub fn new(tables: Vec<TableIterator>) -> (r: ConcatIterator)
        requires
            forall|i: int| 0 <= i < tables@.len() ==> (#[trigger] tables@[i]).wf(),
        ensures
            r.wf(),
            r.whole() == wholes_from(tables@, 0),
            r.may_fail() == fails_from(tables@, 0),
            r.rest().len() == 0,
    {
        ConcatIterator { tables, cur: 0, valid: false }
    }

    /// Moves past runs that have nothing left, rewinding each next one.
    fn skip_exhausted(&mut self) -> (r: HummockResult<()>)
        requires
            old(self).cur < old(self).tables@.len(),
            forall|i: int| 0 <= i < old(self).tables@.len() ==> (#[trigger] old(self).tables@[i]).wf(),
        ensures
            final(self).wf(),
            final(self).tables@.len() == old(self).tables@.len(),
            forall|i: int| 0 <= i < old(self).tables@.len() ==>
                (#[trigger] final(self).tables@[i]).whole() == old(self).tables@[i].whole()
                && final(self).tables@[i].may_fail() == old(self).tables@[i].may_fail(),
            r is Ok ==> final(self).rest() == old(self).tables@[old(self).cur as int].rest()
                + wholes_from(old(self).tables@, old(self).cur + 1),
            r is Err ==> final(self).rest().len() == 0 && fails_from(old(self).tables@, 0),
    {
        let ghost target = self.tables@[self.cur as int].rest() + wholes_from(self.tables@, self.cur + 1);
        let ghost ts0 = self.tables@;
        while !self.tables[self.cur].is_valid()
            invariant
                ts0 == old(self).tables@,
                target == old(self).tables@[old(self).cur as int].rest()
                    + wholes_from(old(self).tables@, old(self).cur + 1),
                self.cur < self.tables@.len(),
                self.tables@.len() == ts0.len(),
                forall|i: int| 0 <= i < ts0.len() ==> (#[trigger] self.tables@[i]).wf(),
                forall|i: int| 0 <= i < ts0.len() ==>
                    (#[trigger] self.tables@[i]).whole() == ts0[i].whole()
                    && self.tables@[i].may_fail() == ts0[i].may_fail(),
                target == self.tables@[self.cur as int].rest() + wholes_from(self.tables@, self.cur + 1),
            decreases self.tables@.len() - self.cur,
        {
            let c = self.cur;
            assert(self.tables@[c as int].rest() + wholes_from(self.tables@, c + 1) =~= wholes_from(self.tables@, c + 1));
            if c >= self.tables.len() - 1 {
                self.valid = false;
                assert(target =~= Seq::<EntryView>::empty());
                return Ok(());
            }
            self.cur = c + 1;
            let ghost before = self.tables@;
            let res = self.tables[c + 1].rewind();
            proof {
                lemma_wholes_from_same(before, self.tables@, c + 2);
                lemma_wholes_from_same(before, self.tables@, c + 1);
            }
            if res.is_err() {
                self.valid = false;
                assert(ts0[c + 1].may_fail());
                return Err(res.unwrap_err());
            }
        }
        self.valid = true;
        Ok(())
    }
}

impl HummockIterator for ConcatIterator {
    closed spec fn wf(&self) -> bool {
        &&& forall|i: int| 0 <= i < self.tables@.len() ==> (#[trigger] self.tables@[i]).wf()
        &&& self.valid ==> self.cur < self.tables@.len() && self.tables@[self.cur as int].rest().len() > 0
    }

    closed spec fn rest(&self) -> Seq<EntryView> {
        if self.valid {
            self.tables@[self.cur as int].rest() + wholes_from(self.tables@, self.cur + 1)
        } else {
            Seq::empty()
        }
    }

    closed spec fn whole(&self) -> Seq<EntryView> {
        wholes_from(self.tables@, 0)
    }

    closed spec fn may_fail(&self) -> bool {
        fails_from(self.tables@, 0)
    }

    fn next(&mut self) -> (r: HummockResult<()>) {
        let c = self.cur;
        let ghost before = self.tables@;
        let res = self.tables[c].next();
        proof {
            lemma_wholes_from_same(before, self.tables@, 0);
            lemma_wholes_from_same(before, self.tables@, c + 1);
            assert(before[c as int].rest().drop_first() + wholes_from(before, c + 1)
                =~= (before[c as int].rest() + wholes_from(before, c + 1)).drop_first());
            assert(forall|i: int| 0 <= i < before.len() ==> (#[trigger] self.tables@[i]).may_fail() == before[i].may_fail());
        }
        if res.is_err() {
            self.valid = false;
            assert(before[c as int].may_fail());
            return res;
        }
        let r = self.skip_exhausted();
        proof {
            lemma_wholes_from_same(before, self.tables@, 0);
            lemma_fails_from_same(before, self.tables@);
        }
        r
    }

    fn key(&self) -> (r: &InternalKey) {
        self.tables[self.cur].key()
    }

    fn value(&self) -> (r: &HummockValue) {
        self.tables[self.cur].value()
    }

    fn is_valid(&self) -> (r: bool) {
        self.valid
    }

    fn rewind(&mut self) -> (r: HummockResult<()>) {
        if self.tables.len() == 0 {
            self.valid = false;
            return Ok(());
        }
        self.cur = 0;
        let ghost before = self.tables@;
        let res = self.tables[0].rewind();
        proof {
            lemma_wholes_from_same(before, self.tables@, 0);
            lemma_wholes_from_same(before, self.tables@, 1);
            assert(forall|i: int| 0 <= i < before.len() ==> (#[trigger] self.tables@[i]).may_fail() == before[i].may_fail());
        }
        if res.is_err() {
            self.valid = false;
            assert(before[0].may_fail());
            return res;
        }
        let ghost mid = self.tables@;
        let r = self.skip_exhausted();
        proof {
            lemma_wholes_from_same(mid, self.tables@, 0);
            lemma_fails_from_same(before, self.tables@);
        }
        r
    }

    fn seek(&mut self, key: &[u8]) -> (r: HummockResult<()>) {
        self.valid = false;
        if self.tables.len() == 0 {
            return Ok(());
        }
        let ghost ts0 = self.tables@;
        let mut c: usize = 0;
        loop
            invariant
                ts0 == old(self).tables@,
                c < self.tables@.len(),
                self.tables@.len() == ts0.len(),
                !self.valid,
                forall|i: int| 0 <= i < ts0.len() ==> (#[trigger] self.tables@[i]).wf(),
                forall|i: int| 0 <= i < ts0.len() ==>
                    (#[trigger] self.tables@[i]).whole() == ts0[i].whole()
                    && self.tables@[i].may_fail() == ts0[i].may_fail(),
                drop_lt(wholes_from(ts0, 0), key@) == drop_lt(wholes_from(ts0, c as int), key@),
            decreases self.tables@.len() - c,
        {
            let ghost before = self.tables@;
            let res = self.tables[c].seek(key);
            proof {
                lemma_wholes_from_same(ts0, self.tables@, c + 1);
                lemma_wholes_from_same(ts0, self.tables@, 0);
                lemma_fails_from_same(ts0, self.tables@);
                assert(wholes_from(ts0, c as int) == ts0[c as int].whole() + wholes_from(ts0, c + 1));
                lemma_drop_lt_append(ts0[c as int].whole(), wholes_from(ts0, c + 1), key@);
            }
            if res.is_err() {
                assert(ts0[c as int].may_fail());
                return res;
            }
            if self.tables[c].is_valid() {
                self.cur = c;
                self.valid = true;
                proof {
                    lemma_wholes_from_same(ts0, self.tables@, 0);
                }
                return Ok(());
            }
            if c >= self.tables.len() - 1 {
                proof {
                    assert(wholes_from(ts0, c + 1) =~= Seq::<EntryView>::empty());
                    lemma_wholes_from_same(ts0, self.tables@, 0);
                }
                return Ok(());
            }
            c = c + 1;
        }
    }
}

} // verus!
