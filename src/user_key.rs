//! The snapshot view: at most one visible version per user key.
use vstd::prelude::*;
use crate::key::{Entry, EntryView, InternalKey, HummockValue, bytes_less, bytes_lt, key_le, lemma_bytes_order, sorted};
use crate::iterator::{HummockIterator, HummockResult, drop_lt};

verus! {

/// What a read at epoch `e` sees of the stream `s`: versions newer than `e`
/// are skipped; the first remaining version of a user key is chosen and the
/// rest of that key's versions skipped; a chosen tombstone hides the key.
/// `last` is the user key chosen last, if any.
pub open spec fn visible(s: Seq<EntryView>, e: u64, last: Option<Seq<u8>>) -> Seq<EntryView>
    decreases s.len(),
{
    if s.len() == 0 {
        Seq::empty()
    } else {
        let x = s[0];
        if x.epoch > e || last == Some(x.user_key) {
            visible(s.drop_first(), e, last)
        } else {
            match x.value {
                Some(v) => seq![x] + visible(s.drop_first(), e, Some(x.user_key)),
                None => visible(s.drop_first(), e, Some(x.user_key)),
            }
        }
    }
}

proof fn lemma_sorted_drop_first(s: Seq<EntryView>)
    requires
        sorted(s),
        s.len() > 0,
    ensures
        sorted(s.drop_first()),
{
    let t = s.drop_first();
    assert forall|i: int, j: int| 0 <= i < j < t.len() implies key_le(#[trigger] t[i], #[trigger] t[j]) by {
        assert(t[i] == s[i + 1] && t[j] == s[j + 1]);
    }
}

/// A last chosen key that the stream never holds makes no difference.
proof fn lemma_visible_last_absent(s: Seq<EntryView>, e: u64, l: Seq<u8>)
    requires
        forall|j: int| 0 <= j < s.len() ==> (#[trigger] s[j]).user_key != l,
    ensures
        visible(s, e, Some(l)) == visible(s, e, None),
    decreases s.len(),
{
    if s.len() > 0 {
        let t = s.drop_first();
        assert forall|j: int| 0 <= j < t.len() implies (#[trigger] t[j]).user_key != l by {
            assert(t[j] == s[j + 1]);
        }
        lemma_visible_last_absent(t, e, l);
    }
}

/// What is seen of a stream holds no user key that the stream does not.
proof fn lemma_visible_keys_not_below(s: Seq<EntryView>, e: u64, last: Option<Seq<u8>>, k: Seq<u8>)
    requires
        forall|j: int| 0 <= j < s.len() ==> !bytes_lt((#[trigger] s[j]).user_key, k),
    ensures
        forall|j: int| 0 <= j < visible(s, e, last).len() ==> !bytes_lt((#[trigger] visible(s, e, last)[j]).user_key, k),
    decreases s.len(),
{
    if s.len() > 0 {
        let t = s.drop_first();
        assert forall|j: int| 0 <= j < t.len() implies !bytes_lt((#[trigger] t[j]).user_key, k) by {
            assert(t[j] == s[j + 1]);
        }
        lemma_visible_keys_not_below(t, e, last, k);
        lemma_visible_keys_not_below(t, e, Some(s[0].user_key), k);
        let v = visible(s, e, last);
        assert forall|j: int| 0 <= j < v.len() implies !bytes_lt((#[trigger] v[j]).user_key, k) by {
            if !(s[0].epoch > e || last == Some(s[0].user_key)) && s[0].value is Some && j > 0 {
                assert(v[j] == visible(t, e, Some(s[0].user_key))[j - 1]);
            }
        }
    }
}

/// Seeking the merged stream and then reading at an epoch sees what reading
/// the whole stream at that epoch sees from the sought key on.
pub proof fn lemma_visible_seek(s: Seq<EntryView>, e: u64, last: Option<Seq<u8>>, k: Seq<u8>)
    requires
        sorted(s),
        last is None || bytes_lt(last->0, k),
    ensures
        visible(drop_lt(s, k), e, None) == drop_lt(visible(s, e, last), k),
    decreases s.len(),
{
    if s.len() > 0 {
        let x = s[0];
        let t = s.drop_first();
        if bytes_lt(x.user_key, k) {
            lemma_sorted_drop_first(s);
            let next_last = if x.epoch > e || last == Some(x.user_key) { last } else { Some(x.user_key) };
            lemma_visible_seek(t, e, next_last, k);
            if !(x.epoch > e || last == Some(x.user_key)) && x.value is Some {
                let v = visible(s, e, last);
                assert(v[0] == x);
                assert(v.drop_first() =~= visible(t, e, next_last));
            }
        } else {
            assert forall|j: int| 0 <= j < s.len() implies !bytes_lt((#[trigger] s[j]).user_key, k) by {
                if j > 0 {
                    assert(key_le(s[0], s[j]));
                    lemma_bytes_order(x.user_key, s[j].user_key, k);
                    lemma_bytes_order(s[j].user_key, k, k);
                }
            }
            if last is Some {
                assert forall|j: int| 0 <= j < s.len() implies (#[trigger] s[j]).user_key != last->0 by {
                    lemma_bytes_order(last->0, k, k);
                }
                lemma_visible_last_absent(s, e, last->0);
            }
            lemma_visible_keys_not_below(s, e, None, k);
        }
    }
}

/// The facts about a read from which the visibility laws follow, for any key
/// chosen last that no entry of the stream is below.
proof fn lemma_visible_facts(s: Seq<EntryView>, e: u64, last: Option<Seq<u8>>)
    requires
        sorted(s),
        last is Some ==> forall|j: int| 0 <= j < s.len() ==> !bytes_lt((#[trigger] s[j]).user_key, last->0),
    ensures
        forall|i: int| 0 <= i < visible(s, e, last).len() ==> {
            let z = #[trigger] visible(s, e, last)[i];
            &&& z.epoch <= e
            &&& z.value is Some
            &&& s.contains(z)
            &&& last is Some ==> bytes_lt(last->0, z.user_key)
        },
        forall|i: int, i2: int| 0 <= i < i2 < visible(s, e, last).len() ==>
            bytes_lt((#[trigger] visible(s, e, last)[i]).user_key, (#[trigger] visible(s, e, last)[i2]).user_key),
        forall|i: int, j: int| 0 <= i < visible(s, e, last).len() && 0 <= j < s.len()
            && (#[trigger] s[j]).user_key == (#[trigger] visible(s, e, last)[i]).user_key && s[j].epoch <= e
            ==> s[j].epoch <= visible(s, e, last)[i].epoch,
    decreases s.len(),
{
    if s.len() > 0 {
        let x = s[0];
        let t = s.drop_first();
        let out = visible(s, e, last);
        lemma_sorted_drop_first(s);
        let skip = x.epoch > e || last == Some(x.user_key);
        if skip {
            assert forall|j: int| last is Some && 0 <= j < t.len() implies !bytes_lt((#[trigger] t[j]).user_key, last->0) by {
                assert(t[j] == s[j + 1]);
            }
            lemma_visible_facts(t, e, last);
            assert(out == visible(t, e, last));
            assert forall|i: int| 0 <= i < out.len() implies s.contains(#[trigger] out[i]) by {
                let j = choose|j: int| 0 <= j < t.len() && t[j] == out[i];
                assert(s[j + 1] == out[i]);
            }
            assert forall|i: int, j: int| 0 <= i < out.len() && 0 <= j < s.len()
                && (#[trigger] s[j]).user_key == (#[trigger] out[i]).user_key && s[j].epoch <= e
                implies s[j].epoch <= out[i].epoch by {
                if j == 0 {
                    lemma_bytes_order(last->0, last->0, last->0);
                } else {
                    assert(s[j] == t[j - 1]);
                }
            }
        } else {
            let l2 = Some(x.user_key);
            assert forall|j: int| 0 <= j < t.len() implies !bytes_lt((#[trigger] t[j]).user_key, x.user_key) by {
                assert(t[j] == s[j + 1]);
                assert(key_le(s[0], s[j + 1]));
                lemma_bytes_order(x.user_key, t[j].user_key, x.user_key);
            }
            lemma_visible_facts(t, e, l2);
            let v = visible(t, e, l2);
            if last is Some {
                assert(!bytes_lt(s[0].user_key, last->0));
                lemma_bytes_order(last->0, x.user_key, x.user_key);
                assert forall|i: int| 0 <= i < v.len() implies bytes_lt(last->0, (#[trigger] v[i]).user_key) by {
                    lemma_bytes_order(last->0, x.user_key, v[i].user_key);
                }
            }
            assert forall|i: int| 0 <= i < v.len() implies s.contains(#[trigger] v[i]) by {
                let j = choose|j: int| 0 <= j < t.len() && t[j] == v[i];
                assert(s[j + 1] == v[i]);
            }
            assert forall|i: int, j: int| 0 <= i < v.len() && 0 <= j < s.len()
                && (#[trigger] s[j]).user_key == (#[trigger] v[i]).user_key && s[j].epoch <= e
                implies s[j].epoch <= v[i].epoch by {
                if j == 0 {
                    lemma_bytes_order(x.user_key, x.user_key, x.user_key);
                } else {
                    assert(s[j] == t[j - 1]);
                }
            }
            if x.value is Some {
                assert(out == seq![x] + v);
                assert(s.contains(x));
                assert forall|j: int| 0 <= j < s.len() && s[j].user_key == x.user_key && s[j].epoch <= e
                    implies s[j].epoch <= x.epoch by {
                    if j > 0 {
                        assert(key_le(s[0], s[j]));
                        lemma_bytes_order(x.user_key, x.user_key, x.user_key);
                    }
                }
                assert forall|i: int| 0 <= i < out.len() implies {
                    let z = #[trigger] out[i];
                    &&& z.epoch <= e
                    &&& z.value is Some
                    &&& s.contains(z)
                    &&& last is Some ==> bytes_lt(last->0, z.user_key)
                } by {
                    if i > 0 {
                        assert(out[i] == v[i - 1]);
                    }
                }
                assert forall|i: int, i2: int| 0 <= i < i2 < out.len() implies
                    bytes_lt((#[trigger] out[i]).user_key, (#[trigger] out[i2]).user_key) by {
                    assert(out[i2] == v[i2 - 1]);
                    if i > 0 {
                        assert(out[i] == v[i - 1]);
                    }
                }
                assert forall|i: int, j: int| 0 <= i < out.len() && 0 <= j < s.len()
                    && (#[trigger] s[j]).user_key == (#[trigger] out[i]).user_key && s[j].epoch <= e
                    implies s[j].epoch <= out[i].epoch by {
                    if i > 0 {
                        assert(out[i] == v[i - 1]);
                    }
                }
            } else {
                assert(out == v);
            }
        }
    }
}

/// Tombstone suppression: a user key none of whose versions at or below the
/// read epoch holds a value is never seen.
pub proof fn lemma_tombstone_hidden(s: Seq<EntryView>, e: u64, k: Seq<u8>)
    requires
        sorted(s),
        forall|j: int| 0 <= j < s.len() && (#[trigger] s[j]).user_key == k && s[j].epoch <= e ==> s[j].value is None,
    ensures
        forall|i: int| 0 <= i < visible(s, e, None).len() ==> (#[trigger] visible(s, e, None)[i]).user_key != k,
{
    lemma_visible_facts(s, e, None);
    let out = visible(s, e, None);
    assert forall|i: int| 0 <= i < out.len() implies (#[trigger] out[i]).user_key != k by {
        assert(s.contains(out[i]));
        let j = choose|j: int| 0 <= j < s.len() && s[j] == out[i];
        assert(s[j].user_key == out[i].user_key);
    }
}

/// Visibility: over a sorted stream, a read at epoch `e` yields user keys in
/// strictly ascending order (so at most one entry per user key), and each
/// entry it yields is a version from the stream, with a value, not newer than
/// `e`, and not older than any other version of its user key that is not
/// newer than `e`.
pub proof fn lemma_visible_newest(s: Seq<EntryView>, e: u64)
    requires
        sorted(s),
    ensures
        forall|i: int, i2: int| 0 <= i < i2 < visible(s, e, None).len() ==>
            bytes_lt((#[trigger] visible(s, e, None)[i]).user_key, (#[trigger] visible(s, e, None)[i2]).user_key),
        forall|i: int| 0 <= i < visible(s, e, None).len() ==> {
            let z = #[trigger] visible(s, e, None)[i];
            &&& s.contains(z)
            &&& z.epoch <= e
            &&& z.value is Some
        },
        forall|i: int, j: int| 0 <= i < visible(s, e, None).len() && 0 <= j < s.len()
            && (#[trigger] s[j]).user_key == (#[trigger] visible(s, e, None)[i]).user_key && s[j].epoch <= e
            ==> s[j].epoch <= visible(s, e, None)[i].epoch,
{
    lemma_visible_facts(s, e, None);
}

/// Completeness of a read: a user key whose first version in the stream at or
/// below the read epoch holds a value is seen.
pub proof fn lemma_visible_complete(s: Seq<EntryView>, e: u64, last: Option<Seq<u8>>, j: int)
    requires
        0 <= j < s.len(),
        s[j].epoch <= e,
        s[j].value is Some,
        last != Some(s[j].user_key),
        forall|i: int| 0 <= i < j && (#[trigger] s[i]).user_key == s[j].user_key ==> s[i].epoch > e,
    ensures
        exists|i: int| 0 <= i < visible(s, e, last).len() && (#[trigger] visible(s, e, last)[i]).user_key == s[j].user_key,
    decreases s.len(),
{
    let x = s[0];
    let t = s.drop_first();
    let out = visible(s, e, last);
    if j == 0 {
        assert(out[0] == x);
    } else {
        let skip = x.epoch > e || last == Some(x.user_key);
        let l2 = if skip { last } else { Some(x.user_key) };
        assert(t[j - 1] == s[j]);
        assert forall|i: int| 0 <= i < j - 1 && (#[trigger] t[i]).user_key == t[j - 1].user_key implies t[i].epoch > e by {
            assert(t[i] == s[i + 1]);
        }
        lemma_visible_complete(t, e, l2, j - 1);
        let v = visible(t, e, l2);
        let i = choose|i: int| 0 <= i < v.len() && (#[trigger] v[i]).user_key == s[j].user_key;
        if !skip && x.value is Some {
            assert(out[i + 1] == v[i]);
        } else {
            assert(out[i] == v[i]);
        }
    }
}

/// Byte-string equality.
fn bytes_equal(a: &[u8], b: &[u8]) -> (r: bool)
    ensures
        r == (a@ == b@),
{
    proof {
        lemma_bytes_order(a@, b@, b@);
        lemma_bytes_order(b@, a@, a@);
    }
    !bytes_less(a, b) && !bytes_less(b, a)
}

/// A read at a fixed epoch over a merged stream: yields, for each user key,
/// its newest version not newer than the read epoch, unless that is a
/// tombstone.
pub struct UserKeyIterator<I: HummockIterator> {
    inner: I,
    read_epoch: u64,
    cur: Entry,
    has_last: bool,
    valid: bool,
}

impl<I: HummockIterator> UserKeyIterator<I> {
    pub closed spec fn inner(&self) -> I {
        self.inner
    }

    pub closed spec fn read_epoch(&self) -> u64 {
        self.read_epoch
    }

    spec fn last_of(&self) -> Option<Seq<u8>> {
        if self.has_last {
            Some(self.cur.key.user_key@)
        } else {
            None
        }
    }

    pub fn new(inner: I, read_epoch: u64) -> (r: UserKeyIterator<I>)
        requires
            inner.wf(),
            sorted(inner.whole()),
        ensures
            r.wf(),
            r.inner() == inner,
            r.read_epoch() == read_epoch,
            r.whole() == visible(inner.whole(), read_epoch, None),
            r.may_fail() == inner.may_fail(),
            r.rest().len() == 0,
    {
        UserKeyIterator {
            inner,
            read_epoch,
            cur: Entry::delete(Vec::new(), 0),
            has_last: false,
            valid: false,
        }
    }

    /// Reads the inner stream on until a visible value is found or it ends.
    fn settle(&mut self) -> (r: HummockResult<()>)
        requires
            old(self).inner.wf(),
            sorted(old(self).inner.whole()),
        ensures
            final(self).wf(),
            final(self).inner.whole() == old(self).inner.whole(),
            final(self).inner.may_fail() == old(self).inner.may_fail(),
            final(self).read_epoch == old(self).read_epoch,
            r is Ok ==> final(self).rest() == visible(old(self).inner.rest(), old(self).read_epoch, old(self).last_of()),
            r is Err ==> final(self).rest().len() == 0 && old(self).inner.may_fail(),
    {
        self.valid = false;
        let ghost target = visible(self.inner.rest(), self.read_epoch, self.last_of());
        loop
            invariant
                self.inner.wf(),
                !self.valid,
                self.inner.whole() == old(self).inner.whole(),
                self.inner.may_fail() == old(self).inner.may_fail(),
                self.read_epoch == old(self).read_epoch,
                sorted(old(self).inner.whole()),
                target == visible(old(self).inner.rest(), old(self).read_epoch, old(self).last_of()),
                target == visible(self.inner.rest(), self.read_epoch, self.last_of()),
            decreases self.inner.rest().len(),
        {
            if !self.inner.is_valid() {
                return Ok(());
            }
            let k = self.inner.key();
            let ep = k.epoch;
            if ep > self.read_epoch || (self.has_last && bytes_equal(k.user_key.as_slice(), self.cur.key.user_key.as_slice())) {
                let res = self.inner.next();
                if res.is_err() {
                    return res;
                }
            } else {
                let chosen = Entry { key: k.clone(), value: self.inner.value().clone() };
                let is_put = chosen.value.is_put();
                self.cur = chosen;
                self.has_last = true;
                let res = self.inner.next();
                if res.is_err() {
                    return res;
                }
                if is_put {
                    self.valid = true;
                    return Ok(());
                }
            }
        }
    }
}

impl<I: HummockIterator> HummockIterator for UserKeyIterator<I> {
    closed spec fn wf(&self) -> bool {
        &&& self.inner.wf()
        &&& sorted(self.inner.whole())
        &&& self.valid ==> self.has_last && self.cur@.value is Some
    }

    closed spec fn rest(&self) -> Seq<EntryView> {
        if self.valid {
            seq![self.cur@] + visible(self.inner.rest(), self.read_epoch, Some(self.cur.key.user_key@))
        } else {
            Seq::empty()
        }
    }

    closed spec fn whole(&self) -> Seq<EntryView> {
        visible(self.inner.whole(), self.read_epoch, None)
    }

    closed spec fn may_fail(&self) -> bool {
        self.inner.may_fail()
    }

    fn next(&mut self) -> (r: HummockResult<()>) {
        proof {
            assert(self.rest().drop_first() =~= visible(self.inner.rest(), self.read_epoch, self.last_of()));
        }
        self.settle()
    }

    fn key(&self) -> (r: &InternalKey) {
        &self.cur.key
    }

    fn value(&self) -> (r: &HummockValue) {
        &self.cur.value
    }

    fn is_valid(&self) -> (r: bool) {
        self.valid
    }

    fn rewind(&mut self) -> (r: HummockResult<()>) {
        self.valid = false;
        self.has_last = false;
        let res = self.inner.rewind();
        if res.is_err() {
            return res;
        }
        self.settle()
    }

    fn seek(&mut self, key: &[u8]) -> (r: HummockResult<()>) {
        self.valid = false;
        self.has_last = false;
        let res = self.inner.seek(key);
        if res.is_err() {
            return res;
        }
        proof {
            lemma_visible_seek(self.inner.whole(), self.read_epoch, None, key@);
        }
        self.settle()
    }
}

} // verus!
