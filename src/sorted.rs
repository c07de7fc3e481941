//! The k-way merge over several cursors.
use vstd::prelude::*;
use crate::key::{EntryView, InternalKey, HummockValue, key_less, sorted};
use crate::iterator::{HummockIterator, HummockResult, drop_lt};
use crate::merge_spec::{
    before, drop_all_lt, heap_covers, heap_elems, heap_ok, heap_ordered, hole_down, hole_up, lemma_before_order,
    lemma_heap_root_is_min, lemma_heap_swap, lemma_merge_seek, lemma_merge_sorted, lemma_min_upto, live, merge_of,
    parent,
};

verus! {

pub open spec fn rests_of<I: HummockIterator>(cs: Seq<I>) -> Seq<Seq<EntryView>> {
    cs.map_values(|c: I| c.rest())
}

pub open spec fn wholes_of<I: HummockIterator>(cs: Seq<I>) -> Seq<Seq<EntryView>> {
    cs.map_values(|c: I| c.whole())
}

pub open spec fn any_fails<I: HummockIterator>(cs: Seq<I>) -> bool {
    exists|i: int| 0 <= i < cs.len() && (#[trigger] cs[i]).may_fail()
}

proof fn lemma_any_fails_same<I: HummockIterator>(ts: Seq<I>, us: Seq<I>)
    requires
        ts.len() == us.len(),
        forall|i: int| 0 <= i < ts.len() ==> (#[trigger] ts[i]).may_fail() == us[i].may_fail(),
    ensures
        any_fails(ts) == any_fails(us),
{
    if any_fails(ts) {
        let i = choose|i: int| 0 <= i < ts.len() && (#[trigger] ts[i]).may_fail();
        assert(us[i].may_fail());
    }
    if any_fails(us) {
        let i = choose|i: int| 0 <= i < us.len() && (#[trigger] us[i]).may_fail();
        assert(ts[i].may_fail());
    }
}

/// Whether child `a`'s current entry comes before child `b`'s.
fn head_before<I: HummockIterator>(children: &Vec<I>, a: usize, b: usize) -> (r: bool)
    requires
        forall|i: int| 0 <= i < children@.len() ==> (#[trigger] children@[i]).wf(),
        live(rests_of(children@), a as int),
        live(rests_of(children@), b as int),
    ensures
        r == before(rests_of(children@), a as int, b as int),
{
    let ka = children[a].key();
    let kb = children[b].key();
    key_less(ka, kb) || (!key_less(kb, ka) && a < b)
}

/// Restores the heap order after the entry at the root has changed.
fn sift_down<I: HummockIterator>(children: &Vec<I>, heap: &mut Vec<usize>)
    requires
        forall|i: int| 0 <= i < children@.len() ==> (#[trigger] children@[i]).wf(),
        heap_elems(rests_of(children@), old(heap)@),
        heap_covers(rests_of(children@), old(heap)@, children@.len() as int),
        hole_down(rests_of(children@), old(heap)@, 0),
    ensures
        heap_ok(rests_of(children@), final(heap)@),
{
    let ghost ss = rests_of(children@);
    let n = heap.len();
    if n == 0 {
        return;
    }
    let mut p: usize = 0;
    loop
        invariant
            ss == rests_of(children@),
            forall|i: int| 0 <= i < children@.len() ==> (#[trigger] children@[i]).wf(),
            heap@.len() == n,
            p < n,
            heap_elems(ss, heap@),
            heap_covers(ss, heap@, children@.len() as int),
            hole_down(ss, heap@, p as int),
        decreases n - p,
    {
        let ghost h = heap@;
        if p >= n / 2 {
            assert(heap_ordered(ss, h)) by {
                assert forall|q: int| 0 < q < h.len() implies !before(ss, #[trigger] h[q] as int, h[parent(q)] as int) by {
                    assert(parent(q) != p);
                }
            }
            return;
        }
        let l = 2 * p + 1;
        let r = l + 1;
        let mut c = l;
        if r < n && head_before(children, heap[r], heap[l]) {
            c = r;
        }
        if !head_before(children, heap[c], heap[p]) {
            assert(heap_ordered(ss, h)) by {
                assert forall|q: int| 0 < q < h.len() implies !before(ss, #[trigger] h[q] as int, h[parent(q)] as int) by {
                    if parent(q) == p {
                        assert(q == l || q == r);
                        lemma_before_order(ss, h[p as int] as int, h[c as int] as int, h[q] as int);
                        lemma_before_order(ss, h[q] as int, h[c as int] as int, h[p as int] as int);
                    }
                }
            }
            return;
        }
        let xp = heap[p];
        let xc = heap[c];
        heap.set(p, xc);
        heap.set(c, xp);
        proof {
            assert(heap@ == h.update(p as int, h[c as int]).update(c as int, h[p as int]));
            lemma_heap_swap(ss, h, p as int, c as int, children@.len() as int);
            let h2 = heap@;
            lemma_before_order(ss, h[c as int] as int, h[p as int] as int, h[p as int] as int);
            assert forall|q: int| 0 < q < h2.len() && parent(q) != c implies !before(ss, #[trigger] h2[q] as int, h2[parent(q)] as int) by {
                if q == c {
                } else if q == p {
                } else if parent(q) == p {
                    assert(q == l || q == r);
                    lemma_before_order(ss, h[l as int] as int, h[r as int] as int, h[r as int] as int);
                } else {
                    assert(h2[q] == h[q]);
                    assert(h2[parent(q)] == h[parent(q)]);
                }
            }
            assert forall|q: int| 0 < q < h2.len() && parent(q) == c implies !before(ss, #[trigger] h2[q] as int, h2[parent(c as int)] as int) by {
                assert(h2[q] == h[q]);
            }
        }
        p = c;
    }
}

/// Restores the heap order after an entry was placed at position `p`.
fn sift_up<I: HummockIterator>(children: &Vec<I>, heap: &mut Vec<usize>, p0: usize, Ghost(bound): Ghost<int>)
    requires
        forall|i: int| 0 <= i < children@.len() ==> (#[trigger] children@[i]).wf(),
        p0 < old(heap)@.len(),
        heap_elems(rests_of(children@), old(heap)@),
        heap_covers(rests_of(children@), old(heap)@, bound),
        forall|q: int| 0 <= q < old(heap)@.len() ==> #[trigger] old(heap)@[q] < bound,
        hole_up(rests_of(children@), old(heap)@, p0 as int),
    ensures
        final(heap)@.len() == old(heap)@.len(),
        heap_elems(rests_of(children@), final(heap)@),
        heap_covers(rests_of(children@), final(heap)@, bound),
        forall|q: int| 0 <= q < final(heap)@.len() ==> #[trigger] final(heap)@[q] < bound,
        heap_ordered(rests_of(children@), final(heap)@),
{
    let ghost ss = rests_of(children@);
    let mut p = p0;
    while p > 0 && head_before(children, heap[p], heap[(p - 1) / 2])
        invariant
            ss == rests_of(children@),
            forall|i: int| 0 <= i < children@.len() ==> (#[trigger] children@[i]).wf(),
            heap@.len() == old(heap)@.len(),
            p < heap@.len(),
            heap_elems(ss, heap@),
            heap_covers(ss, heap@, bound),
            forall|q: int| 0 <= q < heap@.len() ==> #[trigger] heap@[q] < bound,
            hole_up(ss, heap@, p as int),
        decreases p,
    {
        let ghost h = heap@;
        let g = (p - 1) / 2;
        let xp = heap[p];
        let xg = heap[g];
        heap.set(p, xg);
        heap.set(g, xp);
        proof {
            assert(heap@ == h.update(p as int, h[g as int]).update(g as int, h[p as int]));
            lemma_heap_swap(ss, h, p as int, g as int, bound);
            let h2 = heap@;
            lemma_before_order(ss, h[p as int] as int, h[g as int] as int, h[g as int] as int);
            assert forall|q: int| 0 < q < h2.len() && q != g implies !before(ss, #[trigger] h2[q] as int, h2[parent(q)] as int) by {
                if q == p {
                } else if parent(q) == g {
                    assert(h2[q] == h[q]);
                    lemma_before_order(ss, h[p as int] as int, h[g as int] as int, h[q] as int);
                } else if parent(q) == p {
                    assert(h2[q] == h[q]);
                } else {
                    assert(h2[q] == h[q]);
                    assert(h2[parent(q)] == h[parent(q)]);
                }
            }
            if g > 0 {
                let gg = parent(g as int);
                assert forall|q: int| 0 < q < h2.len() && parent(q) == g implies !before(ss, #[trigger] h2[q] as int, h2[gg] as int) by {
                    assert(h2[gg] == h[gg]);
                    if q == p {
                    } else {
                        assert(h2[q] == h[q]);
                        lemma_before_order(ss, h[gg] as int, h[g as int] as int, h[q] as int);
                    }
                }
            }
        }
        p = g;
    }
    proof {
        let ghost h = heap@;
        assert forall|q: int| 0 < q < h.len() implies !before(ss, #[trigger] h[q] as int, h[parent(q)] as int) by {
            if q == p {
            }
        }
    }
}

/// A heap of the children that have an entry.
fn build_heap<I: HummockIterator>(children: &Vec<I>) -> (r: Vec<usize>)
    requires
        forall|i: int| 0 <= i < children@.len() ==> (#[trigger] children@[i]).wf(),
    ensures
        heap_ok(rests_of(children@), r@),
{
    let ghost ss = rests_of(children@);
    let mut heap: Vec<usize> = Vec::new();
    let mut j: usize = 0;
    while j < children.len()
        invariant
            ss == rests_of(children@),
            forall|i: int| 0 <= i < children@.len() ==> (#[trigger] children@[i]).wf(),
            j <= children@.len(),
            heap_elems(ss, heap@),
            heap_covers(ss, heap@, j as int),
            forall|q: int| 0 <= q < heap@.len() ==> #[trigger] heap@[q] < j,
            heap_ordered(ss, heap@),
        decreases children@.len() - j,
    {
        if children[j].is_valid() {
            let ghost h = heap@;
            heap.push(j);
            proof {
                let h2 = heap@;
                assert(h2[h.len() as int] == j);
                assert forall|q: int| 0 <= q < h2.len() implies live(ss, #[trigger] h2[q] as int) by {
                    if q < h.len() {
                        assert(h2[q] == h[q]);
                    }
                }
                assert forall|p: int, q: int| 0 <= p < h2.len() && 0 <= q < h2.len() && p != q implies #[trigger] h2[p] != #[trigger] h2[q] by {
                    if p < h.len() {
                        assert(h2[p] == h[p]);
                    }
                    if q < h.len() {
                        assert(h2[q] == h[q]);
                    }
                }
                assert forall|i: int| 0 <= i < j + 1 && live(ss, i) implies exists|p: int| 0 <= p < h2.len() && #[trigger] h2[p] == i by {
                    if i < j {
                        let p = choose|p: int| 0 <= p < h.len() && #[trigger] h[p] == i;
                        assert(h2[p] == i);
                    } else {
                        assert(h2[h.len() as int] == i);
                    }
                }
                assert forall|q: int| 0 <= q < h2.len() implies #[trigger] h2[q] < j + 1 by {
                    if q < h.len() {
                        assert(h2[q] == h[q]);
                    }
                }
                assert forall|q: int| 0 < q < h2.len() && q != h.len() implies !before(ss, #[trigger] h2[q] as int, h2[parent(q)] as int) by {
                    assert(h2[q] == h[q]);
                    assert(h2[parent(q)] == h[parent(q)]);
                }
            }
            let last = heap.len() - 1;
            sift_up(children, &mut heap, last, Ghost(j + 1));
        } else {
            proof {
                assert forall|i: int| 0 <= i < j + 1 && live(ss, i) implies exists|p: int| 0 <= p < heap@.len() && #[trigger] heap@[p] == i by {
                    assert(i != j);
                }
            }
        }
        j = j + 1;
    }
    heap
}

/// Merges the streams of its children into one stream ordered by internal
/// key; among equal internal keys the earlier child comes first. The children
/// that have an entry sit in a min-heap ordered by their current entry.
pub struct SortedIterator<I: HummockIterator> {
    children: Vec<I>,
    heap: Vec<usize>,
    valid: bool,
}

impl<I: HummockIterator> SortedIterator<I> {
    /// The merged cursors, in registration order.
    pub closed spec fn children(&self) -> Seq<I> {
        self.children@
    }

    pub fn new(children: Vec<I>) -> (r: SortedIterator<I>)
        requires
            forall|i: int| 0 <= i < children@.len() ==> (#[trigger] children@[i]).wf(),
        ensures
            r.wf(),
            r.children() == children@,
            r.whole() == merge_of(wholes_of(children@)),
            r.may_fail() == any_fails(children@),
            r.rest().len() == 0,
    {
        SortedIterator { children, heap: Vec::new(), valid: false }
    }
}

impl<I: HummockIterator> HummockIterator for SortedIterator<I> {
    closed spec fn wf(&self) -> bool {
        &&& forall|i: int| 0 <= i < self.children@.len() ==> (#[trigger] self.children@[i]).wf()
        &&& self.valid ==> heap_ok(rests_of(self.children@), self.heap@)
    }

    closed spec fn rest(&self) -> Seq<EntryView> {
        if self.valid {
            merge_of(rests_of(self.children@))
        } else {
            Seq::empty()
        }
    }

    closed spec fn whole(&self) -> Seq<EntryView> {
        merge_of(wholes_of(self.children@))
    }

    closed spec fn may_fail(&self) -> bool {
        any_fails(self.children@)
    }

    fn next(&mut self) -> (r: HummockResult<()>) {
        let ghost cs0 = self.children@;
        let ghost ss = rests_of(cs0);
        proof {
            lemma_heap_root_is_min(ss, self.heap@);
            lemma_min_upto(ss, ss.len() as int);
        }
        let c = self.heap[0];
        let res = self.children[c].next();
        proof {
            assert(wholes_of(self.children@) =~= wholes_of(cs0));
            lemma_any_fails_same(cs0, self.children@);
        }
        if res.is_err() {
            self.valid = false;
            assert(cs0[c as int].may_fail());
            return res;
        }
        let ghost ss2 = rests_of(self.children@);
        let ghost h = self.heap@;
        proof {
            assert(ss2 =~= ss.update(c as int, ss[c as int].drop_first()));
            assert(merge_of(ss).drop_first() =~= merge_of(ss2));
            assert forall|q: int| 0 <= q < h.len() && q != 0 implies #[trigger] h[q] != c by {}
        }
        if self.children[c].is_valid() {
            proof {
                assert forall|q: int| 0 <= q < h.len() implies live(ss2, #[trigger] h[q] as int) by {}
                assert forall|i: int| 0 <= i < ss2.len() && live(ss2, i) implies exists|p: int| 0 <= p < h.len() && #[trigger] h[p] == i by {
                    assert(live(ss, i));
                }
                assert forall|q: int| 0 < q < h.len() && parent(q) != 0 implies !before(ss2, #[trigger] h[q] as int, h[parent(q)] as int) by {
                    assert(!before(ss, h[q] as int, h[parent(q)] as int));
                }
            }
            sift_down(&self.children, &mut self.heap);
        } else {
            let n = self.heap.len();
            let last = self.heap[n - 1];
            self.heap.pop();
            if n > 1 {
                self.heap.set(0, last);
            }
            proof {
                let h2 = self.heap@;
                assert forall|q: int| 0 <= q < h2.len() implies #[trigger] h2[q] == if q == 0 { h[n - 1] } else { h[q] } by {}
                assert forall|q: int| 0 <= q < h2.len() implies live(ss2, #[trigger] h2[q] as int) by {
                    if q == 0 {
                        assert(h[n - 1] != c);
                    }
                }
                assert forall|p: int, q: int| 0 <= p < h2.len() && 0 <= q < h2.len() && p != q implies #[trigger] h2[p] != #[trigger] h2[q] by {
                    let p0 = if p == 0 { n - 1 } else { p };
                    let q0 = if q == 0 { n - 1 } else { q };
                    assert(h[p0] != h[q0]);
                }
                assert forall|i: int| 0 <= i < ss2.len() && live(ss2, i) implies exists|p: int| 0 <= p < h2.len() && #[trigger] h2[p] == i by {
                    assert(live(ss, i));
                    let p = choose|p: int| 0 <= p < h.len() && #[trigger] h[p] == i;
                    if p == n - 1 {
                        assert(h2[0] == i);
                    } else {
                        assert(p != 0);
                        assert(h2[p] == i);
                    }
                }
                assert forall|q: int| 0 < q < h2.len() && parent(q) != 0 implies !before(ss2, #[trigger] h2[q] as int, h2[parent(q)] as int) by {
                    assert(!before(ss, h[q] as int, h[parent(q)] as int));
                }
            }
            sift_down(&self.children, &mut self.heap);
        }
        proof {
            lemma_heap_root_is_min(ss2, self.heap@);
            lemma_min_upto(ss2, ss2.len() as int);
        }
        Ok(())
    }

    fn key(&self) -> (r: &InternalKey) {
        proof {
            lemma_heap_root_is_min(rests_of(self.children@), self.heap@);
            lemma_min_upto(rests_of(self.children@), self.children@.len() as int);
        }
        self.children[self.heap[0]].key()
    }

    fn value(&self) -> (r: &HummockValue) {
        proof {
            lemma_heap_root_is_min(rests_of(self.children@), self.heap@);
            lemma_min_upto(rests_of(self.children@), self.children@.len() as int);
        }
        self.children[self.heap[0]].value()
    }

    fn is_valid(&self) -> (r: bool) {
        proof {
            if self.valid {
                lemma_heap_root_is_min(rests_of(self.children@), self.heap@);
                lemma_min_upto(rests_of(self.children@), self.children@.len() as int);
            }
        }
        self.valid && self.heap.len() > 0
    }

    fn rewind(&mut self) -> (r: HummockResult<()>) {
        self.valid = false;
        let ghost cs0 = self.children@;
        let mut j: usize = 0;
        while j < self.children.len()
            invariant
                cs0 == old(self).children@,
                !self.valid,
                j <= self.children@.len(),
                self.children@.len() == cs0.len(),
                forall|i: int| 0 <= i < cs0.len() ==> (#[trigger] self.children@[i]).wf(),
                forall|i: int| 0 <= i < cs0.len() ==>
                    (#[trigger] self.children@[i]).whole() == cs0[i].whole()
                    && self.children@[i].may_fail() == cs0[i].may_fail(),
                forall|i: int| 0 <= i < j ==> (#[trigger] self.children@[i]).rest() == cs0[i].whole(),
            decreases self.children@.len() - j,
        {
            let res = self.children[j].rewind();
            if res.is_err() {
                proof {
                    assert(wholes_of(self.children@) =~= wholes_of(cs0));
                    lemma_any_fails_same(cs0, self.children@);
                    assert(cs0[j as int].may_fail());
                }
                return res;
            }
            j = j + 1;
        }
        proof {
            assert(wholes_of(self.children@) =~= wholes_of(cs0));
            assert(rests_of(self.children@) =~= wholes_of(cs0));
            lemma_any_fails_same(cs0, self.children@);
        }
        self.heap = build_heap(&self.children);
        self.valid = true;
        Ok(())
    }

    fn seek(&mut self, key: &[u8]) -> (r: HummockResult<()>) {
        self.valid = false;
        let ghost cs0 = self.children@;
        let mut j: usize = 0;
        while j < self.children.len()
            invariant
                cs0 == old(self).children@,
                !self.valid,
                j <= self.children@.len(),
                self.children@.len() == cs0.len(),
                forall|i: int| 0 <= i < cs0.len() ==> (#[trigger] self.children@[i]).wf(),
                forall|i: int| 0 <= i < cs0.len() ==>
                    (#[trigger] self.children@[i]).whole() == cs0[i].whole()
                    && self.children@[i].may_fail() == cs0[i].may_fail(),
                forall|i: int| 0 <= i < j ==>
                    (#[trigger] self.children@[i]).rest() == drop_lt(cs0[i].whole(), key@),
            decreases self.children@.len() - j,
        {
            let res = self.children[j].seek(key);
            if res.is_err() {
                proof {
                    assert(wholes_of(self.children@) =~= wholes_of(cs0));
                    lemma_any_fails_same(cs0, self.children@);
                    assert(cs0[j as int].may_fail());
                }
                return res;
            }
            j = j + 1;
        }
        proof {
            assert(wholes_of(self.children@) =~= wholes_of(cs0));
            assert(rests_of(self.children@) =~= drop_all_lt(wholes_of(cs0), key@));
            lemma_merge_seek(wholes_of(cs0), key@);
            lemma_any_fails_same(cs0, self.children@);
        }
        self.heap = build_heap(&self.children);
        self.valid = true;
        Ok(())
    }
}

/// The merged stream from the first entry is ordered when the stream of
/// every child is.
pub proof fn lemma_whole_ordered<I: HummockIterator>(it: &SortedIterator<I>)
    requires
        forall|i: int| 0 <= i < it.children().len() ==> sorted(#[trigger] it.children()[i].whole()),
    ensures
        sorted(it.whole()),
{
    let ss = wholes_of(it.children@);
    assert forall|i: int| 0 <= i < ss.len() implies sorted(#[trigger] ss[i]) by {
        assert(sorted(it.children()[i].whole()));
        assert(ss[i] == it.children@[i].whole());
    }
    lemma_merge_sorted(ss);
}

/// In every state, what is left of the merged stream is ordered when what is
/// left of every child's stream is; so consecutive keys never decrease.
pub proof fn lemma_rest_ordered<I: HummockIterator>(it: &SortedIterator<I>)
    requires
        forall|i: int| 0 <= i < it.children().len() ==> sorted(#[trigger] it.children()[i].rest()),
    ensures
        sorted(it.rest()),
{
    let ss = rests_of(it.children@);
    assert forall|i: int| 0 <= i < ss.len() implies sorted(#[trigger] ss[i]) by {
        assert(sorted(it.children()[i].rest()));
        assert(ss[i] == it.children@[i].rest());
    }
    lemma_merge_sorted(ss);
}

} // verus!
