//! The merged stream of several sorted streams, and its laws.
use vstd::prelude::*;
use crate::key::{EntryView, bytes_lt, key_le, key_lt, lemma_key_order, lemma_bytes_order, sorted};
use crate::iterator::drop_lt;

verus! {

/// Index of the stream among `ss[..j]` whose head is smallest, the earliest
/// one winning ties; `-1` when they are all empty.
pub open spec fn min_upto(ss: Seq<Seq<EntryView>>, j: int) -> int
    decreases j,
{
    if j <= 0 {
        -1
    } else {
        let b = min_upto(ss, j - 1);
        if ss[j - 1].len() == 0 {
            b
        } else if b < 0 || key_lt(ss[j - 1][0], ss[b][0]) {
            j - 1
        } else {
            b
        }
    }
}

pub open spec fn min_index(ss: Seq<Seq<EntryView>>) -> int {
    min_upto(ss, ss.len() as int)
}

/// The number of entries in `ss[..j]`.
pub open spec fn total_len(ss: Seq<Seq<EntryView>>, j: int) -> int
    decreases j,
{
    if j <= 0 {
        0
    } else {
        total_len(ss, j - 1) + ss[j - 1].len()
    }
}

/// The streams `ss` merged: repeatedly the smallest head, ties going to the
/// earlier stream.
pub open spec fn merge_of(ss: Seq<Seq<EntryView>>) -> Seq<EntryView>
    decreases total_len(ss, ss.len() as int),
    via merge_of_decreases
{
    let i = min_index(ss);
    if 0 <= i < ss.len() && ss[i].len() > 0 {
        seq![ss[i][0]] + merge_of(ss.update(i, ss[i].drop_first()))
    } else {
        Seq::empty()
    }
}

proof fn lemma_total_update(ss: Seq<Seq<EntryView>>, i: int, s: Seq<EntryView>, j: int)
    requires
        0 <= i < ss.len(),
        0 <= j <= ss.len(),
    ensures
        total_len(ss, j) >= 0,
        ss.update(i, s).len() == ss.len(),
        total_len(ss.update(i, s), j) == total_len(ss, j) + if i < j {
            s.len() - ss[i].len()
        } else {
            0
        },
    decreases j,
{
    if j > 0 {
        lemma_total_update(ss, i, s, j - 1);
    }
}

proof fn lemma_merge_step(ss: Seq<Seq<EntryView>>, i: int)
    requires
        0 <= i < ss.len(),
        ss[i].len() > 0,
    ensures
        0 <= total_len(ss.update(i, ss[i].drop_first()), ss.len() as int) < total_len(ss, ss.len() as int),
        ss.update(i, ss[i].drop_first()).len() == ss.len(),
{
    let ss2 = ss.update(i, ss[i].drop_first());
    lemma_total_update(ss, i, ss[i].drop_first(), ss.len() as int);
    lemma_total_update(ss2, i, ss2[i], ss2.len() as int);
}

#[via_fn]
proof fn merge_of_decreases(ss: Seq<Seq<EntryView>>) {
    let i = min_index(ss);
    if 0 <= i < ss.len() && ss[i].len() > 0 {
        lemma_merge_step(ss, i);
    }
}

/// The chosen index is a non-empty stream whose head is no larger than any
/// other head; no index is chosen only when all streams are empty.
pub proof fn lemma_min_upto(ss: Seq<Seq<EntryView>>, j: int)
    requires
        0 <= j <= ss.len(),
    ensures
        min_upto(ss, j) < j,
        min_upto(ss, j) >= 0 ==> ss[min_upto(ss, j)].len() > 0,
        min_upto(ss, j) < 0 ==> forall|i: int| 0 <= i < j ==> (#[trigger] ss[i]).len() == 0,
        min_upto(ss, j) >= 0 ==> forall|i: int|
            0 <= i < j && (#[trigger] ss[i]).len() > 0 ==> key_le(ss[min_upto(ss, j)][0], ss[i][0]),
        min_upto(ss, j) >= 0 ==> forall|i: int|
            0 <= i < min_upto(ss, j) && (#[trigger] ss[i]).len() > 0 ==> key_lt(ss[min_upto(ss, j)][0], ss[i][0]),
    decreases j,
{
    if j > 0 {
        lemma_min_upto(ss, j - 1);
        let b = min_upto(ss, j - 1);
        let m = min_upto(ss, j);
        assert forall|i: int| 0 <= i < j && (#[trigger] ss[i]).len() > 0 implies key_le(ss[m][0], ss[i][0]) by {
            lemma_key_order(ss[m][0], ss[m][0], ss[m][0]);
            if b >= 0 {
                lemma_key_order(ss[m][0], ss[b][0], ss[i][0]);
                lemma_key_order(ss[b][0], ss[j - 1][0], ss[i][0]);
            }
        }
        assert forall|i: int| 0 <= i < m && (#[trigger] ss[i]).len() > 0 implies key_lt(ss[m][0], ss[i][0]) by {
            if b >= 0 {
                lemma_key_order(ss[m][0], ss[b][0], ss[i][0]);
                lemma_key_order(ss[j - 1][0], ss[b][0], ss[i][0]);
            }
        }
    }
}

/// Every entry of a merge is bounded below by whatever bounds all the inputs.
pub proof fn lemma_merge_lower_bound(ss: Seq<Seq<EntryView>>, x: EntryView)
    requires
        forall|i: int, j: int| 0 <= i < ss.len() && 0 <= j < ss[i].len() ==> key_le(x, #[trigger] ss[i][j]),
    ensures
        forall|j: int| 0 <= j < merge_of(ss).len() ==> key_le(x, #[trigger] merge_of(ss)[j]),
    decreases total_len(ss, ss.len() as int),
{
    let m = min_index(ss);
    lemma_min_upto(ss, ss.len() as int);
    if m >= 0 {
        let ss2 = ss.update(m, ss[m].drop_first());
        lemma_merge_step(ss, m);
        assert forall|i: int, j: int| 0 <= i < ss2.len() && 0 <= j < ss2[i].len() implies key_le(x, #[trigger] ss2[i][j]) by {
            if i == m {
                assert(ss2[i][j] == ss[m][j + 1]);
            } else {
                assert(ss2[i][j] == ss[i][j]);
            }
        }
        lemma_merge_lower_bound(ss2, x);
        let r = merge_of(ss);
        assert forall|j: int| 0 <= j < r.len() implies key_le(x, #[trigger] r[j]) by {
            if j > 0 {
                assert(r[j] == merge_of(ss2)[j - 1]);
            } else {
                assert(r[0] == ss[m][0]);
            }
        }
    }
}

/// Merging sorted streams gives a sorted stream.
pub proof fn lemma_merge_sorted(ss: Seq<Seq<EntryView>>)
    requires
        forall|i: int| 0 <= i < ss.len() ==> sorted(#[trigger] ss[i]),
    ensures
        sorted(merge_of(ss)),
    decreases total_len(ss, ss.len() as int),
{
    let m = min_index(ss);
    lemma_min_upto(ss, ss.len() as int);
    if m >= 0 {
        let h = ss[m][0];
        let ss2 = ss.update(m, ss[m].drop_first());
        lemma_merge_step(ss, m);
        assert forall|i: int| 0 <= i < ss2.len() implies sorted(#[trigger] ss2[i]) by {
            if i == m {
                assert forall|a: int, b: int| 0 <= a < b < ss2[i].len() implies key_le(#[trigger] ss2[i][a], #[trigger] ss2[i][b]) by {
                    assert(ss2[i][a] == ss[m][a + 1]);
                    assert(ss2[i][b] == ss[m][b + 1]);
                }
            }
        }
        assert forall|i: int, j: int| 0 <= i < ss2.len() && 0 <= j < ss2[i].len() implies key_le(h, #[trigger] ss2[i][j]) by {
            if i == m {
                assert(ss2[i][j] == ss[m][j + 1]);
                assert(key_le(ss[m][0], ss[m][j + 1]));
            } else {
                assert(ss2[i][j] == ss[i][j]);
                assert(key_le(ss[i][0], ss[i][j]) || j == 0);
                lemma_key_order(h, ss[i][0], ss[i][j]);
                lemma_key_order(h, h, h);
            }
        }
        lemma_merge_sorted(ss2);
        lemma_merge_lower_bound(ss2, h);
        let r = merge_of(ss);
        assert forall|a: int, b: int| 0 <= a < b < r.len() implies key_le(#[trigger] r[a], #[trigger] r[b]) by {
            assert(r[b] == merge_of(ss2)[b - 1]);
            if a > 0 {
                assert(r[a] == merge_of(ss2)[a - 1]);
            }
        }
    }
}

/// Stream `a`'s head comes before stream `b`'s: a smaller internal key, or
/// an equal one and an earlier stream.
pub open spec fn before(ss: Seq<Seq<EntryView>>, a: int, b: int) -> bool {
    key_lt(ss[a][0], ss[b][0]) || (!key_lt(ss[b][0], ss[a][0]) && a < b)
}

pub open spec fn parent(p: int) -> int {
    (p - 1) / 2
}

pub open spec fn live(ss: Seq<Seq<EntryView>>, i: int) -> bool {
    0 <= i < ss.len() && ss[i].len() > 0
}

/// Order holds on every edge of the heap but those from position `p` to its
/// children, and `p`'s parent comes no later than those children.
pub open spec fn hole_down(ss: Seq<Seq<EntryView>>, h: Seq<usize>, p: int) -> bool {
    &&& forall|q: int| 0 < q < h.len() && parent(q) != p ==> !before(ss, #[trigger] h[q] as int, h[parent(q)] as int)
    &&& p > 0 ==> forall|q: int| 0 < q < h.len() && parent(q) == p ==> !before(ss, #[trigger] h[q] as int, h[parent(p)] as int)
}

/// Order holds on every edge of the heap but the one from position `p` to
/// its parent, and `p`'s parent comes no later than `p`'s children.
pub open spec fn hole_up(ss: Seq<Seq<EntryView>>, h: Seq<usize>, p: int) -> bool {
    &&& forall|q: int| 0 < q < h.len() && q != p ==> !before(ss, #[trigger] h[q] as int, h[parent(q)] as int)
    &&& p > 0 ==> forall|q: int| 0 < q < h.len() && parent(q) == p ==> !before(ss, #[trigger] h[q] as int, h[parent(p)] as int)
}

/// `h` holds distinct indices of non-empty streams.
pub open spec fn heap_elems(ss: Seq<Seq<EntryView>>, h: Seq<usize>) -> bool {
    &&& forall|p: int| 0 <= p < h.len() ==> live(ss, #[trigger] h[p] as int)
    &&& forall|p: int, q: int| 0 <= p < h.len() && 0 <= q < h.len() && p != q ==> #[trigger] h[p] != #[trigger] h[q]
}

/// Every non-empty stream among the first `j` is in `h`.
pub open spec fn heap_covers(ss: Seq<Seq<EntryView>>, h: Seq<usize>, j: int) -> bool {
    forall|i: int| 0 <= i < j && live(ss, i) ==> exists|p: int| 0 <= p < h.len() && #[trigger] h[p] == i
}

/// No element sits before its parent.
pub open spec fn heap_ordered(ss: Seq<Seq<EntryView>>, h: Seq<usize>) -> bool {
    forall|q: int| 0 < q < h.len() ==> !before(ss, #[trigger] h[q] as int, h[parent(q)] as int)
}

/// A min-heap of the indices of exactly the non-empty streams.
pub open spec fn heap_ok(ss: Seq<Seq<EntryView>>, h: Seq<usize>) -> bool {
    &&& heap_elems(ss, h)
    &&& heap_covers(ss, h, ss.len() as int)
    &&& heap_ordered(ss, h)
}

/// `before` is a strict total order on the non-empty streams.
pub proof fn lemma_before_order(ss: Seq<Seq<EntryView>>, a: int, b: int, c: int)
    requires
        live(ss, a),
        live(ss, b),
        live(ss, c),
    ensures
        !before(ss, a, a),
        a != b ==> before(ss, a, b) || before(ss, b, a),
        before(ss, a, b) ==> !before(ss, b, a),
        !before(ss, b, a) && !before(ss, c, b) ==> !before(ss, c, a),
        before(ss, a, b) && before(ss, b, c) ==> before(ss, a, c),
{
    lemma_key_order(ss[a][0], ss[b][0], ss[c][0]);
    lemma_key_order(ss[b][0], ss[a][0], ss[c][0]);
    lemma_key_order(ss[c][0], ss[b][0], ss[a][0]);
    lemma_key_order(ss[a][0], ss[c][0], ss[b][0]);
    lemma_key_order(ss[b][0], ss[c][0], ss[a][0]);
    lemma_key_order(ss[c][0], ss[a][0], ss[b][0]);
}

proof fn lemma_heap_root_le(ss: Seq<Seq<EntryView>>, h: Seq<usize>, p: int)
    requires
        heap_elems(ss, h),
        heap_ordered(ss, h),
        0 <= p < h.len(),
    ensures
        !before(ss, h[p] as int, h[0] as int),
    decreases p,
{
    if p == 0 {
        lemma_before_order(ss, h[0] as int, h[0] as int, h[0] as int);
    } else {
        let q = parent(p);
        lemma_heap_root_le(ss, h, q);
        lemma_before_order(ss, h[0] as int, h[q] as int, h[p] as int);
    }
}

/// The root of the heap is the stream that the merge takes from next; an
/// empty heap means that every stream is empty.
pub proof fn lemma_heap_root_is_min(ss: Seq<Seq<EntryView>>, h: Seq<usize>)
    requires
        heap_ok(ss, h),
    ensures
        h.len() > 0 ==> min_index(ss) == h[0] as int,
        h.len() == 0 ==> min_index(ss) < 0,
{
    lemma_min_upto(ss, ss.len() as int);
    let b = min_index(ss);
    if h.len() > 0 {
        let m = h[0] as int;
        assert(live(ss, m));
        assert(b >= 0) by {
            if b < 0 {
                assert(ss[m].len() == 0);
            }
        }
        assert(live(ss, b));
        let p = choose|p: int| 0 <= p < h.len() && #[trigger] h[p] == b;
        lemma_heap_root_le(ss, h, p);
        lemma_key_order(ss[b][0], ss[m][0], ss[m][0]);
        lemma_key_order(ss[m][0], ss[b][0], ss[b][0]);
    } else if b >= 0 {
        assert(live(ss, b));
        let p = choose|p: int| 0 <= p < h.len() && #[trigger] h[p] == b;
    }
}

/// Swapping two positions keeps the heap's elements and what they cover.
pub proof fn lemma_heap_swap(ss: Seq<Seq<EntryView>>, h: Seq<usize>, a: int, b: int, j: int)
    requires
        heap_elems(ss, h),
        heap_covers(ss, h, j),
        0 <= a < h.len(),
        0 <= b < h.len(),
    ensures
        heap_elems(ss, h.update(a, h[b]).update(b, h[a])),
        heap_covers(ss, h.update(a, h[b]).update(b, h[a]), j),
        (forall|p: int| 0 <= p < h.len() ==> #[trigger] h[p] < j)
            ==> (forall|p: int| 0 <= p < h.len() ==> #[trigger] h.update(a, h[b]).update(b, h[a])[p] < j),
{
    let h2 = h.update(a, h[b]).update(b, h[a]);
    assert forall|p: int| 0 <= p < h2.len() implies live(ss, #[trigger] h2[p] as int) by {
        if p == a {
            assert(live(ss, h[b] as int));
        } else if p == b {
            assert(live(ss, h[a] as int));
        } else {
            assert(live(ss, h[p] as int));
        }
    }
    assert forall|p: int, q: int| 0 <= p < h2.len() && 0 <= q < h2.len() && p != q implies #[trigger] h2[p] != #[trigger] h2[q] by {
        let p0 = if p == b { a } else if p == a { b } else { p };
        let q0 = if q == b { a } else if q == a { b } else { q };
        assert(h2[p] == h[p0] && h2[q] == h[q0]);
        assert(h[p0] != h[q0]);
    }
    assert forall|i: int| 0 <= i < j && live(ss, i) implies exists|p: int| 0 <= p < h2.len() && #[trigger] h2[p] == i by {
        let p = choose|p: int| 0 <= p < h.len() && #[trigger] h[p] == i;
        let p2 = if p == a { b } else if p == b { a } else { p };
        assert(h2[p2] == i);
    }
}

/// For each entry of `merge_of(ss)`, the index of the stream it is taken from.
pub open spec fn merge_sources(ss: Seq<Seq<EntryView>>) -> Seq<int>
    decreases total_len(ss, ss.len() as int),
    via merge_sources_decreases
{
    let i = min_index(ss);
    if 0 <= i < ss.len() && ss[i].len() > 0 {
        seq![i] + merge_sources(ss.update(i, ss[i].drop_first()))
    } else {
        Seq::empty()
    }
}

#[via_fn]
proof fn merge_sources_decreases(ss: Seq<Seq<EntryView>>) {
    let i = min_index(ss);
    if 0 <= i < ss.len() && ss[i].len() > 0 {
        lemma_merge_step(ss, i);
    }
}

/// No two consecutive entries of the stream share an internal key.
pub open spec fn strictly_sorted(s: Seq<EntryView>) -> bool {
    forall|i: int| 0 <= i < s.len() - 1 ==> key_lt(#[trigger] s[i], s[i + 1])
}

pub open spec fn same_key(x: EntryView, y: EntryView) -> bool {
    x.user_key == y.user_key && x.epoch == y.epoch
}

/// When no stream repeats an internal key, two consecutive entries of the
/// merge with equal internal keys are taken from different streams.
pub proof fn lemma_merge_equal_keys_distinct_sources(ss: Seq<Seq<EntryView>>)
    requires
        forall|c: int| 0 <= c < ss.len() ==> strictly_sorted(#[trigger] ss[c]),
    ensures
        merge_sources(ss).len() == merge_of(ss).len(),
        forall|i: int| 0 <= i < merge_of(ss).len() - 1 && same_key(#[trigger] merge_of(ss)[i], merge_of(ss)[i + 1])
            ==> merge_sources(ss)[i] != merge_sources(ss)[i + 1],
    decreases total_len(ss, ss.len() as int),
{
    let m = min_index(ss);
    lemma_min_upto(ss, ss.len() as int);
    if m >= 0 {
        let ss2 = ss.update(m, ss[m].drop_first());
        lemma_merge_step(ss, m);
        assert forall|c: int| 0 <= c < ss2.len() implies strictly_sorted(#[trigger] ss2[c]) by {
            if c == m {
                assert forall|i: int| 0 <= i < ss2[c].len() - 1 implies key_lt(#[trigger] ss2[c][i], ss2[c][i + 1]) by {
                    assert(ss2[c][i] == ss[m][i + 1]);
                    assert(ss2[c][i + 1] == ss[m][i + 2]);
                }
            }
        }
        lemma_merge_equal_keys_distinct_sources(ss2);
        let out = merge_of(ss);
        let src = merge_sources(ss);
        let out2 = merge_of(ss2);
        let src2 = merge_sources(ss2);
        assert forall|i: int| 0 <= i < out.len() - 1 && same_key(#[trigger] out[i], out[i + 1]) implies src[i] != src[i + 1] by {
            if i == 0 {
                if src2[0] == m {
                    lemma_min_upto(ss2, ss2.len() as int);
                    assert(out2[0] == ss2[m][0]);
                    assert(ss2[m][0] == ss[m][1]);
                    assert(key_lt(ss[m][0], ss[m][1]));
                    lemma_key_order(ss[m][0], ss[m][0], ss[m][0]);
                }
            } else {
                assert(out[i] == out2[i - 1] && out[i + 1] == out2[i]);
                assert(src[i] == src2[i - 1] && src[i + 1] == src2[i]);
            }
        }
    }
}

pub open spec fn drop_all_lt(ss: Seq<Seq<EntryView>>, k: Seq<u8>) -> Seq<Seq<EntryView>> {
    ss.map_values(|s: Seq<EntryView>| drop_lt(s, k))
}

/// Seeking every input and then merging gives what merging and then seeking
/// gives.
pub proof fn lemma_merge_seek(ss: Seq<Seq<EntryView>>, k: Seq<u8>)
    ensures
        merge_of(drop_all_lt(ss, k)) == drop_lt(merge_of(ss), k),
    decreases total_len(ss, ss.len() as int),
{
    let m = min_index(ss);
    lemma_min_upto(ss, ss.len() as int);
    if m >= 0 && bytes_lt(ss[m][0].user_key, k) {
        let ss2 = ss.update(m, ss[m].drop_first());
        lemma_merge_step(ss, m);
        assert(drop_all_lt(ss2, k) =~= drop_all_lt(ss, k));
        lemma_merge_seek(ss2, k);
        assert(merge_of(ss).drop_first() =~= merge_of(ss2));
    } else {
        assert forall|i: int| 0 <= i < ss.len() implies drop_lt(#[trigger] ss[i], k) == ss[i] by {
            if ss[i].len() > 0 {
                let h = ss[m][0];
                let x = ss[i][0];
                lemma_key_order(h, x, x);
                lemma_bytes_order(h.user_key, x.user_key, k);
                lemma_bytes_order(x.user_key, k, k);
            }
        }
        assert(drop_all_lt(ss, k) =~= ss);
    }
}

} // verus!
