use hummock::concat::ConcatIterator;
use hummock::handle::{collect, HummockIteratorImpl};
use hummock::iterator::{HummockError, HummockIterator};
use hummock::key::{bytes_less, key_less, Entry, HummockValue, InternalKey};
use hummock::sorted::SortedIterator;
use hummock::table::TableIterator;
use hummock::user_key::UserKeyIterator;

fn put(k: &str, e: u64, v: &str) -> Entry {
    Entry::put(k.as_bytes().to_vec(), e, v.as_bytes().to_vec())
}

fn del(k: &str, e: u64) -> Entry {
    Entry::delete(k.as_bytes().to_vec(), e)
}

fn level(runs: Vec<Vec<Entry>>) -> ConcatIterator {
    ConcatIterator::new(runs.into_iter().map(TableIterator::new).collect())
}

fn single(run: Vec<Entry>) -> ConcatIterator {
    level(vec![run])
}

fn flat(items: Vec<(InternalKey, HummockValue)>) -> Vec<(String, u64, Option<String>)> {
    items
        .into_iter()
        .map(|(k, v)| {
            let value = match v {
                HummockValue::Put(b) => Some(String::from_utf8(b).unwrap()),
                HummockValue::Delete => None,
            };
            (String::from_utf8(k.user_key).unwrap(), k.epoch, value)
        })
        .collect()
}

fn visible_pairs<I: HummockIterator>(it: &mut I) -> Vec<(String, String)> {
    flat(collect(it).unwrap())
        .into_iter()
        .map(|(k, _, v)| (k, v.unwrap()))
        .collect()
}

fn pair(k: &str, v: &str) -> (String, String) {
    (k.to_string(), v.to_string())
}

fn scenario_a() -> SortedIterator<ConcatIterator> {
    SortedIterator::new(vec![
        single(vec![put("k1", 5, "a")]),
        single(vec![put("k1", 3, "b"), put("k2", 1, "c")]),
    ])
}

fn scenario_b() -> SortedIterator<ConcatIterator> {
    SortedIterator::new(vec![single(vec![del("k1", 5)]), single(vec![put("k1", 3, "old")])])
}

#[test]
fn scenario_a_merge_then_snapshot() {
    let mut it = UserKeyIterator::new(scenario_a(), 10);
    it.rewind().unwrap();
    assert_eq!(visible_pairs(&mut it), vec![pair("k1", "a"), pair("k2", "c")]);
    assert!(!it.is_valid());
}

#[test]
fn scenario_a_merged_stream_keeps_every_version() {
    let mut it = scenario_a();
    it.rewind().unwrap();
    let got = flat(collect(&mut it).unwrap());
    assert_eq!(
        got,
        vec![
            ("k1".to_string(), 5, Some("a".to_string())),
            ("k1".to_string(), 3, Some("b".to_string())),
            ("k2".to_string(), 1, Some("c".to_string())),
        ]
    );
}

#[test]
fn scenario_b_tombstone_hides_key() {
    let mut it = UserKeyIterator::new(scenario_b(), 10);
    it.rewind().unwrap();
    assert!(!it.is_valid());
    assert_eq!(visible_pairs(&mut it), Vec::<(String, String)>::new());
}

#[test]
fn scenario_b_snapshot_between_versions_sees_old_value() {
    let mut it = UserKeyIterator::new(scenario_b(), 4);
    it.rewind().unwrap();
    assert_eq!(visible_pairs(&mut it), vec![pair("k1", "old")]);
}

#[test]
fn scenario_b_snapshot_before_both_versions_sees_nothing() {
    let mut it = UserKeyIterator::new(scenario_b(), 2);
    it.rewind().unwrap();
    assert!(!it.is_valid());
}

#[test]
fn scenario_c_seek_skips_first_key() {
    let mut it = scenario_a();
    it.seek(b"k2").unwrap();
    assert!(it.is_valid());
    assert_eq!(it.key().user_key, b"k2".to_vec());
    assert_eq!(it.key().epoch, 1);
    let mut snap = UserKeyIterator::new(scenario_a(), 10);
    snap.seek(b"k2").unwrap();
    assert_eq!(visible_pairs(&mut snap), vec![pair("k2", "c")]);
}

#[test]
fn scenario_d_leaf_error_surfaces_from_merge() {
    let failing = TableIterator::with_failure(
        vec![put("k1", 3, "b"), put("k2", 1, "c")],
        1,
        HummockError::IoFailure,
    );
    let mut it = SortedIterator::new(vec![
        single(vec![put("k1", 5, "a")]),
        ConcatIterator::new(vec![failing]),
    ]);
    it.rewind().unwrap();
    assert_eq!(it.key().epoch, 5);
    it.next().unwrap();
    assert_eq!(it.key().epoch, 3);
    assert_eq!(it.next(), Err(HummockError::IoFailure));
    assert!(!it.is_valid());
}

#[test]
fn leaf_error_on_rewind() {
    let mut t = TableIterator::with_failure(vec![put("a", 1, "x")], 0, HummockError::CorruptBlock);
    assert_eq!(t.rewind(), Err(HummockError::CorruptBlock));
    assert!(!t.is_valid());
    let mut u = UserKeyIterator::new(
        SortedIterator::new(vec![ConcatIterator::new(vec![TableIterator::with_failure(
            vec![put("a", 1, "x")],
            0,
            HummockError::CorruptBlock,
        )])]),
        10,
    );
    assert_eq!(u.rewind(), Err(HummockError::CorruptBlock));
    assert!(!u.is_valid());
}

#[test]
fn failure_index_past_end_never_fails() {
    let mut t = TableIterator::with_failure(vec![put("a", 1, "x")], 5, HummockError::IoFailure);
    t.rewind().unwrap();
    assert_eq!(t.next(), Ok(()));
    assert!(!t.is_valid());
}

#[test]
fn seek_matches_rewind_then_skip() {
    let build = || {
        SortedIterator::new(vec![
            level(vec![vec![put("a", 4, "1"), put("c", 2, "2")], vec![put("e", 9, "3")]]),
            single(vec![put("b", 1, "4"), put("c", 7, "5"), put("f", 3, "6")]),
            single(vec![]),
        ])
    };
    let mut full = build();
    full.rewind().unwrap();
    let all = flat(collect(&mut full).unwrap());
    for target in ["", "a", "b", "bb", "c", "d", "e", "f", "g"] {
        let mut it = build();
        it.seek(target.as_bytes()).unwrap();
        let got = flat(collect(&mut it).unwrap());
        let expected: Vec<_> = all.iter().filter(|e| e.0.as_str() >= target).cloned().collect();
        assert_eq!(got, expected, "seek to {:?}", target);
    }
}

#[test]
fn merged_stream_is_ordered() {
    let mut it = SortedIterator::new(vec![
        single(vec![put("a", 4, "1"), put("c", 2, "2")]),
        single(vec![put("a", 9, "3"), put("b", 1, "4"), put("c", 7, "5")]),
        level(vec![vec![put("a", 1, "6")], vec![], vec![put("d", 3, "7")]]),
    ]);
    it.rewind().unwrap();
    let got = collect(&mut it).unwrap();
    for w in got.windows(2) {
        assert!(!key_less(&w[1].0, &w[0].0));
    }
    let keys: Vec<(String, u64)> = flat(got).into_iter().map(|(k, e, _)| (k, e)).collect();
    let expected: Vec<(String, u64)> = [("a", 9), ("a", 4), ("a", 1), ("b", 1), ("c", 7), ("c", 2), ("d", 3)]
        .iter()
        .map(|(k, e)| (k.to_string(), *e))
        .collect();
    assert_eq!(keys, expected);
}

#[test]
fn equal_internal_keys_go_to_earlier_child_first() {
    let mut it = SortedIterator::new(vec![
        single(vec![put("k", 4, "memtable")]),
        single(vec![put("k", 4, "disk")]),
    ]);
    it.rewind().unwrap();
    let got = flat(collect(&mut it).unwrap());
    assert_eq!(got[0].2, Some("memtable".to_string()));
    assert_eq!(got[1].2, Some("disk".to_string()));
    let mut snap = UserKeyIterator::new(
        SortedIterator::new(vec![single(vec![put("k", 4, "memtable")]), single(vec![put("k", 4, "disk")])]),
        4,
    );
    snap.rewind().unwrap();
    assert_eq!(visible_pairs(&mut snap), vec![pair("k", "memtable")]);
}

#[test]
fn snapshot_picks_newest_version_not_after_read_epoch() {
    let mut snap = UserKeyIterator::new(
        SortedIterator::new(vec![
            single(vec![put("a", 8, "a8"), del("b", 6), put("c", 9, "c9")]),
            single(vec![put("a", 5, "a5"), put("a", 2, "a2"), put("b", 3, "b3"), put("d", 1, "d1")]),
        ]),
        6,
    );
    snap.rewind().unwrap();
    assert_eq!(visible_pairs(&mut snap), vec![pair("a", "a5"), pair("d", "d1")]);
}

#[test]
fn concat_reads_runs_in_order_and_skips_empty_ones() {
    let mut it = level(vec![vec![], vec![put("a", 1, "1"), put("b", 1, "2")], vec![], vec![put("c", 1, "3")]]);
    it.rewind().unwrap();
    let got: Vec<String> = flat(collect(&mut it).unwrap()).into_iter().map(|e| e.0).collect();
    assert_eq!(got, vec!["a", "b", "c"]);
    let mut s = level(vec![vec![put("a", 1, "1")], vec![put("c", 1, "3")]]);
    s.seek(b"b").unwrap();
    assert_eq!(s.key().user_key, b"c".to_vec());
    s.seek(b"z").unwrap();
    assert!(!s.is_valid());
}

#[test]
fn concat_error_when_next_run_cannot_be_read() {
    let mut it = ConcatIterator::new(vec![
        TableIterator::new(vec![put("a", 1, "1")]),
        TableIterator::with_failure(vec![put("b", 1, "2")], 0, HummockError::IoFailure),
    ]);
    it.rewind().unwrap();
    assert_eq!(it.next(), Err(HummockError::IoFailure));
    assert!(!it.is_valid());
}

#[test]
fn empty_iterators_are_never_valid() {
    let mut c = ConcatIterator::new(vec![]);
    c.rewind().unwrap();
    assert!(!c.is_valid());
    let mut m: SortedIterator<ConcatIterator> = SortedIterator::new(vec![]);
    m.rewind().unwrap();
    assert!(!m.is_valid());
    m.seek(b"x").unwrap();
    assert!(!m.is_valid());
}

#[test]
fn exhausted_cursor_stays_exhausted_until_repositioned() {
    let mut it = scenario_a();
    it.rewind().unwrap();
    while it.is_valid() {
        it.next().unwrap();
    }
    assert!(!it.is_valid());
    assert!(!it.is_valid());
    it.rewind().unwrap();
    assert!(it.is_valid());
}

#[test]
fn leaf_seek_lands_on_newest_version() {
    let mut t = TableIterator::new(vec![put("a", 1, "1"), put("b", 7, "2"), put("b", 3, "3")]);
    t.seek(b"b").unwrap();
    assert_eq!(t.key().epoch, 7);
    assert_eq!(t.value(), &HummockValue::Put(b"2".to_vec()));
    t.seek(b"c").unwrap();
    assert!(!t.is_valid());
}

#[test]
fn handle_dispatches_to_the_held_cursor() {
    let mut h = HummockIteratorImpl::Sorted(scenario_a());
    h.seek(b"k2").unwrap();
    assert_eq!(h.key().user_key, b"k2".to_vec());
    let mut u = HummockIteratorImpl::UserKey(UserKeyIterator::new(scenario_a(), 10));
    u.rewind().unwrap();
    assert_eq!(visible_pairs(&mut u), vec![pair("k1", "a"), pair("k2", "c")]);
    let mut t = HummockIteratorImpl::Table(TableIterator::new(vec![put("x", 1, "y")]));
    t.rewind().unwrap();
    assert!(t.is_valid());
    let mut c = HummockIteratorImpl::Concat(single(vec![]));
    c.rewind().unwrap();
    assert!(!c.is_valid());
}

#[test]
fn byte_order_puts_prefix_first() {
    assert!(bytes_less(b"ab", b"abc"));
    assert!(!bytes_less(b"abc", b"ab"));
    assert!(bytes_less(b"ab", b"b"));
    assert!(!bytes_less(b"ab", b"ab"));
    assert!(bytes_less(b"", b"a"));
    let newer = InternalKey::new(b"k".to_vec(), 9);
    let older = InternalKey::new(b"k".to_vec(), 2);
    assert!(key_less(&newer, &older));
    assert!(!key_less(&older, &newer));
}

#[test]
fn merge_over_leaves_and_nested_merges() {
    let inner = SortedIterator::new(vec![
        TableIterator::new(vec![put("b", 2, "inner-b")]),
        TableIterator::new(vec![put("a", 7, "inner-a")]),
    ]);
    let other = SortedIterator::new(vec![TableIterator::new(vec![put("a", 3, "outer-a"), put("c", 1, "outer-c")])]);
    let mut outer = SortedIterator::new(vec![inner, other]);
    outer.rewind().unwrap();
    let keys: Vec<(String, u64)> = flat(collect(&mut outer).unwrap()).into_iter().map(|(k, e, _)| (k, e)).collect();
    let expected: Vec<(String, u64)> =
        [("a", 7), ("a", 3), ("b", 2), ("c", 1)].iter().map(|(k, e)| (k.to_string(), *e)).collect();
    assert_eq!(keys, expected);
}

#[test]
fn merge_over_mixed_handles() {
    let memtable = HummockIteratorImpl::Table(TableIterator::new(vec![del("a", 9), put("d", 8, "mem-d")]));
    let level0 = HummockIteratorImpl::Concat(level(vec![vec![put("a", 4, "l0-a")], vec![put("b", 4, "l0-b")]]));
    let level1 = HummockIteratorImpl::Sorted(SortedIterator::new(vec![single(vec![put("c", 1, "l1-c"), put("d", 1, "l1-d")])]));
    let mut snap = UserKeyIterator::new(SortedIterator::new(vec![memtable, level0, level1]), 10);
    snap.rewind().unwrap();
    assert_eq!(
        visible_pairs(&mut snap),
        vec![pair("b", "l0-b"), pair("c", "l1-c"), pair("d", "mem-d")]
    );
}

#[test]
fn snapshot_over_a_single_leaf() {
    let mut snap = UserKeyIterator::new(TableIterator::new(vec![put("x", 5, "new"), put("x", 2, "old")]), 3);
    snap.rewind().unwrap();
    assert_eq!(visible_pairs(&mut snap), vec![pair("x", "old")]);
    snap.seek(b"y").unwrap();
    assert!(!snap.is_valid());
}
