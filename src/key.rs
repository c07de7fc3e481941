//! Internal keys, stored values and the order every iterator preserves.
use vstd::prelude::*;

verus! {

/// A user key together with the epoch (version) at which it was written.
#[derive(Debug, PartialEq, Eq)]
pub struct InternalKey {
    pub user_key: Vec<u8>,
    pub epoch: u64,
}

/// What is stored under an internal key: a value, or a tombstone.
#[derive(Debug, PartialEq, Eq)]
pub enum HummockValue {
    Put(Vec<u8>),
    Delete,
}

/// One entry of a sorted run.
#[derive(Debug, PartialEq, Eq)]
pub struct Entry {
    pub key: InternalKey,
    pub value: HummockValue,
}

/// The mathematical model of an entry; `value` is `None` for a tombstone.
pub struct EntryView {
    pub user_key: Seq<u8>,
    pub epoch: u64,
    pub value: Option<Seq<u8>>,
}

impl View for HummockValue {
    type V = Option<Seq<u8>>;

    open spec fn view(&self) -> Option<Seq<u8>> {
        match self {
            HummockValue::Put(v) => Some(v@),
            HummockValue::Delete => None,
        }
    }
}

impl View for Entry {
    type V = EntryView;

    open spec fn view(&self) -> EntryView {
        EntryView { user_key: self.key.user_key@, epoch: self.key.epoch, value: self.value@ }
    }
}

impl InternalKey {
    pub fn new(user_key: Vec<u8>, epoch: u64) -> (r: InternalKey)
        ensures
            r.user_key@ == user_key@,
            r.epoch == epoch,
    {
        InternalKey { user_key, epoch }
    }
}

impl Clone for HummockValue {
    fn clone(&self) -> (r: HummockValue)
        ensures
            r@ == self@,
    {
        match self {
            HummockValue::Put(v) => HummockValue::Put(v.clone()),
            HummockValue::Delete => HummockValue::Delete,
        }
    }
}

impl HummockValue {
    pub fn is_put(&self) -> (r: bool)
        ensures
            r == (self@ is Some),
    {
        match self {
            HummockValue::Put(_) => true,
            HummockValue::Delete => false,
        }
    }
}

impl Clone for InternalKey {
    fn clone(&self) -> (r: InternalKey)
        ensures
            r.user_key@ == self.user_key@,
            r.epoch == self.epoch,
    {
        InternalKey { user_key: self.user_key.clone(), epoch: self.epoch }
    }
}

impl Clone for Entry {
    fn clone(&self) -> (r: Entry)
        ensures
            r@ == self@,
    {
        Entry { key: self.key.clone(), value: self.value.clone() }
    }
}

impl Entry {
    pub fn put(user_key: Vec<u8>, epoch: u64, value: Vec<u8>) -> (r: Entry)
        ensures
            r@ == (EntryView { user_key: user_key@, epoch, value: Some(value@) }),
    {
        Entry { key: InternalKey { user_key, epoch }, value: HummockValue::Put(value) }
    }

    pub fn delete(user_key: Vec<u8>, epoch: u64) -> (r: Entry)
        ensures
            r@ == (EntryView { user_key: user_key@, epoch, value: None }),
    {
        Entry { key: InternalKey { user_key, epoch }, value: HummockValue::Delete }
    }
}

/// Byte-lexicographic `a < b`, comparing from position `i` on, the bytes
/// before `i` being equal.
pub open spec fn bytes_lt_from(a: Seq<u8>, b: Seq<u8>, i: int) -> bool
    decreases a.len() - i,
{
    if i < 0 || i >= a.len() {
        0 <= i < b.len()
    } else if i >= b.len() {
        false
    } else if a[i] != b[i] {
        a[i] < b[i]
    } else {
        bytes_lt_from(a, b, i + 1)
    }
}

/// Byte-lexicographic order on user keys; a proper prefix comes first.
pub open spec fn bytes_lt(a: Seq<u8>, b: Seq<u8>) -> bool {
    bytes_lt_from(a, b, 0)
}

/// The internal-key order: ascending by user key, then descending by epoch.
pub open spec fn key_lt(x: EntryView, y: EntryView) -> bool {
    bytes_lt(x.user_key, y.user_key) || (x.user_key == y.user_key && x.epoch > y.epoch)
}

pub open spec fn key_le(x: EntryView, y: EntryView) -> bool {
    key_lt(x, y) || (x.user_key == y.user_key && x.epoch == y.epoch)
}

/// A stream in which no entry is smaller than an earlier one.
pub open spec fn sorted(s: Seq<EntryView>) -> bool {
    forall|i: int, j: int| 0 <= i < j < s.len() ==> key_le(#[trigger] s[i], #[trigger] s[j])
}

proof fn lemma_bytes_lt_from_trans(a: Seq<u8>, b: Seq<u8>, c: Seq<u8>, i: int)
    requires
        0 <= i,
        bytes_lt_from(a, b, i),
        bytes_lt_from(b, c, i),
    ensures
        bytes_lt_from(a, c, i),
    decreases a.len() - i,
{
    if i < a.len() && i < b.len() && i < c.len() && a[i] == b[i] && b[i] == c[i] {
        lemma_bytes_lt_from_trans(a, b, c, i + 1);
    }
}

proof fn lemma_bytes_lt_from_total(a: Seq<u8>, b: Seq<u8>, i: int)
    requires
        0 <= i <= a.len(),
        i <= b.len(),
        !bytes_lt_from(a, b, i),
        !bytes_lt_from(b, a, i),
    ensures
        a.len() == b.len(),
        forall|j: int| i <= j < a.len() ==> a[j] == b[j],
    decreases a.len() - i,
{
    if i < a.len() && i < b.len() {
        lemma_bytes_lt_from_total(a, b, i + 1);
    }
}

proof fn lemma_bytes_lt_from_irrefl(a: Seq<u8>, i: int)
    requires
        0 <= i,
    ensures
        !bytes_lt_from(a, a, i),
    decreases a.len() - i,
{
    if i < a.len() {
        lemma_bytes_lt_from_irrefl(a, i + 1);
    }
}

proof fn lemma_bytes_lt_from_asym(a: Seq<u8>, b: Seq<u8>, i: int)
    requires
        0 <= i,
        bytes_lt_from(a, b, i),
    ensures
        !bytes_lt_from(b, a, i),
    decreases a.len() - i,
{
    if i < a.len() && i < b.len() && a[i] == b[i] {
        lemma_bytes_lt_from_asym(a, b, i + 1);
    }
}

/// The byte order is a strict total order.
pub proof fn lemma_bytes_order(a: Seq<u8>, b: Seq<u8>, c: Seq<u8>)
    ensures
        !bytes_lt(a, a),
        bytes_lt(a, b) ==> !bytes_lt(b, a),
        bytes_lt(a, b) && bytes_lt(b, c) ==> bytes_lt(a, c),
        a == b || bytes_lt(a, b) || bytes_lt(b, a),
{
    lemma_bytes_lt_from_irrefl(a, 0);
    if bytes_lt(a, b) {
        lemma_bytes_lt_from_asym(a, b, 0);
        if bytes_lt(b, c) {
            lemma_bytes_lt_from_trans(a, b, c, 0);
        }
    }
    if !bytes_lt(a, b) && !bytes_lt(b, a) {
        lemma_bytes_lt_from_total(a, b, 0);
        assert(a =~= b);
    }
}

/// The internal-key order is a total preorder that is strict on `key_lt`.
pub proof fn lemma_key_order(x: EntryView, y: EntryView, z: EntryView)
    ensures
        !key_lt(x, x),
        key_lt(x, y) ==> !key_le(y, x),
        key_le(x, y) || key_lt(y, x),
        key_le(x, y) && key_le(y, z) ==> key_le(x, z),
        key_le(x, y) && key_lt(y, z) ==> key_lt(x, z),
        key_lt(x, y) && key_le(y, z) ==> key_lt(x, z),
        key_le(x, y) ==> x.user_key == y.user_key || bytes_lt(x.user_key, y.user_key),
{
    lemma_bytes_order(x.user_key, y.user_key, z.user_key);
    lemma_bytes_order(y.user_key, x.user_key, z.user_key);
    lemma_bytes_order(x.user_key, z.user_key, y.user_key);
}

/// Compares two byte strings in the byte-lexicographic order.
pub fn bytes_less(a: &[u8], b: &[u8]) -> (r: bool)
    ensures
        r == bytes_lt(a@, b@),
{
    let mut i: usize = 0;
    while i < a.len() && i < b.len()
        invariant
            0 <= i <= a@.len(),
            i <= b@.len(),
            bytes_lt(a@, b@) == bytes_lt_from(a@, b@, i as int),
        decreases a@.len() - i,
    {
        if a[i] != b[i] {
            return a[i] < b[i];
        }
        i = i + 1;
    }
    i < b.len()
}

/// Compares two internal keys: `a` strictly before `b`.
pub fn key_less(a: &InternalKey, b: &InternalKey) -> (r: bool)
    ensures
        r == key_lt(
            EntryView { user_key: a.user_key@, epoch: a.epoch, value: None },
            EntryView { user_key: b.user_key@, epoch: b.epoch, value: None },
        ),
{
    if bytes_less(a.user_key.as_slice(), b.user_key.as_slice()) {
        true
    } else if bytes_less(b.user_key.as_slice(), a.user_key.as_slice()) {
        proof {
            lemma_bytes_order(b.user_key@, a.user_key@, a.user_key@);
        }
        false
    } else {
        proof {
            lemma_bytes_order(a.user_key@, b.user_key@, b.user_key@);
        }
        a.epoch > b.epoch
    }
}

} // verus!
