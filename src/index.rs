use vstd::prelude::*;
use vstd::utf8::encode_utf8;

use crate::order::{compare_keys, key_lt, lemma_key_lt_asym, lemma_key_lt_trans, lemma_key_total};

verus! {

/// The model of one asset's metadata: storage key, modification time, size.
pub type MetaView = (Seq<char>, u64, u64);

/// Asset metadata
#[derive(Debug, Clone, PartialEq, Eq, Ord, PartialOrd)]
pub struct AssetMetadata {
    /// Path to file within the namespace
    pub path: String,
    /// Last modified time of file, in UTC seconds since EPOCH
    pub modified: u64,
    /// Size of file
    pub size: u64,
}

impl View for AssetMetadata {
    type V = MetaView;

    open spec fn view(&self) -> MetaView {
        (self.path@, self.modified, self.size)
    }
}

impl AssetMetadata {
    pub fn new(path: String, modified: u64, size: u64) -> (r: AssetMetadata)
        ensures
            r@ == (path@, modified, size),
    {
        AssetMetadata { path, modified, size }
    }

    /// A copy of this metadata, field for field.
    pub fn duplicate(&self) -> (r: AssetMetadata)
        ensures
            r@ == self@,
    {
        AssetMetadata { path: self.path.clone(), modified: self.modified, size: self.size }
    }
}

/// The map that a sequence of (key, value) insertions leaves, later ones
/// replacing earlier ones under the same key.
pub open spec fn map_of<V>(ks: Seq<Seq<char>>, vs: Seq<V>) -> Map<Seq<char>, V>
    decreases ks.len(),
{
    if ks.len() == 0 || vs.len() == 0 {
        Map::empty()
    } else {
        map_of(ks.drop_last(), vs.drop_last()).insert(ks.last(), vs.last())
    }
}

/// The UTF-8 form of `s` is short enough for its length to be written as a `u64`.
pub open spec fn str_fits(s: Seq<char>) -> bool {
    encode_utf8(s).len() <= u64::MAX
}

/// Every string of the entries, and their number, fit the binary layout's
/// length fields.
pub open spec fn entries_fit(ks: Seq<Seq<char>>, vs: Seq<MetaView>) -> bool {
    &&& ks.len() <= u64::MAX
    &&& forall|i: int| 0 <= i < ks.len() ==> str_fits(#[trigger] ks[i])
    &&& forall|i: int| 0 <= i < vs.len() ==> str_fits(#[trigger] vs[i].0)
}

/// No key occurs twice.
pub open spec fn unique_keys(ks: Seq<Seq<char>>) -> bool {
    forall|i: int, j: int| 0 <= i < ks.len() && 0 <= j < ks.len() && i != j ==> ks[i] != ks[j]
}

pub proof fn lemma_map_of_dom<V>(ks: Seq<Seq<char>>, vs: Seq<V>, k: Seq<char>)
    requires
        ks.len() == vs.len(),
    ensures
        map_of(ks, vs).contains_key(k) <==> ks.contains(k),
    decreases ks.len(),
{
    if ks.len() > 0 {
        lemma_map_of_dom(ks.drop_last(), vs.drop_last(), k);
        if ks.drop_last().contains(k) {
            let i = choose|i: int| 0 <= i < ks.drop_last().len() && ks.drop_last()[i] == k;
            assert(ks[i] == k);
        }
        if ks.contains(k) && k != ks.last() {
            let i = choose|i: int| 0 <= i < ks.len() && ks[i] == k;
            assert(ks.drop_last()[i] == k);
        }
    }
}

pub proof fn lemma_map_of_get<V>(ks: Seq<Seq<char>>, vs: Seq<V>, i: int)
    requires
        ks.len() == vs.len(),
        unique_keys(ks),
        0 <= i < ks.len(),
    ensures
        map_of(ks, vs).contains_key(ks[i]),
        map_of(ks, vs)[ks[i]] == vs[i],
    decreases ks.len(),
{
    if i < ks.len() - 1 {
        lemma_map_of_get(ks.drop_last(), vs.drop_last(), i);
        assert(ks[i] != ks.last());
    }
}

pub proof fn lemma_map_of_update<V>(ks: Seq<Seq<char>>, vs: Seq<V>, i: int, v: V)
    requires
        ks.len() == vs.len(),
        unique_keys(ks),
        0 <= i < ks.len(),
    ensures
        map_of(ks, vs.update(i, v)) == map_of(ks, vs).insert(ks[i], v),
    decreases ks.len(),
{
    if i == ks.len() - 1 {
        assert(vs.update(i, v).drop_last() == vs.drop_last());
        assert(map_of(ks, vs.update(i, v)) =~= map_of(ks, vs).insert(ks[i], v));
    } else {
        lemma_map_of_update(ks.drop_last(), vs.drop_last(), i, v);
        assert(vs.update(i, v).drop_last() == vs.drop_last().update(i, v));
        assert(ks[i] != ks.last());
        assert(map_of(ks, vs.update(i, v)) =~= map_of(ks, vs).insert(ks[i], v));
    }
}

pub proof fn lemma_map_of_push<V>(ks: Seq<Seq<char>>, vs: Seq<V>, k: Seq<char>, v: V)
    requires
        ks.len() == vs.len(),
    ensures
        map_of(ks.push(k), vs.push(v)) == map_of(ks, vs).insert(k, v),
{
    assert(ks.push(k).drop_last() == ks);
    assert(vs.push(v).drop_last() == vs);
}

/// Keys in increasing order.
pub open spec fn sorted_keys(ks: Seq<Seq<char>>) -> bool {
    forall|i: int, j: int| 0 <= i < j < ks.len() ==> key_lt(ks[i], ks[j])
}

/// `i` is where `k` goes among the sorted keys `ks`.
pub open spec fn is_insert_pos(ks: Seq<Seq<char>>, k: Seq<char>, i: int) -> bool {
    &&& 0 <= i <= ks.len()
    &&& forall|j: int| 0 <= j < i ==> key_lt(#[trigger] ks[j], k)
    &&& forall|j: int| i <= j < ks.len() ==> key_lt(k, #[trigger] ks[j])
}

/// Where `k` goes among the sorted keys `ks`.
pub open spec fn insert_pos(ks: Seq<Seq<char>>, k: Seq<char>) -> int {
    choose|i: int| is_insert_pos(ks, k, i)
}

pub proof fn lemma_sorted_unique(ks: Seq<Seq<char>>)
    requires
        sorted_keys(ks),
    ensures
        unique_keys(ks),
{
    assert forall|i: int, j: int| 0 <= i < ks.len() && 0 <= j < ks.len() && i != j implies ks[i]
        != ks[j] by {
        if i < j {
            lemma_key_lt_asym(ks[i], ks[j]);
        } else {
            lemma_key_lt_asym(ks[j], ks[i]);
        }
    }
}

proof fn lemma_not_in_front(ks: Seq<Seq<char>>, k: Seq<char>)
    requires
        ks.len() > 0,
        !ks.contains(k),
    ensures
        !ks.drop_last().contains(k),
        ks.last() != k,
{
    if ks.drop_last().contains(k) {
        let j = choose|j: int| 0 <= j < ks.drop_last().len() && ks.drop_last()[j] == k;
        assert(ks[j] == k);
    }
    assert(ks[ks.len() - 1] == ks.last());
}

pub proof fn lemma_insert_pos_unique(ks: Seq<Seq<char>>, k: Seq<char>, i: int)
    requires
        is_insert_pos(ks, k, i),
    ensures
        insert_pos(ks, k) == i,
{
    let i2 = insert_pos(ks, k);
    assert(is_insert_pos(ks, k, i2));
    if i2 < i {
        assert(key_lt(ks[i2], k));
        assert(key_lt(k, ks[i2]));
        lemma_key_lt_asym(ks[i2], k);
    } else if i2 > i {
        assert(key_lt(ks[i], k));
        assert(key_lt(k, ks[i]));
        lemma_key_lt_asym(ks[i], k);
    }
}

pub proof fn lemma_insert_pos_exists(ks: Seq<Seq<char>>, k: Seq<char>)
    requires
        sorted_keys(ks),
        !ks.contains(k),
    ensures
        is_insert_pos(ks, k, insert_pos(ks, k)),
    decreases ks.len(),
{
    if ks.len() == 0 {
        assert(is_insert_pos(ks, k, 0));
    } else {
        let front = ks.drop_last();
        let last = ks.last();
        assert forall|i: int, j: int| 0 <= i < j < front.len() implies key_lt(front[i], front[j]) by {
            assert(front[i] == ks[i] && front[j] == ks[j]);
        }
        lemma_not_in_front(ks, k);
        lemma_insert_pos_exists(front, k);
        let p = insert_pos(front, k);
        lemma_key_total(last, k);
        if key_lt(last, k) {
            assert forall|j: int| 0 <= j < ks.len() implies key_lt(#[trigger] ks[j], k) by {
                if j < ks.len() - 1 {
                    assert(key_lt(ks[j], ks[ks.len() - 1]));
                    lemma_key_lt_trans(ks[j], last, k);
                }
            }
            assert(is_insert_pos(ks, k, ks.len() as int));
        } else {
            assert forall|j: int| 0 <= j < p implies key_lt(#[trigger] ks[j], k) by {
                assert(ks[j] == front[j]);
            }
            assert forall|j: int| p <= j < ks.len() implies key_lt(k, #[trigger] ks[j]) by {
                if j < ks.len() - 1 {
                    assert(ks[j] == front[j]);
                }
            }
            assert(is_insert_pos(ks, k, p));
        }
    }
}

pub proof fn lemma_map_of_insert<V>(ks: Seq<Seq<char>>, vs: Seq<V>, i: int, k: Seq<char>, v: V)
    requires
        ks.len() == vs.len(),
        0 <= i <= ks.len(),
        !ks.contains(k),
    ensures
        map_of(ks.insert(i, k), vs.insert(i, v)) == map_of(ks, vs).insert(k, v),
    decreases ks.len(),
{
    if i == ks.len() {
        assert(ks.insert(i, k) =~= ks.push(k));
        assert(vs.insert(i, v) =~= vs.push(v));
        lemma_map_of_push(ks, vs, k, v);
    } else {
        let front = ks.drop_last();
        let vfront = vs.drop_last();
        lemma_not_in_front(ks, k);
        lemma_map_of_insert(front, vfront, i, k, v);
        assert(ks.insert(i, k).drop_last() =~= front.insert(i, k));
        assert(vs.insert(i, v).drop_last() =~= vfront.insert(i, v));
        assert(ks.insert(i, k).last() == ks.last());
        assert(vs.insert(i, v).last() == vs.last());
        assert(map_of(ks.insert(i, k), vs.insert(i, v)) =~= map_of(ks, vs).insert(k, v));
    }
}

/// Inserting a new key at its place keeps the keys sorted and the strings
/// fitting, and adds the entry to the map.
pub proof fn lemma_insert_new(ks: Seq<Seq<char>>, vs: Seq<MetaView>, k: Seq<char>, v: MetaView, i: int)
    requires
        ks.len() == vs.len(),
        sorted_keys(ks),
        is_insert_pos(ks, k, i),
        entries_fit(ks, vs),
        str_fits(k),
        str_fits(v.0),
        ks.len() + 1 <= u64::MAX,
    ensures
        !ks.contains(k),
        sorted_keys(ks.insert(i, k)),
        unique_keys(ks.insert(i, k)),
        entries_fit(ks.insert(i, k), vs.insert(i, v)),
        map_of(ks.insert(i, k), vs.insert(i, v)) == map_of(ks, vs).insert(k, v),
{
    if ks.contains(k) {
        let j = choose|j: int| 0 <= j < ks.len() && ks[j] == k;
        lemma_key_lt_asym(k, k);
        if j < i {
            assert(key_lt(ks[j], k));
        } else {
            assert(key_lt(k, ks[j]));
        }
    }
    let ks2 = ks.insert(i, k);
    let vs2 = vs.insert(i, v);
    assert forall|a: int, b: int| 0 <= a < b < ks2.len() implies key_lt(ks2[a], ks2[b]) by {
        if b < i {
            assert(key_lt(ks[a], ks[b]));
        } else if b == i {
            assert(key_lt(ks[a], k));
        } else if a == i {
            assert(key_lt(k, ks[b - 1]));
        } else if a < i {
            assert(key_lt(ks[a], ks[b - 1]));
        } else {
            assert(key_lt(ks[a - 1], ks[b - 1]));
        }
    }
    lemma_sorted_unique(ks2);
    assert forall|x: int| 0 <= x < ks2.len() implies str_fits(#[trigger] ks2[x]) by {
        if x < i {
            assert(ks2[x] == ks[x]);
        } else if x > i {
            assert(ks2[x] == ks[x - 1]);
        }
    }
    assert forall|x: int| 0 <= x < vs2.len() implies str_fits(#[trigger] vs2[x].0) by {
        if x < i {
            assert(vs2[x] == vs[x]);
        } else if x > i {
            assert(vs2[x] == vs[x - 1]);
        }
    }
    lemma_map_of_insert(ks, vs, i, k, v);
}

/// Map of asset paths to metadata.
/// Path strings have leading / removed. Keys are kept in increasing order of
/// their UTF-8 bytes, so that a lookup is a binary search.
pub struct AssetIndex {
    keys: Vec<String>,
    values: Vec<AssetMetadata>,
}

impl View for AssetIndex {
    type V = Map<Seq<char>, MetaView>;

    open spec fn view(&self) -> Map<Seq<char>, MetaView> {
        map_of(self.key_seq(), self.value_seq())
    }
}

impl AssetIndex {
    /// The keys, in the order in which they are kept.
    pub closed spec fn key_seq(&self) -> Seq<Seq<char>> {
        self.keys@.map_values(|k: String| k@)
    }

    /// The metadata, in the order of `key_seq`.
    pub closed spec fn value_seq(&self) -> Seq<MetaView> {
        self.values@.map_values(|m: AssetMetadata| m@)
    }

    /// Keys and metadata pair up, keys are in increasing order (so none occurs
    /// twice), and every string fits the binary layout.
    pub closed spec fn wf(&self) -> bool {
        &&& self.keys@.len() == self.values@.len()
        &&& sorted_keys(self.key_seq())
        &&& unique_keys(self.key_seq())
        &&& entries_fit(self.key_seq(), self.value_seq())
    }

    pub proof fn lemma_wf(&self)
        requires
            self.wf(),
        ensures
            self.key_seq().len() == self.value_seq().len(),
            sorted_keys(self.key_seq()),
            unique_keys(self.key_seq()),
            entries_fit(self.key_seq(), self.value_seq()),
    {
    }

    /// The key at position `i`.
    pub fn key_at(&self, i: usize) -> (r: &String)
        requires
            self.wf(),
            i < self.key_seq().len(),
        ensures
            r@ == self.key_seq()[i as int],
    {
        &self.keys[i]
    }

    /// The metadata at position `i`.
    pub fn value_at(&self, i: usize) -> (r: &AssetMetadata)
        requires
            self.wf(),
            i < self.key_seq().len(),
        ensures
            r@ == self.value_seq()[i as int],
    {
        &self.values[i]
    }

    pub fn new() -> (r: AssetIndex)
        ensures
            r.wf(),
            r@ == Map::<Seq<char>, MetaView>::empty(),
            r.key_seq() == Seq::<Seq<char>>::empty(),
            r.value_seq() == Seq::<MetaView>::empty(),
    {
        let r = AssetIndex { keys: Vec::new(), values: Vec::new() };
        assert(r.key_seq() =~= Seq::<Seq<char>>::empty());
        assert(r.value_seq() =~= Seq::<MetaView>::empty());
        r
    }

    /// Number of entries.
    pub fn len(&self) -> (r: usize)
        requires
            self.wf(),
        ensures
            r == self.key_seq().len(),
    {
        self.keys.len()
    }

    /// Position of `key` among the kept keys, or the place where it goes.
    fn position(&self, key: &String) -> (r: Result<usize, usize>)
        requires
            self.wf(),
        ensures
            match r {
                Ok(i) => i < self.key_seq().len() && self.key_seq()[i as int] == key@,
                Err(i) => is_insert_pos(self.key_seq(), key@, i as int) && !self.key_seq().contains(
                    key@,
                ),
            },
    {
        let ghost ks = self.key_seq();
        let mut lo: usize = 0;
        let mut hi: usize = self.keys.len();
        while lo < hi
            invariant
                self.wf(),
                ks == self.key_seq(),
                ks.len() == self.keys@.len(),
                lo <= hi <= ks.len(),
                forall|j: int| 0 <= j < lo ==> key_lt(#[trigger] ks[j], key@),
                forall|j: int| hi <= j < ks.len() ==> key_lt(key@, #[trigger] ks[j]),
            decreases hi - lo,
        {
            let mid = lo + (hi - lo) / 2;
            let c = compare_keys(&self.keys[mid], key);
            assert(self.keys@[mid as int]@ == ks[mid as int]);
            if c == 0 {
                return Ok(mid);
            }
            if c < 0 {
                assert forall|j: int| 0 <= j <= mid implies key_lt(#[trigger] ks[j], key@) by {
                    if j < mid {
                        assert(key_lt(ks[j], ks[mid as int]));
                        lemma_key_lt_trans(ks[j], ks[mid as int], key@);
                    }
                }
                lo = mid + 1;
            } else {
                assert forall|j: int| mid <= j < ks.len() implies key_lt(key@, #[trigger] ks[j]) by {
                    if j > mid {
                        assert(key_lt(ks[mid as int], ks[j]));
                        lemma_key_lt_trans(key@, ks[mid as int], ks[j]);
                    }
                }
                hi = mid;
            }
        }
        assert forall|j: int| 0 <= j < ks.len() implies ks[j] != key@ by {
            lemma_key_lt_asym(ks[j], key@);
        }
        Err(lo)
    }

    /// Sets the metadata kept under `key`; an earlier entry under the same key
    /// is replaced.
    pub fn insert(&mut self, key: String, md: AssetMetadata)
        requires
            old(self).wf(),
        ensures
            final(self).wf(),
            final(self)@ == old(self)@.insert(key@, md@),
            final(self).key_seq() == insert_keys(old(self).key_seq(), key@),
            final(self).value_seq() == insert_values(old(self).key_seq(), old(self).value_seq(), key@, md@),
    {
        proof {
            self.lemma_wf();
        }
        let _key_len = key.as_str().as_bytes().len();
        let _path_len = md.path.as_str().as_bytes().len();
        assert(str_fits(key@) && str_fits(md@.0));
        match self.position(&key) {
            Ok(i) => {
                let ghost ks = self.key_seq();
                let ghost vs = self.value_seq();
                proof {
                    lemma_map_of_update(ks, vs, i as int, md@);
                    lemma_index_of_unique(ks, i as int);
                }
                self.values.set(i, md);
                assert(self.key_seq() =~= ks);
                assert(self.value_seq() =~= vs.update(i as int, md@));
                assert forall|j: int| 0 <= j < self.value_seq().len() implies str_fits(
                    #[trigger] self.value_seq()[j].0,
                ) by {
                    if j != i {
                        assert(self.value_seq()[j] == vs[j]);
                    }
                }
            },
            Err(i) => {
                let ghost ks = self.key_seq();
                let ghost vs = self.value_seq();
                let ghost kv = key@;
                let ghost mv = md@;
                self.keys.insert(i, key);
                self.values.insert(i, md);
                let _count = self.keys.len();
                assert(self.key_seq() =~= ks.insert(i as int, kv));
                assert(self.value_seq() =~= vs.insert(i as int, mv));
                proof {
                    lemma_insert_new(ks, vs, kv, mv, i as int);
                    lemma_insert_pos_unique(ks, kv, i as int);
                }
            },
        }
    }

    /// The metadata kept under `key`, copied.
    pub fn get(&self, key: &String) -> (r: Option<AssetMetadata>)
        requires
            self.wf(),
        ensures
            match r {
                Some(m) => self@.contains_key(key@) && m@ == self@[key@],
                None => !self@.contains_key(key@),
            },
    {
        proof {
            self.lemma_wf();
            lemma_map_of_dom(self.key_seq(), self.value_seq(), key@);
        }
        match self.position(key) {
            Ok(i) => {
                proof {
                    lemma_map_of_get(self.key_seq(), self.value_seq(), i as int);
                }
                Some(self.values[i].duplicate())
            },
            Err(_) => None,
        }
    }
}

/// The keys that inserting `k` leaves: unchanged where `k` is already there,
/// else `k` at its place.
pub open spec fn insert_keys(ks: Seq<Seq<char>>, k: Seq<char>) -> Seq<Seq<char>> {
    if ks.contains(k) {
        ks
    } else {
        ks.insert(insert_pos(ks, k), k)
    }
}

/// The values that inserting `k` with `v` leaves, in the order of `insert_keys`.
pub open spec fn insert_values<V>(ks: Seq<Seq<char>>, vs: Seq<V>, k: Seq<char>, v: V) -> Seq<V> {
    if ks.contains(k) {
        vs.update(ks.index_of(k), v)
    } else {
        vs.insert(insert_pos(ks, k), v)
    }
}

proof fn lemma_index_of_unique(ks: Seq<Seq<char>>, i: int)
    requires
        unique_keys(ks),
        0 <= i < ks.len(),
    ensures
        ks.contains(ks[i]),
        ks.index_of(ks[i]) == i,
{
    assert(ks.contains(ks[i]));
    let j = ks.index_of(ks[i]);
    assert(ks[j] == ks[i]);
}

} // verus!
