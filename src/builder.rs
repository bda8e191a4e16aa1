//! Building an index from (logical path, metadata) pairs, and deciding
//! whether its binary form differs from the one already written.
use vstd::prelude::*;

use crate::codec::{encode, encode_entries, lemma_round_trip, parse_index};
use crate::index::{
    entries_fit, insert_keys, insert_pos, insert_values, lemma_insert_new, lemma_insert_pos_exists,
    lemma_map_of_get, map_of, sorted_keys, unique_keys, AssetIndex, AssetMetadata, MetaView,
};

verus! {

/// Status of the written index after a build.
#[derive(Debug, Clone, Copy, PartialEq, Eq, Structural)]
pub enum Update {
    /// No index had been written before.
    New,
    /// The index written before has the same bytes.
    NoChange,
    /// The index written before has other bytes.
    Updated,
}

/// The status of bytes `new` against what was written before, if anything.
pub open spec fn update_of(new: Seq<u8>, previous: Option<Seq<u8>>) -> Update {
    match previous {
        None => Update::New,
        Some(p) => if p == new {
            Update::NoChange
        } else {
            Update::Updated
        },
    }
}

/// Only a new or changed index is written.
pub open spec fn needs_write(u: Update) -> bool {
    u != Update::NoChange
}

/// Whether the bytes of a build with status `u` are to be written.
pub fn needs_write_now(u: Update) -> (r: bool)
    ensures
        r == needs_write(u),
{
    match u {
        Update::NoChange => false,
        _ => true,
    }
}

/// The models of the input pairs.
pub open spec fn pair_views(pairs: Seq<(String, AssetMetadata)>) -> Seq<(Seq<char>, MetaView)> {
    pairs.map_values(|p: (String, AssetMetadata)| (p.0@, p.1@))
}

/// Keys and values that inserting the pairs in order leaves.
pub open spec fn built(ps: Seq<(Seq<char>, MetaView)>) -> (Seq<Seq<char>>, Seq<MetaView>)
    decreases ps.len(),
{
    if ps.len() == 0 {
        (seq![], seq![])
    } else {
        let (ks, vs) = built(ps.drop_last());
        (insert_keys(ks, ps.last().0), insert_values(ks, vs, ps.last().0, ps.last().1))
    }
}

/// Bytes of the index built from the pairs.
pub open spec fn built_bytes(ps: Seq<(Seq<char>, MetaView)>) -> Seq<u8> {
    encode_entries(built(ps).0, built(ps).1)
}

/// The keys of the pairs, in order.
pub open spec fn pair_keys(ps: Seq<(Seq<char>, MetaView)>) -> Seq<Seq<char>> {
    ps.map_values(|p: (Seq<char>, MetaView)| p.0)
}

/// The metadata of the pairs, in order.
pub open spec fn pair_values(ps: Seq<(Seq<char>, MetaView)>) -> Seq<MetaView> {
    ps.map_values(|p: (Seq<char>, MetaView)| p.1)
}

/// Generates the asset index: each logical path maps to its metadata; where a
/// path comes twice, the later pair wins.
pub fn make_index(pairs: &Vec<(String, AssetMetadata)>) -> (r: AssetIndex)
    ensures
        r.wf(),
        r@ == map_of(pair_keys(pair_views(pairs@)), pair_values(pair_views(pairs@))),
        (r.key_seq(), r.value_seq()) == built(pair_views(pairs@)),
{
    let ghost ps = pair_views(pairs@);
    let mut index = AssetIndex::new();
    let mut i: usize = 0;
    while i < pairs.len()
        invariant
            ps == pair_views(pairs@),
            i <= pairs@.len(),
            index.wf(),
            index@ == map_of(pair_keys(ps.subrange(0, i as int)), pair_values(ps.subrange(0, i as int))),
            (index.key_seq(), index.value_seq()) == built(ps.subrange(0, i as int)),
        decreases pairs@.len() - i,
    {
        let k = pairs[i].0.clone();
        let m = pairs[i].1.duplicate();
        proof {
            let s0 = ps.subrange(0, i as int);
            let s1 = ps.subrange(0, i + 1);
            assert(s1.drop_last() =~= s0);
            assert(pair_keys(s1) =~= pair_keys(s0).push(k@));
            assert(pair_values(s1) =~= pair_values(s0).push(m@));
            crate::index::lemma_map_of_push(pair_keys(s0), pair_values(s0), k@, m@);
        }
        index.insert(k, m);
        i = i + 1;
    }
    assert(ps.subrange(0, pairs@.len() as int) =~= ps);
    index
}

/// Status of bytes `new` against the bytes written before, if any.
pub fn compare_index(new: &[u8], previous: Option<&[u8]>) -> (r: Update)
    ensures
        r == update_of(new@, match previous {
            Some(p) => Some(p@),
            None => None,
        }),
{
    match previous {
        None => Update::New,
        Some(p) => {
            if p.len() != new.len() {
                assert(p@.len() != new@.len());
                return Update::Updated;
            }
            let mut i: usize = 0;
            while i < new.len()
                invariant
                    previous == Some(p),
                    p@.len() == new@.len(),
                    i <= new@.len(),
                    forall|j: int| 0 <= j < i ==> p@[j] == new@[j],
                decreases new@.len() - i,
            {
                if p[i] != new[i] {
                    assert(p@[i as int] != new@[i as int]);
                    return Update::Updated;
                }
                i = i + 1;
            }
            assert(p@ =~= new@);
            Update::NoChange
        },
    }
}

/// Builds the index from the pairs, serializes it, and compares the bytes
/// with those written before. The caller writes the bytes only where the
/// status `needs_write`.
pub fn plan_index(pairs: &Vec<(String, AssetMetadata)>, previous: Option<&[u8]>) -> (r: (AssetIndex, Vec<u8>, Update))
    ensures
        r.0.wf(),
        r.0@ == map_of(pair_keys(pair_views(pairs@)), pair_values(pair_views(pairs@))),
        r.1@ == built_bytes(pair_views(pairs@)),
        parse_index(r.1@) == Some(r.0@),
        r.2 == update_of(r.1@, match previous {
            Some(p) => Some(p@),
            None => None,
        }),
{
    let index = make_index(pairs);
    let bytes = encode(&index);
    proof {
        crate::codec::lemma_index_round_trip(&index);
    }
    let status = compare_index(bytes.as_slice(), previous);
    (index, bytes, status)
}

proof fn lemma_built(ps: Seq<(Seq<char>, MetaView)>)
    requires
        entries_fit(pair_keys(ps), pair_values(ps)),
    ensures
        built(ps).0.len() == built(ps).1.len(),
        built(ps).0.len() <= ps.len(),
        sorted_keys(built(ps).0),
        unique_keys(built(ps).0),
        entries_fit(built(ps).0, built(ps).1),
        map_of(built(ps).0, built(ps).1) == map_of(pair_keys(ps), pair_values(ps)),
    decreases ps.len(),
{
    if ps.len() > 0 {
        let front = ps.drop_last();
        let (k, v) = ps.last();
        assert(pair_keys(front) =~= pair_keys(ps).drop_last());
        assert(pair_values(front) =~= pair_values(ps).drop_last());
        assert forall|i: int| 0 <= i < pair_keys(front).len() implies crate::index::str_fits(
            #[trigger] pair_keys(front)[i],
        ) by {
            assert(pair_keys(front)[i] == pair_keys(ps)[i]);
        }
        assert forall|i: int| 0 <= i < pair_values(front).len() implies crate::index::str_fits(
            #[trigger] pair_values(front)[i].0,
        ) by {
            assert(pair_values(front)[i] == pair_values(ps)[i]);
        }
        lemma_built(front);
        let (ks, vs) = built(front);
        assert(crate::index::str_fits(pair_keys(ps)[ps.len() - 1]));
        assert(crate::index::str_fits(pair_values(ps)[ps.len() - 1].0));
        assert(map_of(pair_keys(ps), pair_values(ps)) == map_of(pair_keys(front), pair_values(front)).insert(k, v));
        if ks.contains(k) {
            let i = ks.index_of(k);
            crate::index::lemma_map_of_update(ks, vs, i, v);
            assert forall|j: int| 0 <= j < vs.update(i, v).len() implies crate::index::str_fits(
                #[trigger] vs.update(i, v)[j].0,
            ) by {
                if j != i {
                    assert(vs.update(i, v)[j] == vs[j]);
                }
            }
        } else {
            lemma_insert_pos_exists(ks, k);
            lemma_insert_new(ks, vs, k, v, insert_pos(ks, k));
        }
    }
}

/// Building twice from the same pairs gives the same bytes, so the second
/// build reports `NoChange` and writes nothing.
pub proof fn lemma_rebuild_no_change(ps1: Seq<(Seq<char>, MetaView)>, ps2: Seq<(Seq<char>, MetaView)>)
    requires
        ps1 == ps2,
    ensures
        update_of(built_bytes(ps2), Some(built_bytes(ps1))) == Update::NoChange,
        !needs_write(update_of(built_bytes(ps2), Some(built_bytes(ps1)))),
{
}

/// Where the logical paths are distinct, a change of one file's modification
/// time or size changes the bytes, so the new build reports `Updated`.
pub proof fn lemma_change_detected(ps: Seq<(Seq<char>, MetaView)>, i: int, modified: u64, size: u64)
    requires
        entries_fit(pair_keys(ps), pair_values(ps)),
        unique_keys(pair_keys(ps)),
        0 <= i < ps.len(),
        modified != ps[i].1.1 || size != ps[i].1.2,
    ensures
        update_of(
            built_bytes(ps.update(i, (ps[i].0, (ps[i].1.0, modified, size)))),
            Some(built_bytes(ps)),
        ) == Update::Updated,
{
    let v = (ps[i].1.0, modified, size);
    let ps2 = ps.update(i, (ps[i].0, v));
    assert(pair_keys(ps2) =~= pair_keys(ps));
    assert(pair_values(ps2) =~= pair_values(ps).update(i, v));
    assert forall|j: int| 0 <= j < pair_values(ps2).len() implies crate::index::str_fits(
        #[trigger] pair_values(ps2)[j].0,
    ) by {
        if j != i {
            assert(pair_values(ps2)[j] == pair_values(ps)[j]);
        } else {
            assert(pair_values(ps)[i].0 == ps[i].1.0);
        }
    }
    lemma_built(ps);
    lemma_built(ps2);
    lemma_round_trip(built(ps).0, built(ps).1);
    lemma_round_trip(built(ps2).0, built(ps2).1);
    crate::index::lemma_map_of_update(pair_keys(ps), pair_values(ps), i, v);
    lemma_map_of_get(pair_keys(ps), pair_values(ps), i);
    let m1 = map_of(pair_keys(ps), pair_values(ps));
    let m2 = map_of(pair_keys(ps2), pair_values(ps2));
    assert(m2[pair_keys(ps)[i]] == v);
    assert(m1[pair_keys(ps)[i]] == pair_values(ps)[i]);
    assert(m1 != m2);
}

} // verus!
