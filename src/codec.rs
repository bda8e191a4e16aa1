//! Binary form of an asset index: a `u64` entry count, then for each entry the
//! key, the storage path, the modification time and the size. Integers are
//! eight bytes little-endian; a string is its UTF-8 byte length as such an
//! integer, followed by those bytes.
use vstd::prelude::*;
use vstd::utf8::{decode_utf8, encode_utf8, encode_utf8_decode_utf8, encode_utf8_valid_utf8, valid_utf8};

use crate::error::Error;
use crate::index::{entries_fit, map_of, str_fits, AssetIndex, AssetMetadata, MetaView};

verus! {

/// Little-endian bytes of `x`.
pub open spec fn le_bytes(x: u64) -> Seq<u8> {
    seq![
        x as u8,
        (x >> 8u64) as u8,
        (x >> 16u64) as u8,
        (x >> 24u64) as u8,
        (x >> 32u64) as u8,
        (x >> 40u64) as u8,
        (x >> 48u64) as u8,
        (x >> 56u64) as u8,
    ]
}

/// The `u64` whose little-endian bytes are the first eight of `b`.
pub open spec fn le_value(b: Seq<u8>) -> u64 {
    (b[0] as u64) | ((b[1] as u64) << 8u64) | ((b[2] as u64) << 16u64) | ((b[3] as u64) << 24u64)
        | ((b[4] as u64) << 32u64) | ((b[5] as u64) << 40u64) | ((b[6] as u64) << 48u64) | ((
    b[7] as u64) << 56u64)
}

pub open spec fn enc_str(s: Seq<char>) -> Seq<u8> {
    le_bytes(encode_utf8(s).len() as u64) + encode_utf8(s)
}

pub open spec fn enc_meta(m: MetaView) -> Seq<u8> {
    enc_str(m.0) + le_bytes(m.1) + le_bytes(m.2)
}

pub open spec fn enc_entries(ks: Seq<Seq<char>>, vs: Seq<MetaView>) -> Seq<u8>
    decreases ks.len(),
{
    if ks.len() == 0 || vs.len() == 0 {
        seq![]
    } else {
        enc_entries(ks.drop_last(), vs.drop_last()) + enc_str(ks.last()) + enc_meta(vs.last())
    }
}

/// The binary form of the entries `ks[i] -> vs[i]`, in that order.
pub open spec fn encode_entries(ks: Seq<Seq<char>>, vs: Seq<MetaView>) -> Seq<u8> {
    le_bytes(ks.len() as u64) + enc_entries(ks, vs)
}

pub open spec fn parse_u64(b: Seq<u8>, pos: int) -> Option<(u64, int)> {
    if 0 <= pos && pos + 8 <= b.len() {
        Some((le_value(b.subrange(pos, pos + 8)), pos + 8))
    } else {
        None
    }
}

pub open spec fn parse_str(b: Seq<u8>, pos: int) -> Option<(Seq<char>, int)> {
    match parse_u64(b, pos) {
        Some((n, p)) => if p + n <= b.len() && valid_utf8(b.subrange(p, p + n)) {
            Some((decode_utf8(b.subrange(p, p + n)), p + n))
        } else {
            None
        },
        None => None,
    }
}

pub open spec fn parse_entry(b: Seq<u8>, pos: int) -> Option<(Seq<char>, MetaView, int)> {
    match parse_str(b, pos) {
        Some((k, after_key)) => match parse_str(b, after_key) {
            Some((path, after_path)) => match parse_u64(b, after_path) {
                Some((modified, after_modified)) => match parse_u64(b, after_modified) {
                    Some((size, after_size)) => Some((k, (path, modified, size), after_size)),
                    None => None,
                },
                None => None,
            },
            None => None,
        },
        None => None,
    }
}

/// The first `n` entries from `pos` on, and the position after them.
pub open spec fn parse_entries(b: Seq<u8>, pos: int, n: nat) -> Option<
    (Seq<Seq<char>>, Seq<MetaView>, int),
>
    decreases n,
{
    if n == 0 {
        Some((seq![], seq![], pos))
    } else {
        match parse_entries(b, pos, (n - 1) as nat) {
            Some((ks, vs, p)) => match parse_entry(b, p) {
                Some((k, m, q)) => Some((ks.push(k), vs.push(m), q)),
                None => None,
            },
            None => None,
        }
    }
}

/// The index that `b` holds: all of its bytes are used, later entries
/// replacing earlier ones under the same key.
pub open spec fn parse_index(b: Seq<u8>) -> Option<Map<Seq<char>, MetaView>> {
    match parse_u64(b, 0) {
        Some((n, p)) => match parse_entries(b, p, n as nat) {
            Some((ks, vs, e)) => if e == b.len() {
                Some(map_of(ks, vs))
            } else {
                None
            },
            None => None,
        },
        None => None,
    }
}

proof fn lemma_le_round_trip(x: u64)
    ensures
        le_value(le_bytes(x)) == x,
{
    let b = le_bytes(x);
    let b0 = b[0];
    let b1 = b[1];
    let b2 = b[2];
    let b3 = b[3];
    let b4 = b[4];
    let b5 = b[5];
    let b6 = b[6];
    let b7 = b[7];
    assert(((b0 as u64) | ((b1 as u64) << 8u64) | ((b2 as u64) << 16u64) | ((b3 as u64) << 24u64)
        | ((b4 as u64) << 32u64) | ((b5 as u64) << 40u64) | ((b6 as u64) << 48u64) | ((
    b7 as u64) << 56u64)) == x) by (bit_vector)
        requires
            b0 == x as u8,
            b1 == (x >> 8u64) as u8,
            b2 == (x >> 16u64) as u8,
            b3 == (x >> 24u64) as u8,
            b4 == (x >> 32u64) as u8,
            b5 == (x >> 40u64) as u8,
            b6 == (x >> 48u64) as u8,
            b7 == (x >> 56u64) as u8,
    ;
}

fn write_u64(out: &mut Vec<u8>, x: u64)
    ensures
        final(out)@ == old(out)@ + le_bytes(x),
{
    out.push(x as u8);
    out.push((x >> 8u64) as u8);
    out.push((x >> 16u64) as u8);
    out.push((x >> 24u64) as u8);
    out.push((x >> 32u64) as u8);
    out.push((x >> 40u64) as u8);
    out.push((x >> 48u64) as u8);
    out.push((x >> 56u64) as u8);
    assert(final(out)@ =~= old(out)@ + le_bytes(x));
}

fn write_str(out: &mut Vec<u8>, s: &String)
    requires
        str_fits(s@),
    ensures
        final(out)@ == old(out)@ + enc_str(s@),
{
    let bytes = s.as_str().as_bytes();
    let n = bytes.len();
    write_u64(out, n as u64);
    let ghost start = out@;
    let mut i: usize = 0;
    while i < n
        invariant
            n == bytes@.len(),
            bytes@ == encode_utf8(s@),
            i <= n,
            out@ == start + bytes@.subrange(0, i as int),
        decreases n - i,
    {
        out.push(bytes[i]);
        i = i + 1;
        assert(out@ =~= start + bytes@.subrange(0, i as int));
    }
    assert(bytes@.subrange(0, n as int) =~= bytes@);
    assert(out@ =~= old(out)@ + enc_str(s@));
}

/// The binary form of `index`.
pub fn encode(index: &AssetIndex) -> (r: Vec<u8>)
    requires
        index.wf(),
    ensures
        r@ == encode_entries(index.key_seq(), index.value_seq()),
{
    proof {
        index.lemma_wf();
    }
    let ghost ks = index.key_seq();
    let ghost vs = index.value_seq();
    let n = index.len();
    let mut out: Vec<u8> = Vec::new();
    write_u64(&mut out, n as u64);
    let mut i: usize = 0;
    while i < n
        invariant
            index.wf(),
            ks == index.key_seq(),
            vs == index.value_seq(),
            n == ks.len(),
            ks.len() == vs.len(),
            entries_fit(ks, vs),
            i <= n,
            out@ == le_bytes(n as u64) + enc_entries(ks.subrange(0, i as int), vs.subrange(0, i as int)),
        decreases n - i,
    {
        let k = index.key_at(i);
        let m = index.value_at(i);
        assert(str_fits(ks[i as int]));
        assert(str_fits(vs[i as int].0));
        write_str(&mut out, k);
        write_str(&mut out, &m.path);
        write_u64(&mut out, m.modified);
        write_u64(&mut out, m.size);
        proof {
            let ks1 = ks.subrange(0, i + 1);
            let vs1 = vs.subrange(0, i + 1);
            assert(ks1.drop_last() =~= ks.subrange(0, i as int));
            assert(vs1.drop_last() =~= vs.subrange(0, i as int));
        }
        i = i + 1;
        assert(out@ =~= le_bytes(n as u64) + enc_entries(ks.subrange(0, i as int), vs.subrange(0, i as int)));
    }
    assert(ks.subrange(0, n as int) =~= ks);
    assert(vs.subrange(0, n as int) =~= vs);
    out
}

/// Relies on `String::from_utf8`: it succeeds exactly on valid UTF-8, and the
/// string it returns holds the given bytes.
#[verifier::external_body]
fn string_from_utf8(v: Vec<u8>) -> (r: Option<String>)
    ensures
        r is Some <==> valid_utf8(v@),
        r matches Some(s) ==> encode_utf8(s@) == v@,
{
    String::from_utf8(v).ok()
}

fn read_u64(b: &[u8], pos: usize) -> (r: Option<(u64, usize)>)
    ensures
        match r {
            Some((x, q)) => parse_u64(b@, pos as int) == Some((x, q as int)),
            None => parse_u64(b@, pos as int) is None,
        },
{
    if b.len() < 8 || pos > b.len() - 8 {
        return None;
    }
    let x = (b[pos] as u64) | ((b[pos + 1] as u64) << 8u64) | ((b[pos + 2] as u64) << 16u64) | ((
    b[pos + 3] as u64) << 24u64) | ((b[pos + 4] as u64) << 32u64) | ((b[pos + 5] as u64) << 40u64)
        | ((b[pos + 6] as u64) << 48u64) | ((b[pos + 7] as u64) << 56u64);
    assert(x == le_value(b@.subrange(pos as int, pos + 8)));
    Some((x, pos + 8))
}

fn read_str(b: &[u8], pos: usize) -> (r: Option<(String, usize)>)
    ensures
        match r {
            Some((s, q)) => parse_str(b@, pos as int) == Some((s@, q as int)),
            None => parse_str(b@, pos as int) is None,
        },
{
    let (n, p) = match read_u64(b, pos) {
        Some(v) => v,
        None => return None,
    };
    if n > (b.len() - p) as u64 {
        return None;
    }
    let n = n as usize;
    let mut v: Vec<u8> = Vec::new();
    let mut i: usize = 0;
    while i < n
        invariant
            p + n <= b.len(),
            b.len() == b@.len(),
            i <= n,
            v@ == b@.subrange(p as int, p + i),
        decreases n - i,
    {
        v.push(b[p + i]);
        i = i + 1;
        assert(v@ =~= b@.subrange(p as int, p + i));
    }
    match string_from_utf8(v) {
        Some(s) => {
            proof {
                encode_utf8_decode_utf8(s@);
            }
            Some((s, p + n))
        },
        None => None,
    }
}

fn read_entry(b: &[u8], pos: usize) -> (r: Option<(String, AssetMetadata, usize)>)
    ensures
        match r {
            Some((k, m, q)) => parse_entry(b@, pos as int) == Some((k@, m@, q as int)),
            None => parse_entry(b@, pos as int) is None,
        },
{
    let (k, after_key) = match read_str(b, pos) {
        Some(v) => v,
        None => return None,
    };
    let (path, after_path) = match read_str(b, after_key) {
        Some(v) => v,
        None => return None,
    };
    let (modified, after_modified) = match read_u64(b, after_path) {
        Some(v) => v,
        None => return None,
    };
    let (size, after_size) = match read_u64(b, after_modified) {
        Some(v) => v,
        None => return None,
    };
    Some((k, AssetMetadata::new(path, modified, size), after_size))
}

proof fn lemma_entries_stay_none(b: Seq<u8>, pos: int, i: nat, n: nat)
    requires
        parse_entries(b, pos, i) is None,
        i <= n,
    ensures
        parse_entries(b, pos, n) is None,
    decreases n - i,
{
    if i < n {
        lemma_entries_stay_none(b, pos, i, (n - 1) as nat);
    }
}

/// The index that `bytes` holds; fails with `DeserializeAssets` where they hold
/// none.
pub fn decode(bytes: &[u8]) -> (r: Result<AssetIndex, Error>)
    ensures
        match r {
            Ok(index) => index.wf() && parse_index(bytes@) == Some(index@),
            Err(e) => parse_index(bytes@) is None && e is DeserializeAssets,
        },
{
    let (n, mut pos) = match read_u64(bytes, 0) {
        Some(v) => v,
        None => return Err(Error::DeserializeAssets("missing entry count".to_string())),
    };
    let mut index = AssetIndex::new();
    let ghost mut ks: Seq<Seq<char>> = seq![];
    let ghost mut vs: Seq<MetaView> = seq![];
    let mut i: u64 = 0;
    while i < n
        invariant
            i <= n,
            parse_u64(bytes@, 0) == Some((n, 8int)),
            index.wf(),
            ks.len() == vs.len(),
            parse_entries(bytes@, 8, i as nat) == Some((ks, vs, pos as int)),
            index@ == map_of(ks, vs),
        decreases n - i,
    {
        match read_entry(bytes, pos) {
            Some((k, m, q)) => {
                proof {
                    crate::index::lemma_map_of_push(ks, vs, k@, m@);
                    ks = ks.push(k@);
                    vs = vs.push(m@);
                }
                index.insert(k, m);
                pos = q;
                i = i + 1;
            },
            None => {
                proof {
                    lemma_entries_stay_none(bytes@, 8, (i + 1) as nat, n as nat);
                }
                return Err(Error::DeserializeAssets("truncated or corrupt entry".to_string()));
            },
        }
    }
    if pos != bytes.len() {
        return Err(Error::DeserializeAssets("trailing bytes".to_string()));
    }
    Ok(index)
}

proof fn lemma_parse_u64_at(x: Seq<u8>, v: u64, y: Seq<u8>)
    ensures
        parse_u64(x + le_bytes(v) + y, x.len() as int) == Some((v, x.len() + 8int)),
{
    let b = x + le_bytes(v) + y;
    assert(b.subrange(x.len() as int, x.len() + 8int) =~= le_bytes(v));
    lemma_le_round_trip(v);
}

proof fn lemma_parse_str_at(x: Seq<u8>, s: Seq<char>, y: Seq<u8>)
    requires
        str_fits(s),
    ensures
        parse_str(x + enc_str(s) + y, x.len() as int) == Some((s, x.len() + enc_str(s).len() as int)),
{
    let e = encode_utf8(s);
    let n = e.len() as u64;
    let b = x + enc_str(s) + y;
    assert(b =~= x + le_bytes(n) + (e + y));
    lemma_parse_u64_at(x, n, e + y);
    let p: int = x.len() + 8int;
    assert(b.subrange(p, p + n as int) =~= e);
    encode_utf8_valid_utf8(s);
    encode_utf8_decode_utf8(s);
}

#[verifier::rlimit(40)]
proof fn lemma_parse_entry_at(x: Seq<u8>, k: Seq<char>, m: MetaView, y: Seq<u8>)
    requires
        str_fits(k),
        str_fits(m.0),
    ensures
        parse_entry(x + (enc_str(k) + enc_meta(m)) + y, x.len() as int) == Some(
            (k, m, x.len() + (enc_str(k) + enc_meta(m)).len() as int),
        ),
{
    let b = x + (enc_str(k) + enc_meta(m)) + y;
    let x1 = x + enc_str(k);
    let x2 = x1 + enc_str(m.0);
    let x3 = x2 + le_bytes(m.1);
    assert(b =~= x + enc_str(k) + (enc_str(m.0) + le_bytes(m.1) + le_bytes(m.2) + y));
    lemma_parse_str_at(x, k, enc_str(m.0) + le_bytes(m.1) + le_bytes(m.2) + y);
    assert(b =~= x1 + enc_str(m.0) + (le_bytes(m.1) + le_bytes(m.2) + y));
    lemma_parse_str_at(x1, m.0, le_bytes(m.1) + le_bytes(m.2) + y);
    assert(b =~= x2 + le_bytes(m.1) + (le_bytes(m.2) + y));
    lemma_parse_u64_at(x2, m.1, le_bytes(m.2) + y);
    assert(b =~= x3 + le_bytes(m.2) + y);
    lemma_parse_u64_at(x3, m.2, y);
}

#[verifier::rlimit(40)]
proof fn lemma_parse_entries_at(x: Seq<u8>, ks: Seq<Seq<char>>, vs: Seq<MetaView>, y: Seq<u8>)
    requires
        ks.len() == vs.len(),
        entries_fit(ks, vs),
    ensures
        parse_entries(x + enc_entries(ks, vs) + y, x.len() as int, ks.len()) == Some(
            (ks, vs, x.len() + enc_entries(ks, vs).len() as int),
        ),
    decreases ks.len(),
{
    let b = x + enc_entries(ks, vs) + y;
    if ks.len() == 0 {
        assert(ks =~= seq![]);
        assert(vs =~= seq![]);
    } else {
        let ks1 = ks.drop_last();
        let vs1 = vs.drop_last();
        let k = ks.last();
        let m = vs.last();
        let t = enc_str(k) + enc_meta(m);
        assert(str_fits(ks[ks.len() - 1]));
        assert(str_fits(vs[vs.len() - 1].0));
        assert forall|i: int| 0 <= i < ks1.len() implies str_fits(#[trigger] ks1[i]) by {
            assert(ks1[i] == ks[i]);
        }
        assert forall|i: int| 0 <= i < vs1.len() implies str_fits(#[trigger] vs1[i].0) by {
            assert(vs1[i] == vs[i]);
        }
        let e1 = enc_entries(ks1, vs1);
        assert(enc_entries(ks, vs) == e1 + enc_str(k) + enc_meta(m));
        assert(b =~= x + e1 + (t + y));
        lemma_parse_entries_at(x, ks1, vs1, t + y);
        assert(b =~= (x + e1) + t + y);
        lemma_parse_entry_at(x + e1, k, m, y);
        assert(ks1.push(k) =~= ks);
        assert(vs1.push(m) =~= vs);
    }
}

/// Decoding the binary form of entries gives back the map that they make:
/// `decode(encode(x)) == x` for every index `x`.
#[verifier::rlimit(40)]
pub proof fn lemma_round_trip(ks: Seq<Seq<char>>, vs: Seq<MetaView>)
    requires
        ks.len() == vs.len(),
        entries_fit(ks, vs),
    ensures
        parse_index(encode_entries(ks, vs)) == Some(map_of(ks, vs)),
{
    let n = ks.len() as u64;
    let e = enc_entries(ks, vs);
    let b = encode_entries(ks, vs);
    assert(b =~= Seq::<u8>::empty() + le_bytes(n) + e);
    lemma_parse_u64_at(Seq::<u8>::empty(), n, e);
    assert(b =~= le_bytes(n) + e + Seq::<u8>::empty());
    lemma_parse_entries_at(le_bytes(n), ks, vs, Seq::<u8>::empty());
}

/// For every well-formed index, the bytes that `encode` writes decode to it.
pub proof fn lemma_index_round_trip(x: &AssetIndex)
    requires
        x.wf(),
    ensures
        parse_index(encode_entries(x.key_seq(), x.value_seq())) == Some(x@),
{
    x.lemma_wf();
    lemma_round_trip(x.key_seq(), x.value_seq());
}

/// `b` and `b2` hold the same first `e` bytes.
spec fn agree(b: Seq<u8>, b2: Seq<u8>, e: int) -> bool {
    &&& e <= b.len()
    &&& e <= b2.len()
    &&& forall|j: int| 0 <= j < e ==> b[j] == b2[j]
}

proof fn lemma_u64_agree(b: Seq<u8>, b2: Seq<u8>, pos: int, e: int)
    requires
        parse_u64(b, pos) matches Some((_, q)) && q <= e,
        agree(b, b2, e),
    ensures
        parse_u64(b2, pos) == parse_u64(b, pos),
{
    assert(b.subrange(pos, pos + 8) =~= b2.subrange(pos, pos + 8));
}

proof fn lemma_str_agree(b: Seq<u8>, b2: Seq<u8>, pos: int, e: int)
    requires
        parse_str(b, pos) matches Some((_, q)) && q <= e,
        agree(b, b2, e),
    ensures
        parse_str(b2, pos) == parse_str(b, pos),
        parse_str(b, pos) matches Some((_, q)) && pos + 8 <= q,
{
    let (n, p) = parse_u64(b, pos).unwrap();
    lemma_u64_agree(b, b2, pos, e);
    assert(b.subrange(p, p + n) =~= b2.subrange(p, p + n));
}

proof fn lemma_entry_agree(b: Seq<u8>, b2: Seq<u8>, pos: int, e: int)
    requires
        parse_entry(b, pos) matches Some((_, _, q)) && q <= e,
        agree(b, b2, e),
    ensures
        parse_entry(b2, pos) == parse_entry(b, pos),
        parse_entry(b, pos) matches Some((_, _, q)) && pos < q,
{
    let (k, after_key) = parse_str(b, pos).unwrap();
    let (path, after_path) = parse_str(b, after_key).unwrap();
    let (modified, after_modified) = parse_u64(b, after_path).unwrap();
    lemma_str_agree(b, b2, pos, e);
    lemma_str_agree(b, b2, after_key, e);
    lemma_u64_agree(b, b2, after_path, e);
    lemma_u64_agree(b, b2, after_modified, e);
}

proof fn lemma_entries_agree(b: Seq<u8>, b2: Seq<u8>, pos: int, n: nat, e: int)
    requires
        parse_entries(b, pos, n) matches Some((_, _, q)) && q <= e,
        agree(b, b2, e),
    ensures
        parse_entries(b2, pos, n) == parse_entries(b, pos, n),
        parse_entries(b, pos, n) matches Some((_, _, q)) && pos <= q,
    decreases n,
{
    if n > 0 {
        let (ks, vs, p) = parse_entries(b, pos, (n - 1) as nat).unwrap();
        lemma_entry_agree(b, b2, p, e);
        lemma_entries_agree(b, b2, pos, (n - 1) as nat, e);
    }
}

/// Every strict prefix of the binary form of an index fails to decode.
#[verifier::rlimit(40)]
pub proof fn lemma_truncated_fails(ks: Seq<Seq<char>>, vs: Seq<MetaView>, k: int)
    requires
        ks.len() == vs.len(),
        entries_fit(ks, vs),
        0 <= k < encode_entries(ks, vs).len(),
    ensures
        parse_index(encode_entries(ks, vs).subrange(0, k)) is None,
{
    let full = encode_entries(ks, vs);
    let t = full.subrange(0, k);
    lemma_round_trip(ks, vs);
    if parse_index(t) is Some {
        let (n, p) = parse_u64(t, 0).unwrap();
        let (ks2, vs2, q) = parse_entries(t, p, n as nat).unwrap();
        assert(q == k);
        assert(agree(t, full, k));
        lemma_u64_agree(t, full, 0, k);
        lemma_entries_agree(t, full, p, n as nat, k);
        assert(parse_entries(full, p, n as nat) == parse_entries(t, p, n as nat));
    }
}

} // verus!
