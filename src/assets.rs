//! Resolving request paths to asset metadata through a lazily decoded index.
use vstd::prelude::*;
use vstd::string::StrSliceExecFns;

use crate::codec::{decode, parse_index};
use crate::error::Error;
use crate::index::{AssetIndex, AssetMetadata, MetaView};
use crate::remote::KV;

verus! {

/// `path` with one leading `/` removed, where it has one.
pub open spec fn normalize(path: Seq<char>) -> Seq<char> {
    if path.len() > 0 && path[0] == '/' {
        path.drop_first()
    } else {
        path
    }
}

/// What a lookup of `path` in the index held by `bytes` gives: `EmptyKey`
/// where the normalized path is empty, else `DeserializeAssets` where the
/// bytes hold no index, else the metadata under the normalized path, if any.
pub open spec fn lookup_result(bytes: Seq<u8>, path: Seq<char>, r: Result<Option<MetaView>, Error>) -> bool {
    if normalize(path).len() == 0 {
        r matches Err(Error::EmptyKey)
    } else {
        match parse_index(bytes) {
            None => r matches Err(Error::DeserializeAssets(_)),
            Some(m) => r == Ok::<Option<MetaView>, Error>(
                if m.contains_key(normalize(path)) {
                    Some(m[normalize(path)])
                } else {
                    None
                },
            ),
        }
    }
}

/// The view of a lookup's result: the metadata's model in place of the metadata.
pub open spec fn lookup_view(r: Result<Option<AssetMetadata>, Error>) -> Result<Option<MetaView>, Error> {
    match r {
        Ok(Some(m)) => Ok(Some(m@)),
        Ok(None) => Ok(None),
        Err(e) => Err(e),
    }
}

/// Serves static assets out of Worker KV storage.
pub struct KVAssets {
    index: Vec<u8>,
    map: Option<AssetIndex>,
    kv: KV,
}

impl KVAssets {
    /// The serialized index that this handler reads.
    pub closed spec fn index_bytes(&self) -> Seq<u8> {
        self.index@
    }

    /// The index has been decoded and is kept.
    pub closed spec fn is_loaded(&self) -> bool {
        self.map is Some
    }

    /// The store parameters.
    pub closed spec fn kv_spec(&self) -> KV {
        self.kv
    }

    /// A kept index is the one that the bytes hold.
    pub closed spec fn wf(&self) -> bool {
        match self.map {
            Some(ix) => ix.wf() && parse_index(self.index@) == Some(ix@),
            None => true,
        }
    }

    /// Initialize handler
    /// - index: binary serialized index
    /// - account_id: cloudflare account id
    /// - namespace_id: cloudflare namespace
    /// - auth_token: cloudflare OAuth token
    pub fn init(index: &[u8], account_id: &str, namespace_id: &str, auth_token: &str) -> (r: KVAssets)
        ensures
            r.wf(),
            r.index_bytes() == index@,
            !r.is_loaded(),
            r.kv_spec().account()@ == account_id@,
            r.kv_spec().namespace()@ == namespace_id@,
            r.kv_spec().token()@ == auth_token@,
    {
        KVAssets::init_with(index, crate::remote::init_kv(account_id, namespace_id, auth_token))
    }

    /// Initialize with existing KV parameters
    pub fn init_with(index: &[u8], kv: KV) -> (r: KVAssets)
        ensures
            r.wf(),
            r.index_bytes() == index@,
            !r.is_loaded(),
            r.kv_spec() == kv,
    {
        let mut bytes: Vec<u8> = Vec::new();
        let mut i: usize = 0;
        while i < index.len()
            invariant
                i <= index@.len(),
                bytes@ == index@.subrange(0, i as int),
            decreases index@.len() - i,
        {
            bytes.push(index[i]);
            i = i + 1;
            assert(bytes@ =~= index@.subrange(0, i as int));
        }
        assert(index@.subrange(0, index@.len() as int) =~= index@);
        KVAssets { index: bytes, map: None, kv }
    }

    /// The store parameters.
    pub fn kv(&self) -> (r: &KV)
        ensures
            *r == self.kv_spec(),
    {
        &self.kv
    }

    /// Decodes the index on first use and keeps it; a failed decode is not
    /// kept, and is tried again on the next call.
    pub fn ensure_map(&mut self) -> (r: Result<(), Error>)
        requires
            old(self).wf(),
        ensures
            final(self).wf(),
            final(self).index_bytes() == old(self).index_bytes(),
            final(self).kv_spec() == old(self).kv_spec(),
            r is Ok <==> parse_index(old(self).index_bytes()) is Some,
            r is Ok ==> final(self).is_loaded(),
            r matches Err(e) ==> e is DeserializeAssets,
    {
        if self.map.is_none() {
            match decode(self.index.as_slice()) {
                Ok(ix) => {
                    self.map = Some(ix);
                },
                Err(e) => {
                    return Err(e);
                },
            }
        }
        Ok(())
    }

    /// Finds the path in the map, returning its metadata.
    /// A leading `/` is removed first; `Ok(None)` where the path is not indexed.
    pub fn lookup_key(&mut self, path: &str) -> (r: Result<Option<AssetMetadata>, Error>)
        requires
            old(self).wf(),
        ensures
            final(self).wf(),
            final(self).index_bytes() == old(self).index_bytes(),
            final(self).kv_spec() == old(self).kv_spec(),
            lookup_result(old(self).index_bytes(), path@, lookup_view(r)),
    {
        let n = path.unicode_len();
        let key = if n > 0 && path.get_char(0) == '/' {
            path.substring_char(1, n)
        } else {
            path
        };
        assert(key@ =~= normalize(path@));
        if n == 0 || key.unicode_len() == 0 {
            return Err(Error::EmptyKey);
        }
        match self.ensure_map() {
            Ok(()) => {},
            Err(e) => {
                return Err(e);
            },
        }
        let owned = key.to_owned();
        match &self.map {
            Some(ix) => Ok(ix.get(&owned)),
            None => Err(Error::DeserializeAssets("index not loaded".to_owned())),
        }
    }
}

/// A path and the same path behind one `/` are looked up alike, for every
/// key that has no leading `/` of its own.
pub proof fn lemma_leading_slash_ignored(bytes: Seq<u8>, key: Seq<char>, r: Result<Option<MetaView>, Error>)
    requires
        key.len() > 0,
        key[0] != '/',
    ensures
        normalize(seq!['/'] + key) == normalize(key),
        lookup_result(bytes, seq!['/'] + key, r) <==> lookup_result(bytes, key, r),
{
    assert((seq!['/'] + key).drop_first() =~= key);
}

/// Where the bytes hold an index, a lookup of a non-empty path never fails,
/// and gives `None` exactly where the path is not indexed.
pub proof fn lemma_miss_is_none(bytes: Seq<u8>, path: Seq<char>, r: Result<Option<MetaView>, Error>)
    requires
        parse_index(bytes) is Some,
        normalize(path).len() > 0,
        lookup_result(bytes, path, r),
    ensures
        r is Ok,
        r == Ok::<Option<MetaView>, Error>(None) <==> !parse_index(bytes).unwrap().contains_key(
            normalize(path),
        ),
{
}

/// The empty path and `/` are refused with `EmptyKey`, whatever the index.
pub proof fn lemma_empty_key(bytes: Seq<u8>, r: Result<Option<MetaView>, Error>)
    ensures
        lookup_result(bytes, Seq::<char>::empty(), r) ==> r matches Err(Error::EmptyKey),
        lookup_result(bytes, seq!['/'], r) ==> r matches Err(Error::EmptyKey),
{
    assert(normalize(seq!['/']) =~= Seq::<char>::empty());
}

} // verus!
