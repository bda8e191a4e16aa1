use kv_assets::codec::{decode, encode};
use kv_assets::{AssetIndex, AssetMetadata, Error, KVAssets};
use std::collections::HashMap;

fn md(path: &str, modified: u64, size: u64) -> AssetMetadata {
    AssetMetadata { path: path.to_string(), modified, size }
}

/// Serializes with bincode, as the index tooling of the store does, using a
/// tuple in place of the metadata struct (bincode lays both out alike).
fn bincode_blob(entries: &[(&str, &AssetMetadata)]) -> Vec<u8> {
    let mut index: HashMap<String, (String, u64, u64)> = HashMap::new();
    for (k, m) in entries {
        index.insert(k.to_string(), (m.path.clone(), m.modified, m.size));
    }
    bincode::serialize(&index).expect("serialize-index")
}

/// Tests manifest lookup function (does not invoke cloudflare api)
#[test]
fn test_lookup() {
    let md_ab = AssetMetadata { path: "a/b.txt".to_string(), modified: 10000, size: 10 };
    let md_b = AssetMetadata { path: "b".to_string(), modified: 20000, size: 20 };
    let md_c = AssetMetadata { path: "c.json".to_string(), modified: 30000, size: 30 };
    let blob = bincode_blob(&[("a/b", &md_ab), ("b", &md_b), ("c.json", &md_c)]);

    let mut kv = KVAssets::init(&blob, "123", "namespace", "token");

    // lookup
    assert_eq!(kv.lookup_key("a/b").unwrap().as_ref(), Some(&md_ab));
    assert_eq!(kv.lookup_key("b").unwrap().as_ref(), Some(&md_b));
    assert_eq!(kv.lookup_key("c.json").unwrap().as_ref(), Some(&md_c));

    // lookup not found
    assert_eq!(kv.lookup_key("xyz").unwrap(), None);

    // test strip prefix
    assert_eq!(kv.lookup_key("/b").unwrap().as_ref(), Some(&md_b));

    // ensure_map
    assert!(kv.ensure_map().is_ok());
}

#[test]
fn encode_matches_bincode_layout() {
    let m = md("a-b-hash123", 10000, 10);
    let mut index = AssetIndex::new();
    index.insert("a/b".to_string(), m.clone());
    let ours = encode(&index);
    assert_eq!(ours, bincode_blob(&[("a/b", &m)]));
    let back: HashMap<String, (String, u64, u64)> = bincode::deserialize(&ours).unwrap();
    assert_eq!(back.get("a/b"), Some(&("a-b-hash123".to_string(), 10000, 10)));
}

#[test]
fn empty_index_is_eight_zero_bytes() {
    let index = AssetIndex::new();
    assert_eq!(encode(&index), vec![0u8; 8]);
    assert_eq!(decode(&[0u8; 8]).unwrap().len(), 0);
}

#[test]
fn round_trip_keeps_every_entry() {
    let mut index = AssetIndex::new();
    index.insert("index.html".to_string(), md("index.abc.html", 1, 2));
    index.insert("img/ünï.png".to_string(), md("img/ünï.f00.png", u64::MAX, 0));
    index.insert("css/site.css".to_string(), md("css/site.9.css", 1_600_000_000, 4096));
    let bytes = encode(&index);
    let back = decode(&bytes).unwrap();
    assert_eq!(back.len(), 3);
    for k in ["index.html", "img/ünï.png", "css/site.css"] {
        assert_eq!(back.get(&k.to_string()), index.get(&k.to_string()));
    }
    assert_eq!(encode(&back), bytes);
}

#[test]
fn insert_replaces_same_key() {
    let mut index = AssetIndex::new();
    index.insert("a".to_string(), md("x", 1, 1));
    index.insert("a".to_string(), md("y", 2, 2));
    assert_eq!(index.len(), 1);
    assert_eq!(index.get(&"a".to_string()), Some(md("y", 2, 2)));
    assert_eq!(index.get(&"b".to_string()), None);
}

#[test]
fn leading_slash_is_ignored() {
    let blob = bincode_blob(&[("b", &md("b.1", 5, 6))]);
    let mut kv = KVAssets::init(&blob, "acct", "ns", "tok");
    assert_eq!(kv.lookup_key("/b").unwrap(), kv.lookup_key("b").unwrap());
    assert_eq!(kv.lookup_key("/b").unwrap(), Some(md("b.1", 5, 6)));
    // only one slash is removed
    assert_eq!(kv.lookup_key("//b").unwrap(), None);
}

#[test]
fn lookup_miss_is_none() {
    let blob = bincode_blob(&[("present", &md("p", 1, 1))]);
    let mut kv = KVAssets::init(&blob, "acct", "ns", "tok");
    assert_eq!(kv.lookup_key("nonexistent"), Ok(None));
}

#[test]
fn empty_key_is_refused() {
    let mut kv = KVAssets::init(&[1u8, 2, 3], "acct", "ns", "tok");
    assert_eq!(kv.lookup_key(""), Err(Error::EmptyKey));
    assert_eq!(kv.lookup_key("/"), Err(Error::EmptyKey));
}

#[test]
fn bad_index_bytes_fail_on_lookup() {
    let mut kv = KVAssets::init(&[1u8, 2, 3], "acct", "ns", "tok");
    assert!(matches!(kv.lookup_key("a"), Err(Error::DeserializeAssets(_))));
    // the failure is reported again, not replaced by an empty index
    assert!(matches!(kv.lookup_key("a"), Err(Error::DeserializeAssets(_))));
    assert!(matches!(kv.ensure_map(), Err(Error::DeserializeAssets(_))));
}

#[test]
fn every_truncation_fails() {
    let mut index = AssetIndex::new();
    index.insert("a/b".to_string(), md("a-b-hash123", 10000, 10));
    index.insert("c".to_string(), md("c-1", 3, 4));
    let bytes = encode(&index);
    for k in 0..bytes.len() {
        assert!(matches!(decode(&bytes[..k]), Err(Error::DeserializeAssets(_))), "prefix {}", k);
    }
}

#[test]
fn corrupt_bytes_fail() {
    let mut index = AssetIndex::new();
    index.insert("a/b".to_string(), md("a-b-hash123", 10000, 10));
    let bytes = encode(&index);
    // entry count too large
    let mut more = bytes.clone();
    more[0] = 2;
    assert!(matches!(decode(&more), Err(Error::DeserializeAssets(_))));
    // key length past the end
    let mut long = bytes.clone();
    long[8] = 200;
    assert!(matches!(decode(&long), Err(Error::DeserializeAssets(_))));
    // key bytes that are not UTF-8
    let mut bad = bytes.clone();
    bad[16] = 0xff;
    assert!(matches!(decode(&bad), Err(Error::DeserializeAssets(_))));
    // trailing bytes
    let mut extra = bytes.clone();
    extra.push(0);
    assert!(matches!(decode(&extra), Err(Error::DeserializeAssets(_))));
}

#[test]
fn random_bytes_never_panic() {
    let mut state: u64 = 0x2545_f491_4f6c_dd1d;
    for len in 0..300usize {
        let mut v = Vec::with_capacity(len);
        for _ in 0..len {
            state = state.wrapping_mul(6364136223846793005).wrapping_add(1442695040888963407);
            v.push((state >> 56) as u8);
        }
        if len >= 8 {
            v[1..8].iter_mut().for_each(|b| *b = 0);
            v[0] %= 4;
        }
        let _ = decode(&v);
    }
}

#[test]
fn keys_kept_in_byte_order() {
    let mut index = AssetIndex::new();
    for k in ["m", "é", "a/b", "Z", "a", "zz"] {
        index.insert(k.to_string(), md(k, 0, 0));
    }
    let keys: Vec<String> = (0..index.len()).map(|i| index.key_at(i).clone()).collect();
    assert_eq!(keys, vec!["Z", "a", "a/b", "m", "zz", "é"]);
    for k in ["m", "é", "a/b", "Z", "a", "zz"] {
        assert_eq!(index.get(&k.to_string()), Some(md(k, 0, 0)));
    }
    assert_eq!(index.get(&"a/".to_string()), None);
    assert_eq!(index.get(&"".to_string()), None);
}
