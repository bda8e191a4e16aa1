use kv_assets::builder::{compare_index, make_index, plan_index};
use kv_assets::remote::{get_reply, put_verdict, write_reply};
use kv_assets::{init_kv, AssetMetadata, Error, KVAssets, Update};

fn md(path: &str, modified: u64, size: u64) -> AssetMetadata {
    AssetMetadata { path: path.to_string(), modified, size }
}

const BASE: &str = "https://api.cloudflare.com/client/v4/accounts/acct/storage/kv/namespaces/ns/values/";

#[test]
fn ttl_under_floor_is_refused() {
    let kv = init_kv("acct", "ns", "tok");
    assert_eq!(kv.put_url("k", Some(59)), Err(Error::TTLTooShort));
    assert_eq!(kv.put_url("k", Some(0)), Err(Error::TTLTooShort));
}

#[test]
fn ttl_at_floor_proceeds() {
    let kv = init_kv("acct", "ns", "tok");
    assert_eq!(kv.put_url("k", Some(60)).unwrap(), format!("{}k?expiration_ttl=60", BASE));
    assert_eq!(kv.put_url("k", Some(86400)).unwrap(), format!("{}k?expiration_ttl=86400", BASE));
    assert_eq!(kv.put_url("k", None).unwrap(), format!("{}k", BASE));
}

#[test]
fn urls_and_header() {
    let kv = init_kv("acct", "ns", "tok");
    assert_eq!(kv.value_url("a-b-hash123"), format!("{}a-b-hash123", BASE));
    assert_eq!(kv.auth_header(), "Bearer tok");
}

#[test]
fn end_to_end_scenario() {
    let pairs = vec![("a/b".to_string(), md("a-b-hash123", 10000, 10))];
    let (_, bytes, status) = plan_index(&pairs, None);
    assert_eq!(status, Update::New);
    let mut assets = KVAssets::init(&bytes, "acct", "ns", "tok");
    let found = assets.lookup_key("a/b").unwrap();
    assert_eq!(found, Some(md("a-b-hash123", 10000, 10)));
    assert_eq!(assets.lookup_key("/a/b").unwrap(), found);
    let key = found.unwrap().path;
    assert_eq!(assets.kv().value_url(&key), format!("{}a-b-hash123", BASE));
    assert_eq!(get_reply(&key, 200, b"hello".to_vec()), Ok(b"hello".to_vec()));
    assert_eq!(
        get_reply(&key, 404, b"missing".to_vec()),
        Err(Error::KVKeyNotFound("a-b-hash123".to_string(), 404))
    );
}

#[test]
fn rebuild_without_change_is_no_change() {
    let pairs = vec![
        ("a/b".to_string(), md("a-b-hash123", 10000, 10)),
        ("c".to_string(), md("c-9", 20000, 20)),
    ];
    let (_, first, status) = plan_index(&pairs, None);
    assert_eq!(status, Update::New);
    let (_, second, status) = plan_index(&pairs, Some(&first));
    assert_eq!(status, Update::NoChange);
    assert_eq!(first, second);
}

#[test]
fn changed_size_or_time_is_updated() {
    let pairs = vec![("a/b".to_string(), md("a-b-hash123", 10000, 10))];
    let (_, first, _) = plan_index(&pairs, None);
    let bigger = vec![("a/b".to_string(), md("a-b-hash123", 10000, 11))];
    assert_eq!(plan_index(&bigger, Some(&first)).2, Update::Updated);
    let newer = vec![("a/b".to_string(), md("a-b-hash123", 10001, 10))];
    assert_eq!(plan_index(&newer, Some(&first)).2, Update::Updated);
}

#[test]
fn compare_statuses() {
    assert_eq!(compare_index(&[1, 2], None), Update::New);
    assert_eq!(compare_index(&[1, 2], Some(&[1, 2])), Update::NoChange);
    assert_eq!(compare_index(&[1, 2], Some(&[1, 3])), Update::Updated);
    assert_eq!(compare_index(&[1, 2], Some(&[1])), Update::Updated);
}

#[test]
fn duplicate_path_last_wins() {
    let pairs = vec![
        ("a".to_string(), md("first", 1, 1)),
        ("b".to_string(), md("other", 2, 2)),
        ("a".to_string(), md("second", 3, 3)),
    ];
    let index = make_index(&pairs);
    assert_eq!(index.len(), 2);
    assert_eq!(index.get(&"a".to_string()), Some(md("second", 3, 3)));
}

#[test]
fn write_reply_statuses() {
    assert_eq!(write_reply(200, b"{}"), Ok(()));
    assert_eq!(write_reply(299, b""), Ok(()));
    assert_eq!(write_reply(500, b"oops"), Err(Error::KVHttpStatus(500, "oops".to_string())));
    assert_eq!(
        write_reply(403, &[b'n', 0xff, b'o']),
        Err(Error::KVHttpStatus(403, "n\u{fffd}o".to_string()))
    );
    assert_eq!(
        get_reply("k", 300, vec![]),
        Err(Error::KVKeyNotFound("k".to_string(), 300))
    );
    assert_eq!(
        get_reply("k", 199, vec![]),
        Err(Error::KVKeyNotFound("k".to_string(), 199))
    );
}

#[test]
fn put_verdict_outcomes() {
    assert_eq!(put_verdict("k", true, "[]", "[]"), Ok(()));
    assert_eq!(
        put_verdict("k", false, "[1]", "[\"m\"]"),
        Err(Error::Message("writing key k: errors:[1] messages:[\"m\"]".to_string()))
    );
}
