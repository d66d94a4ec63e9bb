use minikv::rdb::parse_rdb;
use minikv::resp::BulkString;
use minikv::resp::Value;
use minikv::store::DurableValue;
use minikv::store::Expiration;
use minikv::store::Store;

fn bulk(s: &str) -> Value {
    Value::BulkString(BulkString::String(s.to_string()))
}

#[test]
fn zero_duration_expires_on_next_access() {
    let mut store = Store::new();
    store.set("k".to_string(), bulk("v"), Some(0), 1_000);
    assert_eq!(store.get("k", 0, 1_001), Value::BulkString(BulkString::Null));
    assert!(store.keys().is_empty());
}

#[test]
fn no_expiry_never_expires() {
    let mut store = Store::new();
    store.set("k".to_string(), bulk("v"), None, 0);
    assert_eq!(store.get("k", u64::MAX, u64::MAX), bulk("v"));
    assert_eq!(store.get("k", 0, 0), bulk("v"));
    assert!(!Expiration::Empty.elapsed(u64::MAX, u64::MAX));
}

#[test]
fn relative_deadline_boundaries() {
    let e = Expiration::Period { duration: 5, insert_at: 1_000_000 };
    assert!(!e.elapsed(0, 6_000_000));
    assert!(e.elapsed(0, 6_000_001));
    assert!(!e.elapsed(0, 0));
    let d = Expiration::Date(100);
    assert!(!d.elapsed(99, 0));
    assert!(d.elapsed(100, 0));
}

#[test]
fn missing_key_is_null() {
    let mut store = Store::new();
    assert_eq!(store.get("nope", 0, 0), Value::BulkString(BulkString::Null));
}

#[test]
fn set_overwrites_and_keys_lists_each_once() {
    let mut store = Store::new();
    store.set("a".to_string(), bulk("1"), None, 0);
    store.set("b".to_string(), bulk("2"), None, 0);
    store.set("a".to_string(), bulk("3"), None, 0);
    assert_eq!(store.get("a", 0, 0), bulk("3"));
    let mut keys = store.keys();
    keys.sort();
    assert_eq!(keys, vec!["a".to_string(), "b".to_string()]);
}

#[test]
fn keys_include_expired_until_read() {
    let mut store = Store::new();
    store.insert("old".to_string(), DurableValue { val: bulk("x"), expiration: Expiration::Date(10) });
    assert_eq!(store.keys(), vec!["old".to_string()]);
    assert_eq!(store.get("old", 10, 0), Value::BulkString(BulkString::Null));
    assert!(store.keys().is_empty());
}

#[test]
fn seeded_from_snapshot() {
    let snapshot: &[u8] = &[
        82, 69, 68, 73, 83, 48, 48, 48, 51, 254, 0, 0, 0xC0, 0x7D, 0x16, 0x50, 0x6f, 0x73, 0x69, 0x74, 0x69, 0x76, 0x65,
        0x20, 0x38, 0x20, 0x62, 0x69, 0x74, 0x20, 0x69, 0x6e, 0x74, 0x65, 0x67, 0x65, 0x72, 0xFC, 0, 0, 0, 0, 0, 0, 0,
        5, 0, 1, 0x65, 1, 0x66, 255,
    ];
    let (_, rdb) = parse_rdb(snapshot).unwrap();
    let mut store = Store::from_rdb(&rdb);
    assert_eq!(store.get("125", 0, 0), Value::String("Positive 8 bit integer".to_string()));
    assert_eq!(store.get("e", 4, 0), Value::String("f".to_string()));
    assert_eq!(store.get("e", 5, 0), Value::BulkString(BulkString::Null));
    let copy = store.duplicate();
    assert_eq!(copy.keys(), vec!["125".to_string()]);
}
