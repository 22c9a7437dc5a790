use resp_kv::Db;

#[test]
fn new_store_binds_nothing() {
    let db = Db::new();
    assert_eq!(db.get("k".to_string()), None);
    assert_eq!(db.get(String::new()), None);
}

#[test]
fn set_binds_and_get_copies() {
    let mut db = Db::new();
    db.set("k".to_string(), b"v".to_vec());
    assert_eq!(db.get("k".to_string()), Some(b"v".to_vec()));
    assert_eq!(db.get("K".to_string()), None);
}

#[test]
fn set_replaces_the_value_of_a_bound_key() {
    let mut db = Db::new();
    db.set("k".to_string(), b"one".to_vec());
    db.set("other".to_string(), b"x".to_vec());
    db.set("k".to_string(), b"two".to_vec());
    assert_eq!(db.get("k".to_string()), Some(b"two".to_vec()));
    assert_eq!(db.get("other".to_string()), Some(b"x".to_vec()));
}

#[test]
fn values_are_bytes_of_any_kind() {
    let mut db = Db::new();
    db.set(String::new(), vec![]);
    db.set("bin".to_string(), vec![0xff, 0x00, 0x0d, 0x0a]);
    assert_eq!(db.get(String::new()), Some(vec![]));
    assert_eq!(db.get("bin".to_string()), Some(vec![0xff, 0x00, 0x0d, 0x0a]));
}

#[test]
fn writes_to_distinct_keys_are_all_visible() {
    let mut db = Db::new();
    for i in 0..50 {
        db.set(format!("key{}", i), format!("value{}", i).into_bytes());
    }
    for i in (0..50).rev() {
        assert_eq!(db.get(format!("key{}", i)), Some(format!("value{}", i).into_bytes()));
    }
}

#[test]
fn writes_to_one_key_leave_one_of_the_values() {
    let submitted: Vec<Vec<u8>> = (0..10).map(|i| format!("payload-{}", i).into_bytes()).collect();
    let mut db = Db::new();
    for value in &submitted {
        db.set("k".to_string(), value.clone());
    }
    let seen = db.get("k".to_string()).unwrap();
    assert!(submitted.contains(&seen));
    assert_eq!(seen, b"payload-9".to_vec());
}
