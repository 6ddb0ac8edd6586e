use rookie_redis::Database;

#[test]
fn set_then_get_test() {
    let mut db = Database::new();
    let wake = db.set(String::from("foo"), b"bar".to_vec(), 100, None);
    assert!(!wake);
    assert_eq!(db.get("foo", 100), Some(b"bar".to_vec()));
    assert_eq!(db.get("foo", u64::MAX), Some(b"bar".to_vec()));
    assert_eq!(db.get("missing", 100), None);
}

#[test]
fn ttl_expiry_test() {
    let mut db = Database::new();
    db.set(String::from("k"), b"v".to_vec(), 1000, Some(500));
    assert_eq!(db.get("k", 1000), Some(b"v".to_vec()));
    assert_eq!(db.get("k", 1500), Some(b"v".to_vec()));
    // strictly past the deadline the entry is logically absent, even
    // though the sweeper has not run
    assert_eq!(db.get("k", 1501), None);
}

#[test]
fn overwrite_erases_deadline_test() {
    let mut db = Database::new();
    db.set(String::from("k"), b"v1".to_vec(), 0, Some(10));
    db.set(String::from("k"), b"v2".to_vec(), 5, None);
    assert_eq!(db.get("k", u64::MAX), Some(b"v2".to_vec()));
}

#[test]
fn overwrite_replaces_value_test() {
    let mut db = Database::new();
    db.set(String::from("k"), b"old".to_vec(), 0, None);
    db.set(String::from("k"), b"new".to_vec(), 0, None);
    assert_eq!(db.get("k", 0), Some(b"new".to_vec()));
}

#[test]
fn shorter_ttl_wakes_sweeper_test() {
    let mut db = Database::new();
    // first deadline: nothing earlier exists, so no wake
    let w1 = db.set(String::from("slow"), b"v".to_vec(), 0, Some(10_000));
    assert!(!w1);
    // a strictly earlier deadline must wake the sweeper
    let w2 = db.set(String::from("fast"), b"v".to_vec(), 0, Some(1_000));
    assert!(w2);
    // a later deadline must not
    let w3 = db.set(String::from("lazy"), b"v".to_vec(), 0, Some(20_000));
    assert!(!w3);
    // dropping the TTL of a key that had one wakes it to recompute
    let w4 = db.set(String::from("fast"), b"v".to_vec(), 0, None);
    assert!(w4);
    // dropping the TTL of a key without one does not
    let w5 = db.set(String::from("plain"), b"v".to_vec(), 0, None);
    assert!(!w5);
}

#[test]
fn clean_expired_keys_test() {
    let mut db = Database::new();
    db.set(String::from("test"), b"h".to_vec(), 0, Some(3000));
    db.set(String::from("test2"), b"h".to_vec(), 0, Some(1000));
    assert_eq!(db.get("test", 0), Some(b"h".to_vec()));
    let next = db.clean_expired_keys(4000);
    assert_eq!(db.get("test", 4000), None);
    assert_eq!(db.get("test2", 4000), None);
    assert_eq!(next, None);
}

#[test]
fn clean_reports_next_deadline_test() {
    let mut db = Database::new();
    db.set(String::from("a"), b"1".to_vec(), 0, Some(5000));
    db.set(String::from("b"), b"2".to_vec(), 0, Some(1000));
    let next = db.clean_expired_keys(2000);
    assert_eq!(db.get("b", 2000), None);
    assert_eq!(db.get("a", 2000), Some(b"1".to_vec()));
    // the earliest remaining deadline is 3000 ms away
    assert_eq!(next, Some(3000));
}

#[test]
fn clean_keeps_unexpired_and_undated_test() {
    let mut db = Database::new();
    db.set(String::from("forever"), b"x".to_vec(), 0, None);
    db.set(String::from("soon"), b"y".to_vec(), 0, Some(10));
    let next = db.clean_expired_keys(100);
    assert_eq!(db.get("forever", 100), Some(b"x".to_vec()));
    assert_eq!(db.get("soon", 100), None);
    assert_eq!(next, None);
}

#[test]
fn deadline_boundary_test() {
    let mut db = Database::new();
    db.set(String::from("k"), b"v".to_vec(), 0, Some(100));
    // an entry whose deadline equals the clock is still visible, and
    // the sweeper removes only strictly earlier deadlines
    let next = db.clean_expired_keys(100);
    assert_eq!(next, Some(0));
    assert_eq!(db.get("k", 100), Some(b"v".to_vec()));
    db.clean_expired_keys(101);
    assert_eq!(db.get("k", 101), None);
}
