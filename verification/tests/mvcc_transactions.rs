use mvcc::database::Database;

#[test]
fn mvcc_non_conflicting_keys_should_succeed() {
    let mut db: Database<&str, &str> = Database::new();
    // ----------
    let mut tx1 = db.begin(true);
    let mut tx2 = db.begin(true);
    // ----------
    assert!(tx1.get(&db, &"key1").unwrap().is_none());
    tx1.set("key1", "value1").unwrap();
    assert!(tx1.commit(&mut db).is_ok());
    // ----------
    assert!(tx2.get(&db, &"key2").unwrap().is_none());
    tx2.set("key2", "value2").unwrap();
    assert!(tx2.commit(&mut db).is_ok());
}

#[test]
fn mvcc_conflicting_blind_writes_should_error() {
    let mut db: Database<&str, &str> = Database::new();
    // ----------
    let mut tx1 = db.begin(true);
    let mut tx2 = db.begin(true);
    // ----------
    assert!(tx1.get(&db, &"key1").unwrap().is_none());
    tx1.set("key1", "value1").unwrap();
    // ----------
    assert!(tx2.get(&db, &"key1").unwrap().is_none());
    tx2.set("key1", "value2").unwrap();
    // ----------
    assert!(tx1.commit(&mut db).is_ok());
    assert!(tx2.commit(&mut db).is_err());
}

#[test]
fn mvcc_conflicting_read_keys_should_succeed() {
    let mut db: Database<&str, &str> = Database::new();
    // ----------
    let mut tx1 = db.begin(true);
    let mut tx2 = db.begin(true);
    // ----------
    assert!(tx1.get(&db, &"key1").unwrap().is_none());
    tx1.set("key1", "value1").unwrap();
    assert!(tx1.commit(&mut db).is_ok());
    // ----------
    assert!(tx2.get(&db, &"key1").unwrap().is_none());
    tx2.set("key2", "value2").unwrap();
    assert!(tx2.commit(&mut db).is_ok());
}

#[test]
fn mvcc_conflicting_write_keys_should_error() {
    let mut db: Database<&str, &str> = Database::new();
    // ----------
    let mut tx1 = db.begin(true);
    let mut tx2 = db.begin(true);
    // ----------
    assert!(tx1.get(&db, &"key1").unwrap().is_none());
    tx1.set("key1", "value1").unwrap();
    assert!(tx1.commit(&mut db).is_ok());
    // ----------
    assert!(tx2.get(&db, &"key1").unwrap().is_none());
    tx2.set("key1", "value2").unwrap();
    assert!(tx2.commit(&mut db).is_err());
}

#[test]
fn mvcc_conflicting_read_deleted_keys_should_error() {
    let mut db: Database<&str, &str> = Database::new();
    // ----------
    let mut tx1 = db.begin(true);
    tx1.set("key", "value1").unwrap();
    assert!(tx1.commit(&mut db).is_ok());
    // ----------
    let mut tx2 = db.begin(true);
    let mut tx3 = db.begin(true);
    // ----------
    assert!(tx2.get(&db, &"key").unwrap().is_some());
    tx2.del("key").unwrap();
    assert!(tx2.commit(&mut db).is_ok());
    // ----------
    assert!(tx3.get(&db, &"key").unwrap().is_some());
    tx3.set("key", "value2").unwrap();
    assert!(tx3.commit(&mut db).is_err());
}

#[test]
fn mvcc_scan_conflicting_write_keys_should_error() {
    let mut db: Database<&str, &str> = Database::new();
    // ----------
    let mut tx1 = db.begin(true);
    tx1.set("key1", "value1").unwrap();
    assert!(tx1.commit(&mut db).is_ok());
    // ----------
    let mut tx2 = db.begin(true);
    let mut tx3 = db.begin(true);
    // ----------
    tx2.set("key1", "value4").unwrap();
    tx2.set("key2", "value2").unwrap();
    tx2.set("key3", "value3").unwrap();
    assert!(tx2.commit(&mut db).is_ok());
    // ----------
    let res = tx3.scan(&db, "key1".."key9", Some(10)).unwrap();
    assert_eq!(res.len(), 1);
    tx3.set("key2", "value5").unwrap();
    tx3.set("key3", "value6").unwrap();
    let res = tx3.scan(&db, "key1".."key9", Some(10)).unwrap();
    assert_eq!(res.len(), 3);
    assert!(tx3.commit(&mut db).is_err());
}

#[test]
fn mvcc_scan_conflicting_read_deleted_keys_should_error() {
    let mut db: Database<&str, &str> = Database::new();
    // ----------
    let mut tx1 = db.begin(true);
    tx1.set("key1", "value1").unwrap();
    assert!(tx1.commit(&mut db).is_ok());
    // ----------
    let mut tx2 = db.begin(true);
    let mut tx3 = db.begin(true);
    // ----------
    tx2.del("key1").unwrap();
    assert!(tx2.commit(&mut db).is_ok());
    // ----------
    let res = tx3.scan(&db, "key1".."key9", Some(10)).unwrap();
    assert_eq!(res.len(), 1);
    tx3.set("key1", "other").unwrap();
    tx3.set("key2", "value2").unwrap();
    tx3.set("key3", "value3").unwrap();
    let res = tx3.scan(&db, "key1".."key9", Some(10)).unwrap();
    assert_eq!(res.len(), 3);
    assert!(tx3.commit(&mut db).is_err());
}

#[test]
fn mvcc_transaction_queue_correctness() {
    let mut db: Database<&str, &str> = Database::new();
    // ----------
    let mut tx1 = db.begin(true);
    tx1.set("key1", "value1").unwrap();
    assert!(tx1.commit(&mut db).is_ok());
    tx1.drop(&mut db);
    // ----------
    let mut tx2 = db.begin(true);
    tx2.set("key2", "value2").unwrap();
    assert!(tx2.commit(&mut db).is_ok());
    tx2.drop(&mut db);
    // ----------
    let mut tx3 = db.begin(true);
    tx3.set("key", "value").unwrap();
    // ----------
    let mut tx4 = db.begin(true);
    tx4.set("key", "value").unwrap();
    // ----------
    assert!(tx3.commit(&mut db).is_ok());
    assert!(tx4.commit(&mut db).is_err());
    tx3.drop(&mut db);
    tx4.drop(&mut db);
    // ----------
    let mut tx5 = db.begin(true);
    tx5.set("key", "other").unwrap();
    // ----------
    let mut tx6 = db.begin(true);
    tx6.set("key", "other").unwrap();
    // ----------
    assert!(tx5.commit(&mut db).is_ok());
    assert!(tx6.commit(&mut db).is_err());
    tx5.drop(&mut db);
    tx6.drop(&mut db);
    // ----------
    let mut tx7 = db.begin(true);
    tx7.set("key", "change").unwrap();
    // ----------
    let mut tx8 = db.begin(true);
    tx8.set("key", "change").unwrap();
    // ----------
    assert!(tx7.commit(&mut db).is_ok());
    assert!(tx7.commit(&mut db).is_err());
    tx7.drop(&mut db);
    tx8.drop(&mut db);
}
