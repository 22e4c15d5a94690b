use mvcc::database::Database;
use mvcc::err::Error;
use mvcc::ordered_map::OrderedMap;
use mvcc::version::Versions;

/// A store that holds the given entries, written by one commit.
fn store_with(entries: &[(u64, u64)]) -> Database<u64, u64> {
    let mut db: Database<u64, u64> = Database::new();
    let mut tx = db.begin(true);
    for (k, v) in entries {
        tx.set(*k, *v).unwrap();
    }
    tx.commit(&mut db).unwrap();
    tx.drop(&mut db);
    db
}

#[test]
fn cancelled_transactions_are_closed() {
    let mut db = store_with(&[(1, 10)]);
    let mut tx = db.begin(true);
    tx.set(2, 20).unwrap();
    assert!(!tx.closed());
    assert_eq!(tx.cancel(), Ok(()));
    assert!(tx.closed());
    assert_eq!(tx.cancel(), Err(Error::TxClosed));
    assert_eq!(tx.commit(&mut db), Err(Error::TxClosed));
    assert_eq!(tx.key_exists(&db, &1), Err(Error::TxClosed));
    assert_eq!(tx.get(&db, &1), Err(Error::TxClosed));
    assert_eq!(tx.set(1, 11), Err(Error::TxClosed));
    assert_eq!(tx.put(&db, 3, 30), Err(Error::TxClosed));
    assert_eq!(tx.putc(&db, 1, 11, Some(10)), Err(Error::TxClosed));
    assert_eq!(tx.del(1), Err(Error::TxClosed));
    assert_eq!(tx.delc(&db, 1, Some(10)), Err(Error::TxClosed));
    assert_eq!(tx.keys(&db, 0..9, None), Err(Error::TxClosed));
    assert_eq!(tx.keys_reverse(&db, 0..9, None), Err(Error::TxClosed));
    assert_eq!(tx.scan(&db, 0..9, None), Err(Error::TxClosed));
    assert_eq!(tx.scan_reverse(&db, 0..9, None), Err(Error::TxClosed));
    tx.drop(&mut db);
    let after = db.begin(false);
    assert_eq!(after.get(&db, &2), Ok(None));
    assert_eq!(after.scan(&db, 0..9, None), Ok(vec![(1, 10)]));
}

#[test]
fn closed_transactions_ignore_the_bounds_of_a_range() {
    let mut db = store_with(&[(1, 10)]);
    let mut tx = db.begin(true);
    tx.cancel().unwrap();
    assert_eq!(tx.keys(&db, 9..0, None), Err(Error::TxClosed));
    assert_eq!(tx.scan_reverse(&db, 9..0, None), Err(Error::TxClosed));
}

#[test]
fn committed_transactions_are_closed() {
    let mut db = store_with(&[]);
    let mut tx = db.begin(true);
    tx.set(1, 10).unwrap();
    assert_eq!(tx.commit(&mut db), Ok(()));
    assert!(tx.closed());
    assert_eq!(tx.commit(&mut db), Err(Error::TxClosed));
    assert_eq!(tx.cancel(), Err(Error::TxClosed));
    assert_eq!(tx.get(&db, &1), Err(Error::TxClosed));
}

#[test]
fn conflicting_transactions_are_closed() {
    let mut db = store_with(&[]);
    let mut first = db.begin(true);
    let mut second = db.begin(true);
    first.set(1, 10).unwrap();
    second.set(1, 11).unwrap();
    assert_eq!(first.commit(&mut db), Ok(()));
    assert_eq!(second.commit(&mut db), Err(Error::KeyWriteConflict));
    assert!(second.closed());
    assert_eq!(second.commit(&mut db), Err(Error::TxClosed));
}

#[test]
fn read_only_transactions_take_no_writes() {
    let mut db = store_with(&[(1, 10)]);
    let mut tx = db.begin(false);
    assert_eq!(tx.set(1, 11), Err(Error::TxNotWritable));
    assert_eq!(tx.put(&db, 3, 30), Err(Error::TxNotWritable));
    assert_eq!(tx.putc(&db, 1, 11, Some(10)), Err(Error::TxNotWritable));
    assert_eq!(tx.del(1), Err(Error::TxNotWritable));
    assert_eq!(tx.delc(&db, 1, Some(10)), Err(Error::TxNotWritable));
    assert_eq!(tx.commit(&mut db), Err(Error::TxNotWritable));
    assert!(!tx.closed());
    assert_eq!(tx.get(&db, &1), Ok(Some(10)));
    assert_eq!(tx.cancel(), Ok(()));
}

#[test]
fn versions_count_the_commits() {
    let mut db: Database<u64, u64> = Database::new();
    let zero = db.begin(false);
    assert_eq!(zero.version(), 0);
    let mut a = db.begin(true);
    let mut b = db.begin(true);
    a.set(1, 10).unwrap();
    b.set(1, 11).unwrap();
    a.commit(&mut db).unwrap();
    assert_eq!(db.begin(false).version(), 1);
    assert_eq!(b.commit(&mut db), Err(Error::KeyWriteConflict));
    assert_eq!(db.begin(false).version(), 1);
    assert_eq!(db.transaction_queue_id(), 2);
    let mut c = db.begin(true);
    assert_eq!(c.commit(&mut db), Ok(()));
    assert_eq!(db.begin(false).version(), 2);
    assert_eq!(db.transaction_queue_id(), 3);
    assert_eq!(zero.version(), 0);
}

#[test]
fn own_writes_are_read() {
    let mut db = store_with(&[(1, 10), (2, 20)]);
    let mut tx = db.begin(true);
    tx.set(1, 11).unwrap();
    tx.set(3, 30).unwrap();
    tx.del(2).unwrap();
    assert_eq!(tx.get(&db, &1), Ok(Some(11)));
    assert_eq!(tx.get(&db, &2), Ok(None));
    assert_eq!(tx.get(&db, &3), Ok(Some(30)));
    assert_eq!(tx.get(&db, &4), Ok(None));
    let other = db.begin(false);
    assert_eq!(other.scan(&db, 0..9, None), Ok(vec![(1, 10), (2, 20)]));
}

#[test]
fn commits_store_the_updates() {
    let mut db = store_with(&[(1, 10), (2, 20), (5, 50)]);
    let mut tx = db.begin(true);
    tx.set(1, 11).unwrap();
    tx.del(2).unwrap();
    tx.set(3, 30).unwrap();
    tx.set(0, 7).unwrap();
    tx.commit(&mut db).unwrap();
    let after = db.begin(false);
    assert_eq!(after.scan(&db, 0..9, None), Ok(vec![(0, 7), (1, 11), (3, 30), (5, 50)]));
    assert_eq!(after.get(&db, &2), Ok(None));
    assert_eq!(after.key_exists(&db, &2), Ok(false));
}

#[test]
fn rejected_commits_store_nothing() {
    let mut db = store_with(&[(1, 10)]);
    let mut first = db.begin(true);
    let mut second = db.begin(true);
    first.set(1, 11).unwrap();
    second.set(0, 99).unwrap();
    second.set(1, 99).unwrap();
    second.set(2, 99).unwrap();
    first.commit(&mut db).unwrap();
    assert_eq!(second.commit(&mut db), Err(Error::KeyWriteConflict));
    assert_eq!(db.begin(false).scan(&db, 0..9, None), Ok(vec![(1, 11)]));
}

#[test]
fn snapshots_are_stable() {
    let mut db: Database<u64, u64> = Database::new();
    let mut readers = vec![db.begin(false)];
    for n in 1..5 {
        let mut tx = db.begin(true);
        if n == 3 {
            tx.del(1).unwrap();
        } else {
            tx.set(1, n * 10).unwrap();
        }
        tx.commit(&mut db).unwrap();
        tx.drop(&mut db);
        readers.push(db.begin(false));
    }
    let seen: Vec<Option<u64>> = readers.iter().map(|r| r.get(&db, &1).unwrap()).collect();
    assert_eq!(seen, vec![None, Some(10), Some(20), None, Some(40)]);
    let there: Vec<bool> = readers.iter().map(|r| r.key_exists(&db, &1).unwrap()).collect();
    assert_eq!(there, vec![false, true, true, false, true]);
    for r in readers.drain(1..4) {
        r.drop(&mut db);
    }
    assert_eq!(readers[0].get(&db, &1), Ok(None));
    assert_eq!(readers[1].get(&db, &1), Ok(Some(40)));
}

#[test]
fn reads_are_repeatable() {
    let mut db = store_with(&[(1, 10), (3, 30)]);
    let mut tx = db.begin(true);
    tx.set(2, 20).unwrap();
    let before = tx.scan(&db, 0..9, None).unwrap();
    let mut other = db.begin(true);
    other.set(1, 11).unwrap();
    other.del(3).unwrap();
    other.set(4, 40).unwrap();
    other.commit(&mut db).unwrap();
    other.drop(&mut db);
    assert_eq!(tx.scan(&db, 0..9, None), Ok(before));
    assert_eq!(tx.get(&db, &3), Ok(Some(30)));
}

#[test]
fn the_first_committer_wins() {
    let mut db = store_with(&[]);
    let mut old = db.begin(true);
    let mut first = db.begin(true);
    first.set(7, 1).unwrap();
    first.commit(&mut db).unwrap();
    first.drop(&mut db);
    // Other transactions come and go in between
    for k in 0..4 {
        let mut tx = db.begin(true);
        tx.set(k, k).unwrap();
        tx.commit(&mut db).unwrap();
        tx.drop(&mut db);
    }
    old.set(7, 2).unwrap();
    assert_eq!(old.commit(&mut db), Err(Error::KeyWriteConflict));
    let mut late = db.begin(true);
    late.set(7, 3).unwrap();
    assert_eq!(late.commit(&mut db), Ok(()));
    assert_eq!(db.begin(false).get(&db, &7), Ok(Some(3)));
}

#[test]
fn conflicts_stay() {
    let mut db = store_with(&[]);
    let mut first = db.begin(true);
    let mut second = db.begin(true);
    let mut third = db.begin(true);
    first.set(1, 1).unwrap();
    second.set(1, 2).unwrap();
    third.set(1, 3).unwrap();
    assert_eq!(first.commit(&mut db), Ok(()));
    assert_eq!(second.commit(&mut db), Err(Error::KeyWriteConflict));
    assert_eq!(third.commit(&mut db), Err(Error::KeyWriteConflict));
    assert_eq!(db.begin(false).get(&db, &1), Ok(Some(1)));
}

#[test]
fn readers_do_not_conflict() {
    let mut db = store_with(&[(1, 10)]);
    let mut reader = db.begin(true);
    let mut writer = db.begin(true);
    writer.set(1, 11).unwrap();
    writer.commit(&mut db).unwrap();
    assert_eq!(reader.get(&db, &1), Ok(Some(10)));
    assert_eq!(reader.commit(&mut db), Ok(()));
}

#[test]
fn reads_that_are_overwritten_do_not_stop_a_commit() {
    let mut db = store_with(&[(1, 1), (2, 1)]);
    let mut a = db.begin(true);
    let mut b = db.begin(true);
    assert_eq!(a.get(&db, &2), Ok(Some(1)));
    assert_eq!(b.get(&db, &1), Ok(Some(1)));
    a.set(1, 0).unwrap();
    b.set(2, 0).unwrap();
    assert_eq!(a.commit(&mut db), Ok(()));
    assert_eq!(b.commit(&mut db), Ok(()));
    assert_eq!(db.begin(false).scan(&db, 0..9, None), Ok(vec![(1, 0), (2, 0)]));
}

#[test]
fn deletes_conflict_too() {
    let mut db = store_with(&[(1, 10)]);
    let mut a = db.begin(true);
    let mut b = db.begin(true);
    a.del(1).unwrap();
    b.del(1).unwrap();
    assert_eq!(a.commit(&mut db), Ok(()));
    assert_eq!(b.commit(&mut db), Err(Error::KeyWriteConflict));
}

#[test]
fn clean_up_keeps_what_open_transactions_need() {
    let mut db = store_with(&[]);
    let mut waiting = db.begin(true);
    waiting.set(1, 99).unwrap();
    let twin = db.begin(false);
    let mut writer = db.begin(true);
    writer.set(1, 10).unwrap();
    writer.commit(&mut db).unwrap();
    writer.drop(&mut db);
    twin.drop(&mut db);
    assert_eq!(waiting.commit(&mut db), Err(Error::KeyWriteConflict));
    waiting.drop(&mut db);
    let mut fresh = db.begin(true);
    fresh.set(1, 11).unwrap();
    assert_eq!(fresh.commit(&mut db), Ok(()));
}

#[test]
fn a_transaction_may_begin_and_end_without_a_trace() {
    let mut db = store_with(&[(1, 10)]);
    let tx = db.begin(false);
    tx.drop(&mut db);
    let tx = db.begin(false);
    assert_eq!(tx.version(), 1);
    assert_eq!(tx.get(&db, &1), Ok(Some(10)));
    tx.drop(&mut db);
}

#[test]
fn keys_exist_once_written() {
    let mut db = store_with(&[(1, 10)]);
    let mut tx = db.begin(true);
    assert_eq!(tx.key_exists(&db, &1), Ok(true));
    assert_eq!(tx.key_exists(&db, &2), Ok(false));
    tx.set(2, 20).unwrap();
    assert_eq!(tx.key_exists(&db, &2), Ok(true));
    // A key that is deleted does not exist, stored or not
    tx.del(3).unwrap();
    assert_eq!(tx.key_exists(&db, &3), Ok(false));
    assert_eq!(tx.get(&db, &3), Ok(None));
    tx.del(1).unwrap();
    assert_eq!(tx.key_exists(&db, &1), Ok(false));
    tx.set(1, 11).unwrap();
    assert_eq!(tx.key_exists(&db, &1), Ok(true));
}

#[test]
fn put_looks_at_the_committed_data() {
    let mut db = store_with(&[(1, 10)]);
    let mut tx = db.begin(true);
    assert_eq!(tx.put(&db, 1, 11), Err(Error::KeyAlreadyExists));
    assert_eq!(tx.get(&db, &1), Ok(Some(10)));
    assert_eq!(tx.put(&db, 2, 20), Ok(()));
    assert_eq!(tx.get(&db, &2), Ok(Some(20)));
    // The transaction's own writes are not looked at
    assert_eq!(tx.put(&db, 2, 21), Ok(()));
    assert_eq!(tx.get(&db, &2), Ok(Some(21)));
    tx.del(1).unwrap();
    assert_eq!(tx.put(&db, 1, 11), Err(Error::KeyAlreadyExists));
    tx.commit(&mut db).unwrap();
    let mut tx = db.begin(true);
    assert_eq!(tx.put(&db, 1, 12), Ok(()));
}

#[test]
fn putc_asks_for_the_committed_value() {
    let mut db = store_with(&[(1, 10)]);
    let mut tx = db.begin(true);
    assert_eq!(tx.putc(&db, 1, 11, Some(9)), Err(Error::ValNotExpectedValue));
    assert_eq!(tx.putc(&db, 1, 11, None), Err(Error::ValNotExpectedValue));
    assert_eq!(tx.putc(&db, 2, 20, Some(20)), Err(Error::ValNotExpectedValue));
    assert_eq!(tx.get(&db, &1), Ok(Some(10)));
    assert_eq!(tx.putc(&db, 1, 11, Some(10)), Ok(()));
    assert_eq!(tx.putc(&db, 2, 20, None), Ok(()));
    assert_eq!(tx.get(&db, &1), Ok(Some(11)));
    assert_eq!(tx.get(&db, &2), Ok(Some(20)));
    assert_eq!(tx.putc(&db, 1, 12, Some(11)), Err(Error::ValNotExpectedValue));
}

#[test]
fn delc_asks_for_the_committed_value() {
    let mut db = store_with(&[(1, 10)]);
    let mut tx = db.begin(true);
    assert_eq!(tx.delc(&db, 1, Some(9)), Err(Error::ValNotExpectedValue));
    assert_eq!(tx.delc(&db, 1, None), Err(Error::ValNotExpectedValue));
    assert_eq!(tx.get(&db, &1), Ok(Some(10)));
    assert_eq!(tx.delc(&db, 1, Some(10)), Ok(()));
    assert_eq!(tx.get(&db, &1), Ok(None));
    assert_eq!(tx.delc(&db, 2, None), Ok(()));
    tx.commit(&mut db).unwrap();
    assert_eq!(db.begin(false).get(&db, &1), Ok(None));
}

#[test]
fn ranges_merge_committed_keys_and_updates() {
    let mut db = store_with(&[(1, 10), (3, 30), (5, 50), (7, 70)]);
    let mut tx = db.begin(true);
    tx.set(2, 20).unwrap();
    tx.set(3, 31).unwrap();
    tx.del(5).unwrap();
    tx.set(6, 60).unwrap();
    tx.del(8).unwrap();
    let all = vec![(1, 10), (2, 20), (3, 31), (6, 60), (7, 70)];
    assert_eq!(tx.scan(&db, 0..9, None), Ok(all.clone()));
    assert_eq!(tx.keys(&db, 0..9, None), Ok(vec![1, 2, 3, 6, 7]));
    let mut turned = all.clone();
    turned.reverse();
    assert_eq!(tx.scan_reverse(&db, 0..9, None), Ok(turned));
    assert_eq!(tx.keys_reverse(&db, 0..9, None), Ok(vec![7, 6, 3, 2, 1]));
    assert_eq!(tx.keys(&db, 2..7, None), Ok(vec![2, 3, 6]));
    assert_eq!(tx.keys_reverse(&db, 2..7, None), Ok(vec![6, 3, 2]));
}

#[test]
fn limits_cut_off() {
    let mut db = store_with(&[(1, 10), (3, 30), (5, 50)]);
    let mut tx = db.begin(true);
    tx.set(2, 20).unwrap();
    tx.del(3).unwrap();
    assert_eq!(tx.keys(&db, 0..9, Some(0)), Ok(vec![]));
    assert_eq!(tx.keys(&db, 0..9, Some(2)), Ok(vec![1, 2]));
    assert_eq!(tx.keys(&db, 0..9, Some(3)), Ok(vec![1, 2, 5]));
    assert_eq!(tx.keys(&db, 0..9, Some(usize::MAX)), Ok(vec![1, 2, 5]));
    assert_eq!(tx.keys_reverse(&db, 0..9, Some(2)), Ok(vec![5, 2]));
    assert_eq!(tx.scan(&db, 0..9, Some(1)), Ok(vec![(1, 10)]));
    assert_eq!(tx.scan_reverse(&db, 0..9, Some(1)), Ok(vec![(5, 50)]));
}

#[test]
fn the_end_of_a_range_is_excluded() {
    let mut db = store_with(&[(1, 10), (5, 50)]);
    let mut tx = db.begin(true);
    assert_eq!(tx.keys(&db, 1..5, None), Ok(vec![1]));
    assert_eq!(tx.keys(&db, 1..6, None), Ok(vec![1, 5]));
    tx.set(5, 51).unwrap();
    tx.set(4, 40).unwrap();
    assert_eq!(tx.scan(&db, 1..5, None), Ok(vec![(1, 10), (4, 40)]));
    assert_eq!(tx.scan_reverse(&db, 1..5, None), Ok(vec![(4, 40), (1, 10)]));
    assert_eq!(tx.scan_reverse(&db, 1..6, None), Ok(vec![(5, 51), (4, 40), (1, 10)]));
    assert_eq!(tx.scan(&db, 1..4, None), Ok(vec![(1, 10)]));
    tx.del(5).unwrap();
    assert_eq!(tx.keys(&db, 1..5, None), Ok(vec![1, 4]));
    assert_eq!(tx.scan(&db, 1..6, None), Ok(vec![(1, 10), (4, 40)]));
}

#[test]
fn empty_ranges_have_no_keys() {
    let mut db = store_with(&[(1, 10), (5, 50)]);
    let mut tx = db.begin(true);
    assert!(!tx.has_updates());
    // The end may come before the start while there are no updates
    assert_eq!(tx.keys(&db, 9..0, None), Ok(vec![]));
    assert_eq!(tx.keys_reverse(&db, 9..0, None), Ok(vec![]));
    assert_eq!(tx.scan(&db, 6..1, Some(2)), Ok(vec![]));
    assert_eq!(tx.scan_reverse(&db, 6..1, None), Ok(vec![]));
    tx.set(4, 40).unwrap();
    assert!(tx.has_updates());
    assert_eq!(tx.keys(&db, 5..5, None), Ok(vec![]));
    assert_eq!(tx.keys_reverse(&db, 4..4, None), Ok(vec![]));
    assert_eq!(tx.scan(&db, 1..1, None), Ok(vec![]));
    assert_eq!(tx.scan_reverse(&db, 1..1, None), Ok(vec![]));
    assert_eq!(tx.cancel(), Ok(()));
    assert!(!tx.has_updates());
}

#[test]
fn ranges_of_strings_exclude_their_end() {
    let mut db: Database<&str, &str> = Database::new();
    let mut tx = db.begin(true);
    tx.set("a", "1").unwrap();
    tx.set("b", "1").unwrap();
    tx.set("c", "1").unwrap();
    tx.commit(&mut db).unwrap();
    let tx = db.begin(true);
    assert_eq!(tx.keys(&db, "a".."c", None), Ok(vec!["a", "b"]));
    assert_eq!(tx.scan(&db, "a".."a", None), Ok(vec![]));
    assert_eq!(tx.keys_reverse(&db, "a".."c", None), Ok(vec!["b", "a"]));
    assert_eq!(tx.scan_reverse(&db, "b".."d", None), Ok(vec![("c", "1"), ("b", "1")]));
}

#[test]
fn a_refusal_closes_nothing() {
    let mut db = store_with(&[(1, 10)]);
    let mut tx = db.begin(true);
    assert_eq!(tx.writable(), Ok(()));
    assert_eq!(tx.put(&db, 1, 11), Err(Error::KeyAlreadyExists));
    assert_eq!(tx.delc(&db, 1, None), Err(Error::ValNotExpectedValue));
    assert!(!tx.closed());
    assert!(!tx.has_updates());
    let mut reader = db.begin(false);
    assert_eq!(reader.writable(), Err(Error::TxNotWritable));
    assert_eq!(reader.commit(&mut db), Err(Error::TxNotWritable));
    assert!(!reader.closed());
    assert_eq!(reader.cancel(), Ok(()));
    assert_eq!(reader.writable(), Err(Error::TxClosed));
    assert_eq!(reader.commit(&mut db), Err(Error::TxClosed));
    assert_eq!(reader.set(1, 1), Err(Error::TxClosed));
    assert!(reader.closed());
}

#[test]
fn only_commits_since_the_beginning_conflict() {
    let mut db = store_with(&[(1, 10), (2, 20)]);
    let mut tx = db.begin(true);
    tx.set(1, 11).unwrap();
    // A transaction that is cancelled, and one that meets a conflict
    let mut cancelled = db.begin(true);
    cancelled.set(1, 12).unwrap();
    cancelled.cancel().unwrap();
    let mut rejected = db.begin(true);
    rejected.set(1, 13).unwrap();
    rejected.set(3, 30).unwrap();
    let mut other = db.begin(true);
    other.set(3, 31).unwrap();
    assert_eq!(other.commit(&mut db), Ok(()));
    assert_eq!(rejected.commit(&mut db), Err(Error::KeyWriteConflict));
    // A key that was read, and written by another
    assert_eq!(tx.get(&db, &3), Ok(None));
    assert_eq!(tx.commit(&mut db), Ok(()));
}

#[test]
fn versions_count_the_commits_since_an_earlier_transaction() {
    let mut db = store_with(&[(1, 10)]);
    let mut earlier = db.begin(true);
    earlier.set(1, 11).unwrap();
    let before = earlier.version();
    for k in 1..4 {
        let mut tx = db.begin(true);
        tx.set(k, k).unwrap();
        tx.commit(&mut db).unwrap();
        tx.drop(&mut db);
        db.begin(true).cancel().unwrap();
    }
    assert_eq!(earlier.commit(&mut db), Err(Error::KeyWriteConflict));
    assert_eq!(earlier.version(), before);
    assert_eq!(db.begin(false).version(), before + 3);
}

#[test]
fn open_transactions_are_counted() {
    let mut db: Database<u64, u64> = Database::new();
    assert_eq!(db.open_transactions(0), None);
    let a = db.begin(false);
    let mut b = db.begin(true);
    assert_eq!(db.open_transactions(0), Some(2));
    a.drop(&mut db);
    assert_eq!(db.open_transactions(0), Some(1));
    b.commit(&mut db).unwrap();
    b.drop(&mut db);
    assert_eq!(db.open_transactions(0), None);
    let c = db.begin(false);
    c.drop(&mut db);
    assert_eq!(db.open_transactions(1), Some(0));
}

#[test]
fn reverse_walks_stay_in_the_range() {
    let mut db = store_with(&[(1, 10), (2, 20), (3, 30), (4, 40)]);
    let mut tx = db.begin(true);
    tx.set(0, 5).unwrap();
    assert_eq!(tx.keys_reverse(&db, 2..4, None), Ok(vec![3, 2]));
    assert_eq!(tx.scan_reverse(&db, 3..9, None), Ok(vec![(4, 40), (3, 30)]));
}

#[test]
fn ranges_see_the_snapshot_only() {
    let mut db = store_with(&[(1, 10), (2, 20)]);
    let tx = db.begin(false);
    let mut other = db.begin(true);
    other.del(1).unwrap();
    other.set(2, 21).unwrap();
    other.set(3, 30).unwrap();
    other.commit(&mut db).unwrap();
    assert_eq!(tx.scan(&db, 0..9, None), Ok(vec![(1, 10), (2, 20)]));
    assert_eq!(tx.keys_reverse(&db, 0..9, None), Ok(vec![2, 1]));
    let now = db.begin(false);
    assert_eq!(now.scan(&db, 0..9, None), Ok(vec![(2, 21), (3, 30)]));
    assert_eq!(now.keys(&db, 0..9, Some(1)), Ok(vec![2]));
}

#[test]
fn empty_stores_have_no_keys() {
    let mut db: Database<u64, u64> = Database::new();
    let tx = db.begin(false);
    assert_eq!(tx.keys(&db, 0..9, None), Ok(vec![]));
    assert_eq!(tx.scan_reverse(&db, 0..9, Some(3)), Ok(vec![]));
    assert_eq!(tx.get(&db, &0), Ok(None));
}

#[test]
fn versions_are_read_from_the_newest() {
    let mut versions: Versions<&str> = Versions::new(2, Some("two"));
    versions.push(5, None);
    versions.push(9, Some("nine"));
    assert_eq!(versions.at(0), None);
    assert_eq!(versions.at(1), None);
    assert_eq!(versions.at(2), Some(&"two"));
    assert_eq!(versions.at(4), Some(&"two"));
    assert_eq!(versions.at(5), None);
    assert_eq!(versions.at(8), None);
    assert_eq!(versions.at(9), Some(&"nine"));
    assert_eq!(versions.at(u64::MAX), Some(&"nine"));
}

#[test]
fn ordered_maps_keep_one_value_for_a_key() {
    let mut m: OrderedMap<u64, &str> = OrderedMap::new();
    for k in [5, 1, 3, 2, 4] {
        m.insert(k, "old");
    }
    m.insert(3, "new");
    if let Some(v) = m.get_mut(&4) {
        *v = "changed";
    }
    assert!(m.get_mut(&6).is_none());
    assert_eq!(m.get(&3), Some(&"new"));
    assert_eq!(m.get(&4), Some(&"changed"));
    m.remove(&5);
    m.remove(&9);
    assert_eq!(m.get(&5), None);
    m.remove_through(&2);
    assert_eq!(m.get(&1), None);
    assert_eq!(m.get(&2), None);
    assert_eq!(m.get(&3), Some(&"new"));
    m.clear();
    assert_eq!(m.get(&3), None);
}
