use txn_store::cursor::DbIterator;
use txn_store::db::TransactionDb;
use txn_store::options::{Direction, ReadOptions};
use txn_store::status::{into_result, EngineStatus, Error};
use txn_store::transaction::Transaction;

fn get_owned(tx: &Transaction, col: usize, key: &[u8]) -> Option<Vec<u8>> {
    let mut slot: Vec<u8> = Vec::new();
    match tx.get(col, key, &mut slot) {
        Ok(Some(ps)) => Some(ps.as_bytes().clone()),
        Ok(None) => None,
        Err(_) => panic!("get reported an error"),
    }
}

fn drain(mut it: DbIterator) -> Vec<(Vec<u8>, Vec<u8>)> {
    let mut out: Vec<(Vec<u8>, Vec<u8>)> = Vec::new();
    while it.valid() {
        out.push((it.key().clone(), it.value().clone()));
        it.advance();
    }
    out
}

#[test]
fn status_translation() {
    assert_eq!(into_result(&EngineStatus::Success), Ok(()));
    assert_eq!(into_result(&EngineStatus::NotFound), Err(Error::NotFound));
    assert_eq!(
        into_result(&EngineStatus::Failure(7)),
        Err(Error::OperationFailure(7))
    );
}

#[test]
fn unwritten_key_reads_absent_not_error() {
    let db = TransactionDb::new(2);
    let tx = db.begin_transaction(false);
    let mut slot: Vec<u8> = Vec::new();
    let r = tx.get(0, b"missing", &mut slot);
    assert!(matches!(r, Ok(None)));
    let r1 = tx.get(1, b"also-missing", &mut slot);
    assert!(matches!(r1, Ok(None)));
}

#[test]
fn read_your_own_writes() {
    let db = TransactionDb::new(1);
    let mut tx = db.begin_transaction(false);
    assert_eq!(tx.put(0, b"k", b"v1"), Ok(()));
    assert_eq!(get_owned(&tx, 0, b"k"), Some(b"v1".to_vec()));
}

#[test]
fn concurrent_transaction_does_not_see_uncommitted_write() {
    let db = TransactionDb::new(1);
    let mut tx1 = db.begin_transaction(false);
    let tx2 = db.begin_transaction(false);
    assert_eq!(tx1.put(0, b"k", b"v"), Ok(()));
    assert_eq!(get_owned(&tx1, 0, b"k"), Some(b"v".to_vec()));
    assert_eq!(get_owned(&tx2, 0, b"k"), None);
}

#[test]
fn own_writes_invisible_without_read_own_writes() {
    let db = TransactionDb::new(1);
    let mut tx = db.begin_transaction(false);
    assert_eq!(tx.put(0, b"k", b"v"), Ok(()));
    let opts = ReadOptions {
        read_own_writes: false,
    };
    let mut slot: Vec<u8> = Vec::new();
    let r = tx.get_with_options(&opts, 0, b"k", &mut slot);
    assert!(matches!(r, Ok(None)));
    let default_opts = ReadOptions::new();
    let r2 = tx.get_with_options(&default_opts, 0, b"k", &mut slot);
    assert!(matches!(r2, Ok(Some(_))));
}

#[test]
fn delete_hides_preexisting_key() {
    let mut db = TransactionDb::new(1);
    let mut seed = db.begin_transaction(false);
    assert_eq!(seed.put(0, b"k", b"old"), Ok(()));
    assert_eq!(seed.commit(&mut db), Ok(()));

    let mut tx = db.begin_transaction(false);
    assert_eq!(get_owned(&tx, 0, b"k"), Some(b"old".to_vec()));
    assert_eq!(tx.delete(0, b"k"), Ok(()));
    assert_eq!(get_owned(&tx, 0, b"k"), None);
}

#[test]
fn commit_publishes_pending_writes() {
    let mut db = TransactionDb::new(2);
    let mut seed = db.begin_transaction(false);
    assert_eq!(seed.put(0, b"stale", b"gone-soon"), Ok(()));
    assert_eq!(seed.commit(&mut db), Ok(()));

    let mut tx = db.begin_transaction(false);
    assert_eq!(tx.put(0, b"a", b"1"), Ok(()));
    assert_eq!(tx.put(1, b"b", b"2"), Ok(()));
    assert_eq!(tx.delete(0, b"stale"), Ok(()));
    assert_eq!(tx.commit(&mut db), Ok(()));

    let after = db.begin_transaction(false);
    assert_eq!(get_owned(&after, 0, b"a"), Some(b"1".to_vec()));
    assert_eq!(get_owned(&after, 1, b"b"), Some(b"2".to_vec()));
    assert_eq!(get_owned(&after, 0, b"stale"), None);
    assert_eq!(get_owned(&after, 1, b"a"), None);
}

#[test]
fn rollback_discards_pending_writes() {
    let mut db = TransactionDb::new(1);
    let mut seed = db.begin_transaction(false);
    assert_eq!(seed.put(0, b"keep", b"before"), Ok(()));
    assert_eq!(seed.commit(&mut db), Ok(()));

    let mut tx = db.begin_transaction(false);
    assert_eq!(tx.put(0, b"keep", b"changed"), Ok(()));
    assert_eq!(tx.put(0, b"new", b"value"), Ok(()));
    assert_eq!(tx.delete(0, b"keep"), Ok(()));
    assert_eq!(tx.rollback(), Ok(()));

    let after = db.begin_transaction(false);
    assert_eq!(get_owned(&after, 0, b"keep"), Some(b"before".to_vec()));
    assert_eq!(get_owned(&after, 0, b"new"), None);
}

#[test]
fn forward_cursor_yields_ascending_order() {
    let mut db = TransactionDb::new(1);
    let mut seed = db.begin_transaction(false);
    assert_eq!(seed.put(0, b"b", b"2"), Ok(()));
    assert_eq!(seed.put(0, b"c", b"3"), Ok(()));
    assert_eq!(seed.put(0, b"a", b"1"), Ok(()));
    assert_eq!(seed.commit(&mut db), Ok(()));

    let tx = db.begin_transaction(false);
    let got = drain(tx.iter(0, Direction::Forward));
    assert_eq!(
        got,
        vec![
            (b"a".to_vec(), b"1".to_vec()),
            (b"b".to_vec(), b"2".to_vec()),
            (b"c".to_vec(), b"3".to_vec()),
        ]
    );
}

#[test]
fn reverse_cursor_yields_descending_order() {
    let mut db = TransactionDb::new(1);
    let mut seed = db.begin_transaction(false);
    assert_eq!(seed.put(0, b"a", b"1"), Ok(()));
    assert_eq!(seed.put(0, b"c", b"3"), Ok(()));
    assert_eq!(seed.put(0, b"b", b"2"), Ok(()));
    assert_eq!(seed.commit(&mut db), Ok(()));

    let tx = db.begin_transaction(false);
    let got = drain(tx.iter(0, Direction::Reverse));
    assert_eq!(
        got,
        vec![
            (b"c".to_vec(), b"3".to_vec()),
            (b"b".to_vec(), b"2".to_vec()),
            (b"a".to_vec(), b"1".to_vec()),
        ]
    );
}

#[test]
fn cursor_sees_pending_writes_and_deletes() {
    let mut db = TransactionDb::new(1);
    let mut seed = db.begin_transaction(false);
    assert_eq!(seed.put(0, b"a", b"1"), Ok(()));
    assert_eq!(seed.put(0, b"b", b"2"), Ok(()));
    assert_eq!(seed.commit(&mut db), Ok(()));

    let mut tx = db.begin_transaction(false);
    assert_eq!(tx.delete(0, b"a"), Ok(()));
    assert_eq!(tx.put(0, b"b", b"22"), Ok(()));
    assert_eq!(tx.put(0, b"c", b"3"), Ok(()));
    let got = drain(tx.iter(0, Direction::Forward));
    assert_eq!(
        got,
        vec![(b"b".to_vec(), b"22".to_vec()), (b"c".to_vec(), b"3".to_vec())]
    );

    let opts = ReadOptions {
        read_own_writes: false,
    };
    let base_only = drain(tx.iter_with_options(&opts, 0, Direction::Forward));
    assert_eq!(
        base_only,
        vec![(b"a".to_vec(), b"1".to_vec()), (b"b".to_vec(), b"2".to_vec())]
    );
}

#[test]
fn cursor_walks_to_natural_end() {
    let mut db = TransactionDb::new(1);
    let mut seed = db.begin_transaction(false);
    assert_eq!(seed.put(0, b"only", b"entry"), Ok(()));
    assert_eq!(seed.commit(&mut db), Ok(()));

    let tx = db.begin_transaction(false);
    let mut it = tx.iter(0, Direction::Forward);
    assert!(it.valid());
    assert_eq!(it.key().as_slice(), b"only");
    assert_eq!(it.value().as_slice(), b"entry");
    it.advance();
    assert!(!it.valid());
}

#[test]
fn shared_snapshot_survives_commit() {
    let mut db = TransactionDb::new(1);
    let mut seed = db.begin_transaction(false);
    assert_eq!(seed.put(0, b"k", b"old"), Ok(()));
    assert_eq!(seed.commit(&mut db), Ok(()));

    let mut tx = db.begin_transaction(true);
    let snap = tx.timestamped_snapshot();
    assert_eq!(tx.put(0, b"k", b"new"), Ok(()));
    assert_eq!(tx.commit(&mut db), Ok(()));
    drop(tx);

    // the snapshot outlives the transaction and still shows the old state
    assert_eq!(snap.get(0, b"k"), Some(b"old".to_vec()));
    let after = db.begin_transaction(false);
    assert_eq!(get_owned(&after, 0, b"k"), Some(b"new".to_vec()));
}

#[test]
fn shared_snapshot_survives_rollback() {
    let mut db = TransactionDb::new(1);
    let mut seed = db.begin_transaction(false);
    assert_eq!(seed.put(0, b"k", b"v"), Ok(()));
    assert_eq!(seed.commit(&mut db), Ok(()));

    let mut tx = db.begin_transaction(true);
    let snap = tx.timestamped_snapshot();
    assert_eq!(tx.delete(0, b"k"), Ok(()));
    assert_eq!(tx.rollback(), Ok(()));
    drop(tx);

    assert_eq!(snap.get(0, b"k"), Some(b"v".to_vec()));
    assert_eq!(snap.get(0, b"other"), None);
}

#[test]
fn transaction_scoped_snapshot_reads_begin_time_state() {
    let mut db = TransactionDb::new(1);
    let mut seed = db.begin_transaction(false);
    assert_eq!(seed.put(0, b"k", b"begin"), Ok(()));
    assert_eq!(seed.commit(&mut db), Ok(()));

    let mut tx = db.begin_transaction(true);
    assert_eq!(tx.put(0, b"k", b"pending"), Ok(()));
    let snap = tx.snapshot();
    // the snapshot shows the begin-time state, not the pending write
    assert_eq!(snap.get(0, b"k"), Some(b"begin".to_vec()));
    assert_eq!(snap.num_columns(), 1);
}

#[test]
fn snapshot_support_is_reported() {
    let db = TransactionDb::new(1);
    let without = db.begin_transaction(false);
    assert!(!without.has_snapshot());
    let with = db.begin_transaction(true);
    assert!(with.has_snapshot());
}

#[test]
fn put_overwrites_earlier_put() {
    let db = TransactionDb::new(1);
    let mut tx = db.begin_transaction(false);
    assert_eq!(tx.put(0, b"k", b"first"), Ok(()));
    assert_eq!(tx.put(0, b"k", b"second"), Ok(()));
    assert_eq!(get_owned(&tx, 0, b"k"), Some(b"second".to_vec()));
}

#[test]
fn delete_of_absent_key_commits_cleanly() {
    let mut db = TransactionDb::new(1);
    let mut tx = db.begin_transaction(false);
    assert_eq!(tx.delete(0, b"never-there"), Ok(()));
    assert_eq!(tx.commit(&mut db), Ok(()));
    let after = db.begin_transaction(false);
    assert_eq!(get_owned(&after, 0, b"never-there"), None);
}

#[test]
fn empty_key_and_empty_value_round_trip() {
    let mut db = TransactionDb::new(1);
    let mut tx = db.begin_transaction(false);
    assert_eq!(tx.put(0, b"", b"empty-key"), Ok(()));
    assert_eq!(tx.put(0, b"empty-value", b""), Ok(()));
    assert_eq!(tx.commit(&mut db), Ok(()));

    let after = db.begin_transaction(false);
    assert_eq!(get_owned(&after, 0, b""), Some(b"empty-key".to_vec()));
    assert_eq!(get_owned(&after, 0, b"empty-value"), Some(b"".to_vec()));
    // the empty key sorts first
    let got = drain(after.iter(0, Direction::Forward));
    assert_eq!(got[0].0, b"".to_vec());
}

#[test]
fn get_populates_caller_slot() {
    let db = TransactionDb::new(1);
    let mut tx = db.begin_transaction(false);
    assert_eq!(tx.put(0, b"k", b"payload"), Ok(()));
    let mut slot: Vec<u8> = Vec::new();
    {
        let r = tx.get(0, b"k", &mut slot);
        let ps = r.expect("no error").expect("key present");
        assert_eq!(ps.len(), 7);
        assert_eq!(ps.as_bytes().as_slice(), b"payload");
    }
    // the bytes landed in the caller-supplied slot itself
    assert_eq!(slot.as_slice(), b"payload");
}

#[test]
fn prefixes_sort_before_their_extensions() {
    let mut db = TransactionDb::new(1);
    let mut seed = db.begin_transaction(false);
    assert_eq!(seed.put(0, b"b", b"3"), Ok(()));
    assert_eq!(seed.put(0, b"ab", b"2"), Ok(()));
    assert_eq!(seed.put(0, b"a", b"1"), Ok(()));
    assert_eq!(seed.put(0, b"ba", b"4"), Ok(()));
    assert_eq!(seed.commit(&mut db), Ok(()));

    let tx = db.begin_transaction(false);
    let keys: Vec<Vec<u8>> = drain(tx.iter(0, Direction::Forward))
        .into_iter()
        .map(|(k, _)| k)
        .collect();
    assert_eq!(
        keys,
        vec![b"a".to_vec(), b"ab".to_vec(), b"b".to_vec(), b"ba".to_vec()]
    );
}

#[test]
fn seek_repositions_forward_cursor() {
    let mut db = TransactionDb::new(1);
    let mut seed = db.begin_transaction(false);
    assert_eq!(seed.put(0, b"a", b"1"), Ok(()));
    assert_eq!(seed.put(0, b"b", b"2"), Ok(()));
    assert_eq!(seed.put(0, b"d", b"4"), Ok(()));
    assert_eq!(seed.commit(&mut db), Ok(()));

    let tx = db.begin_transaction(false);
    let mut it = tx.iter(0, Direction::Forward);
    it.seek(b"b");
    assert!(it.valid());
    assert_eq!(it.key().as_slice(), b"b");
    // seeking to a key between entries lands on the next one in scan order
    it.seek(b"c");
    assert!(it.valid());
    assert_eq!(it.key().as_slice(), b"d");
    // seeking past the last entry leaves the cursor invalid
    it.seek(b"e");
    assert!(!it.valid());
}

#[test]
fn seek_repositions_reverse_cursor() {
    let mut db = TransactionDb::new(1);
    let mut seed = db.begin_transaction(false);
    assert_eq!(seed.put(0, b"a", b"1"), Ok(()));
    assert_eq!(seed.put(0, b"b", b"2"), Ok(()));
    assert_eq!(seed.put(0, b"d", b"4"), Ok(()));
    assert_eq!(seed.commit(&mut db), Ok(()));

    let tx = db.begin_transaction(false);
    let mut it = tx.iter(0, Direction::Reverse);
    it.seek(b"c");
    assert!(it.valid());
    assert_eq!(it.key().as_slice(), b"b");
    it.advance();
    assert!(it.valid());
    assert_eq!(it.key().as_slice(), b"a");
}

#[test]
fn column_counts_are_reported_everywhere() {
    let db = TransactionDb::new(4);
    let tx = db.begin_transaction(true);
    assert_eq!(tx.num_columns(), 4);
    let snap = tx.timestamped_snapshot();
    assert_eq!(snap.num_columns(), 4);
    assert_eq!(tx.snapshot().num_columns(), 4);
}

#[test]
fn columns_are_independent_keyspaces() {
    let mut db = TransactionDb::new(3);
    assert_eq!(db.num_columns(), 3);
    let mut tx = db.begin_transaction(false);
    assert_eq!(tx.put(1, b"k", b"one"), Ok(()));
    assert_eq!(tx.commit(&mut db), Ok(()));

    let after = db.begin_transaction(false);
    assert_eq!(get_owned(&after, 0, b"k"), None);
    assert_eq!(get_owned(&after, 1, b"k"), Some(b"one".to_vec()));
    assert_eq!(get_owned(&after, 2, b"k"), None);
}
