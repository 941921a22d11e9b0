use kvstore::store::Database;
use kvstore::store::DatabaseError;

fn open(bytes: &Vec<u8>) -> Database {
    Database::new(bytes).expect("buffer should decode")
}

#[test]
fn fresh_store_is_empty_and_encodes_to_nothing() {
    let db = Database::empty();
    assert_eq!(db.get(&b"anything".to_vec()), None);
    assert_eq!(db.save_data(), Vec::<u8>::new());
    // An empty buffer is a valid store with zero entries.
    let reopened = open(&Vec::new());
    assert_eq!(reopened.get(&b"a".to_vec()), None);
    assert_eq!(reopened.get(&Vec::new()), None);
}

#[test]
fn set_then_get() {
    let mut db = Database::empty();
    db.set(b"a".to_vec(), 1).unwrap();
    assert_eq!(db.get(&b"a".to_vec()), Some(1));
    assert_eq!(db.get(&b"b".to_vec()), None);
}

#[test]
fn persistence_across_reopen() {
    let mut db = Database::empty();
    db.set(b"a".to_vec(), 1).unwrap();
    let bytes = db.save_data();
    let reopened = open(&bytes);
    assert_eq!(reopened.get(&b"a".to_vec()), Some(1));
}

#[test]
fn round_trip_many_entries() {
    let mut db = Database::empty();
    db.set(b"alpha".to_vec(), 0).unwrap();
    db.set(b"beta".to_vec(), u64::MAX).unwrap();
    db.set(Vec::new(), 7).unwrap();
    db.set(vec![0xff, 0xfe, 0x00], 42).unwrap();
    db.set(vec![b'k'; 255], 1234567890123456789).unwrap();
    let bytes = db.save_data();
    let reopened = open(&bytes);
    assert_eq!(reopened.get(&b"alpha".to_vec()), Some(0));
    assert_eq!(reopened.get(&b"beta".to_vec()), Some(u64::MAX));
    assert_eq!(reopened.get(&Vec::new()), Some(7));
    assert_eq!(reopened.get(&vec![0xff, 0xfe, 0x00]), Some(42));
    assert_eq!(reopened.get(&vec![b'k'; 255]), Some(1234567890123456789));
    assert_eq!(reopened.get(&b"gamma".to_vec()), None);
}

#[test]
fn save_twice_is_byte_identical() {
    let mut db = Database::empty();
    db.set(b"x".to_vec(), 10).unwrap();
    db.set(b"y".to_vec(), 20).unwrap();
    assert_eq!(db.save_data(), db.save_data());
}

#[test]
fn key_of_255_bytes_round_trips() {
    let key = vec![b'q'; 255];
    let mut db = Database::empty();
    db.set(key.clone(), 5).unwrap();
    let bytes = db.save_data();
    let reopened = open(&bytes);
    assert_eq!(reopened.get(&key), Some(5));
}

#[test]
fn key_of_256_bytes_is_rejected_and_state_unchanged() {
    let mut db = Database::empty();
    db.set(b"kept".to_vec(), 9).unwrap();
    let before = db.save_data();
    let long = vec![b'q'; 256];
    assert_eq!(db.set(long.clone(), 5), Err(DatabaseError::SerializationError));
    assert_eq!(db.get(&long), None);
    assert_eq!(db.get(&b"kept".to_vec()), Some(9));
    assert_eq!(db.save_data(), before);
}

#[test]
fn overwrite_keeps_one_entry() {
    let mut db = Database::empty();
    db.set(b"k".to_vec(), 1).unwrap();
    db.set(b"k".to_vec(), 2).unwrap();
    assert_eq!(db.get(&b"k".to_vec()), Some(2));
    // One entry for "k": length prefix, one key byte, eight value bytes.
    let bytes = db.save_data();
    assert_eq!(bytes, vec![1, b'k', 2, 0, 0, 0, 0, 0, 0, 0]);
}

#[test]
fn truncated_buffer_is_rejected() {
    // Length prefix promises five key bytes; only two remain.
    let r = Database::new(&vec![5, b'a', b'b']);
    assert_eq!(r.err(), Some(DatabaseError::DeserializationError));
    // The value is cut short: one key byte, then three of eight value bytes.
    let r = Database::new(&vec![1, b'a', 1, 0, 0]);
    assert_eq!(r.err(), Some(DatabaseError::DeserializationError));
    // A well-formed entry followed by a lone length prefix.
    let mut buf = vec![1, b'a', 1, 0, 0, 0, 0, 0, 0, 0];
    buf.push(3);
    let r = Database::new(&buf);
    assert_eq!(r.err(), Some(DatabaseError::DeserializationError));
}

#[test]
fn later_duplicate_in_buffer_wins() {
    // Two entries for "k" in one buffer: the later one overwrites.
    let mut buf = vec![1, b'k', 1, 0, 0, 0, 0, 0, 0, 0];
    buf.extend_from_slice(&[1, b'k', 2, 0, 0, 0, 0, 0, 0, 0]);
    let db = open(&buf);
    assert_eq!(db.get(&b"k".to_vec()), Some(2));
    // Saving afterwards keeps a single entry.
    assert_eq!(db.save_data(), vec![1, b'k', 2, 0, 0, 0, 0, 0, 0, 0]);
}
