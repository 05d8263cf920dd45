use database::storage::error::DatabaseError;
use database::{Database, Value};

#[test]
fn database_tests_test_database_operations() {
    let mut db = Database::new(None).unwrap();

    db.insert(1, &Value::Integer(100)).unwrap();
    assert_eq!(db.get(1).unwrap(), Some(Value::Integer(100)));

    db.delete(1).unwrap();
    assert_eq!(db.get(1).unwrap(), None);
}

#[test]
fn tests_test_database_operations() {
    let mut db = Database::new(None).unwrap();

    db.insert(1, &Value::Integer(100)).unwrap();
    assert_eq!(db.get(1).unwrap(), Some(Value::Integer(100)));

    db.delete(1).unwrap();
    assert_eq!(db.get(1).unwrap(), None);
}

#[test]
fn test_database_initialization() {
    let db = Database::new(None).unwrap();
    // The heap file has the root page of the index, an empty leaf.
    assert_eq!(db.heap().len(), 4096);
    assert_eq!(&db.heap()[0..8], &[0, 0, 0, 0, 0, 0, 0, 0]);
    assert_eq!(&db.heap()[8..15], &[0, 0, 0, 0, 1, 0, 0]);
}

#[test]
fn database_thousand_keys() {
    let mut db = Database::new(None).unwrap();
    for i in 0..1000 {
        db.insert(i, &Value::Integer(i as i64)).unwrap();
    }
    for i in 0..1000 {
        assert_eq!(db.get(i).unwrap(), Some(Value::Integer(i as i64)));
    }
    for i in 0..1000 {
        db.delete(i).unwrap();
    }
    assert_eq!(db.get(0).unwrap(), None);
    assert_eq!(db.all().unwrap(), Vec::new());
}

#[test]
fn database_update_and_all() {
    let mut db = Database::new(None).unwrap();
    db.insert(5, &Value::String("five".to_string())).unwrap();
    db.delete(5).unwrap();
    db.insert(5, &Value::String("FIVE".to_string())).unwrap();
    assert_eq!(db.get(5).unwrap(), Some(Value::String("FIVE".to_string())));
    db.update(5, &Value::Boolean(true)).unwrap();
    db.insert(3, &Value::Null).unwrap();
    assert_eq!(db.all().unwrap(), vec![(3, Value::Null), (5, Value::Boolean(true))]);
    db.flush().unwrap();
}

#[test]
fn database_string_operations() {
    let mut db = Database::new(None).unwrap();
    db.insert(1, &Value::String("héllo".to_string())).unwrap();
    db.insert(2, &Value::Integer(40)).unwrap();
    assert_eq!(db.strlen(1).unwrap(), Some(6));
    assert!(matches!(db.strlen(2), Err(DatabaseError::InvalidOperation(_))));
    assert!(matches!(db.strlen(3), Err(DatabaseError::KeyNotFound(3))));

    db.strcat(1, &Value::String(" world".to_string())).unwrap();
    assert_eq!(db.get(1).unwrap(), Some(Value::String("héllo world".to_string())));
    db.strcat(2, &Value::Integer(2)).unwrap();
    assert_eq!(db.get(2).unwrap(), Some(Value::Integer(42)));
    assert!(matches!(
        db.strcat(2, &Value::String("x".to_string())),
        Err(DatabaseError::InvalidOperation(_))
    ));
    assert!(matches!(
        db.strcat(9, &Value::String("x".to_string())),
        Err(DatabaseError::KeyNotFound(9))
    ));

    // Offsets count bytes: "héllo world" has "llo" at 3..6.
    db.substr(1, 3, 3).unwrap();
    assert_eq!(db.get(1).unwrap(), Some(Value::String("llo".to_string())));
    // A part that is not there, or that cuts a character, is the empty
    // string.
    db.substr(1, 2, 5).unwrap();
    assert_eq!(db.get(1).unwrap(), Some(Value::String(String::new())));
    db.update(1, &Value::String("é".to_string())).unwrap();
    db.substr(1, 1, 1).unwrap();
    assert_eq!(db.get(1).unwrap(), Some(Value::String(String::new())));
    db.update(1, &Value::String("abc".to_string())).unwrap();
    db.substr(1, usize::MAX, 2).unwrap();
    assert_eq!(db.get(1).unwrap(), Some(Value::String(String::new())));
    assert!(matches!(db.substr(9, 0, 1), Err(DatabaseError::KeyNotFound(9))));
    assert!(matches!(db.substr(2, 0, 1), Err(DatabaseError::InvalidOperation(_))));
}

#[test]
fn database_logs_transactions() {
    let mut db = Database::new(None).unwrap();
    db.insert(1, &Value::Integer(7)).unwrap();
    let log = db.log_bytes().clone();
    // Begin, write (with the nine bytes of the value) and commit.
    let write_len = 8 + 1 + 8 + 4 + 2 + 4 + 9 + 4;
    assert_eq!(log.len(), 21 + write_len + 21);
    assert_eq!(log[8], 1);
    assert_eq!(log[21 + 8], 4);
    assert_eq!(&log[21 + 27..21 + 36], &Value::Integer(7).serialize()[..]);
    assert_eq!(log[21 + write_len + 8], 2);
    assert_eq!(u64::from_le_bytes(log[21 + write_len..21 + write_len + 8].try_into().unwrap()), 3);

    // A change that fails is rolled back.
    let too_long = Value::String("x".repeat(5000));
    assert!(matches!(db.insert(2, &too_long), Err(DatabaseError::InvalidData(_))));
    let log = db.log_bytes().clone();
    assert_eq!(log.len(), 21 + write_len + 21 + 21 + 21);
    let tail = &log[log.len() - 42..];
    assert_eq!((tail[8], tail[21 + 8]), (1, 3));
    assert_eq!(u64::from_le_bytes(tail[9..17].try_into().unwrap()), 2);
    assert_eq!(db.get(2).unwrap(), None);
}

#[test]
fn database_opens_what_it_wrote() {
    let mut db = Database::new(None).unwrap();
    db.insert(1, &Value::Integer(1)).unwrap();
    db.insert(2, &Value::Integer(2)).unwrap();
    let heap = db.heap().clone();
    let mut again = Database::new(Some(heap.clone())).unwrap();
    assert_eq!(again.get(2).unwrap(), Some(Value::Integer(2)));
    assert_eq!(again.all().unwrap().len(), 2);
    // New pages come behind the pages that the file holds.
    for key in 3..20 {
        again.insert(key, &Value::Integer(key as i64)).unwrap();
    }
    for key in 1..20 {
        assert_eq!(again.get(key).unwrap(), Some(Value::Integer(key as i64)));
    }
    assert!(again.heap().len() > heap.len());
}

#[test]
fn database_refuses_a_file_without_an_index() {
    assert!(matches!(
        Database::new(Some(Vec::new())),
        Err(DatabaseError::InvalidOperation(_))
    ));
    assert!(matches!(
        Database::new(Some(vec![0u8; 100])),
        Err(DatabaseError::InvalidOperation(_))
    ));
    assert!(matches!(
        Database::new(Some(vec![0u8; 4096])),
        Err(DatabaseError::InvalidData(_))
    ));
    assert!(matches!(
        Database::new(Some(vec![9u8; 4096 * 2])),
        Err(DatabaseError::InvalidData(_))
    ));
}
