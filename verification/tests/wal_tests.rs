use database::storage::error::DatabaseError;
use database::storage::transaction::{TransactionId, TransactionManager, VersionId};
use database::storage::wal::{LogRecord, WriteAheadLog};

#[test]
fn test_wal_operations() {
    let mut wal = WriteAheadLog::new();

    wal.log(LogRecord::Begin(1)).unwrap();
    wal.log(LogRecord::Commit(1)).unwrap();
    wal.log(LogRecord::Rollback(1)).unwrap();

    assert_eq!(wal.get_sequence(), 3);
}

/// Cuts the frames of simple records, 21 bytes each, out of the log.
fn frames(bytes: &[u8]) -> Vec<&[u8]> {
    assert_eq!(bytes.len() % 21, 0);
    bytes.chunks(21).collect()
}

#[test]
fn wal_frames_have_sequence_numbers_and_checksums() {
    let mut wal = WriteAheadLog::new();
    wal.log(LogRecord::Begin(1)).unwrap();
    wal.log(LogRecord::Commit(1)).unwrap();
    wal.log(LogRecord::Rollback(1)).unwrap();
    let bytes = wal.bytes().clone();
    let frames = frames(&bytes);
    assert_eq!(frames.len(), 3);
    for (i, frame) in frames.iter().enumerate() {
        let sequence = u64::from_le_bytes(frame[0..8].try_into().unwrap());
        assert_eq!(sequence, i as u64 + 1);
        assert_eq!(frame[8], i as u8 + 1);
        assert_eq!(u64::from_le_bytes(frame[9..17].try_into().unwrap()), 1);
        let stored = u32::from_le_bytes(frame[17..21].try_into().unwrap());
        assert_eq!(stored, crc32fast::hash(&frame[0..17]));
    }
}

#[test]
fn wal_write_record_layout() {
    let mut wal = WriteAheadLog::new();
    wal.log(LogRecord::Write {
        txn_id: 0x0102_0304_0506_0708,
        page_id: 0x0a0b_0c0d,
        offset: 0x1122,
        data: vec![9, 8, 7],
    })
    .unwrap();
    let bytes = wal.bytes().clone();
    let body: Vec<u8> = vec![
        1, 0, 0, 0, 0, 0, 0, 0, // sequence
        4, // tag
        8, 7, 6, 5, 4, 3, 2, 1, // transaction
        0x0d, 0x0c, 0x0b, 0x0a, // page
        0x22, 0x11, // offset
        3, 0, 0, 0, // length
        9, 8, 7,
    ];
    assert_eq!(&bytes[0..body.len()], &body[..]);
    assert_eq!(bytes.len(), body.len() + 4);
    assert_eq!(&bytes[body.len()..], &crc32fast::hash(&body).to_le_bytes());
    assert_eq!(crc32fast::hash(b"123456789"), 0xcbf4_3926);
    assert_eq!(crc32fast::hash(b""), 0);
    assert_eq!(crc32fast::hash(b"a"), 0xe8b7_be43);
    assert_eq!(crc32fast::hash(b"ab"), 0x9e83_486d);
}

#[test]
fn transactions_leave_records() {
    let mut wal = WriteAheadLog::new();
    let mut manager = TransactionManager::new();
    let mut first = manager.begin_transaction(&mut wal).unwrap();
    let mut second = manager.begin_transaction(&mut wal).unwrap();
    assert_eq!(first.id(), TransactionId(1));
    assert_eq!(second.id(), TransactionId(2));
    first.commit(&mut wal).unwrap();
    second.rollback(&mut wal).unwrap();
    // A transaction that has ended leaves no further record.
    first.commit(&mut wal).unwrap();
    first.rollback(&mut wal).unwrap();
    assert_eq!(wal.get_sequence(), 4);
    let bytes = wal.bytes().clone();
    let tags: Vec<(u8, u64)> = frames(&bytes)
        .iter()
        .map(|f| (f[8], u64::from_le_bytes(f[9..17].try_into().unwrap())))
        .collect();
    assert_eq!(tags, vec![(1, 1), (1, 2), (2, 1), (3, 2)]);
}

#[test]
fn version_visibility() {
    let version = VersionId::new(TransactionId(5));
    assert!(!version.is_visible_to(TransactionId(5)));
    assert!(!version.is_visible_to(TransactionId(4)));
    assert!(version.is_visible_to(TransactionId(6)));
}

#[test]
fn wal_errors_are_typed() {
    // The only failure that can be had here is a record that is too long
    // to frame, which no test can afford to build; the log of an empty
    // record succeeds.
    let mut wal = WriteAheadLog::new();
    let res: Result<(), DatabaseError> =
        wal.log(LogRecord::Write { txn_id: 0, page_id: 0, offset: 0, data: vec![] });
    assert!(res.is_ok());
    assert_eq!(wal.bytes().len(), 8 + 1 + 8 + 4 + 2 + 4 + 4);
}
