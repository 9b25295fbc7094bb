use reveldb::{LogError, RevelDB, LOG_BLOCK_SIZE};

const KEY1: [u8; 3] = [65, 66, 67];
const KEY2: [u8; 1] = [1];
const KEY3: [u8; 2] = [5, 6];

const VAL1: [u8; 8] = [1, 2, 3, 4, 5, 5, 5, 9];
const VAL2: [u8; 1] = [17];
const VAL3: [u8; 2] = [22, 22];

#[test]
fn db_test_put() {
    let mut db = RevelDB::new(Vec::new()).unwrap();
    db.put(&KEY1, &VAL1).unwrap();
    assert_eq!(Some(VAL1.as_slice()), db.get(&KEY1));
    db.put(&KEY1, &VAL2).unwrap();
    assert_eq!(Some(VAL2.as_slice()), db.get(&KEY1));
}

#[test]
fn test_recovery() {
    let log;
    {
        let mut db = RevelDB::new(Vec::new()).unwrap();
        db.put(&KEY1, &VAL1).unwrap();
        db.put(&KEY2, &VAL2).unwrap();
        db.put(&KEY1, &VAL3).unwrap();
        log = db.log().to_vec();
    }
    let db = RevelDB::new(log).unwrap();
    assert_eq!(VAL3, db.get(&KEY1).unwrap());
    assert_eq!(VAL2, db.get(&KEY2).unwrap());
}

#[test]
fn a_key_that_was_not_written_is_missing() {
    let mut db = RevelDB::new(Vec::new()).unwrap();
    assert_eq!(db.get(&KEY1), None);
    assert_eq!(db.get(&[]), None);
    db.put(&KEY1, &VAL1).unwrap();
    assert_eq!(db.get(&KEY3), None);
    assert_eq!(db.get(&KEY1[..2]), None);
    let db = RevelDB::new(db.log().to_vec()).unwrap();
    assert_eq!(db.get(&KEY3), None);
}

#[test]
fn an_engine_on_an_empty_log_has_an_empty_log() {
    let db = RevelDB::new(Vec::new()).unwrap();
    assert_eq!(db.log().len(), 0);
}

#[test]
fn put_appends_one_record_to_the_log() {
    let mut db = RevelDB::new(Vec::new()).unwrap();
    db.put(&KEY1, &VAL1).unwrap();
    assert_eq!(
        db.log(),
        &[132, 93, 222, 233, 13, 0, 1, 3, 65, 66, 67, 8, 1, 2, 3, 4, 5, 5, 5, 9]
    );
    db.put(&[1, 2, 3], &[9, 10]).unwrap();
    assert_eq!(&db.log()[20..], &[99, 207, 139, 147, 7, 0, 1, 3, 1, 2, 3, 2, 9, 10]);
}

#[test]
fn the_last_write_of_a_key_wins_after_reopening() {
    let mut db = RevelDB::new(Vec::new()).unwrap();
    db.put(&KEY3, &VAL1).unwrap();
    db.put(&KEY3, &VAL2).unwrap();
    let db = RevelDB::new(db.log().to_vec()).unwrap();
    assert_eq!(db.get(&KEY3), Some(VAL2.as_slice()));
}

#[test]
fn reopening_twice_gives_the_same_table() {
    let mut db = RevelDB::new(Vec::new()).unwrap();
    let keys: Vec<Vec<u8>> = (0..50u8).map(|i| vec![i % 20, i / 20]).collect();
    for (i, key) in keys.iter().enumerate() {
        db.put(key, &[i as u8; 3]).unwrap();
    }
    let once = RevelDB::new(db.log().to_vec()).unwrap();
    let twice = RevelDB::new(once.log().to_vec()).unwrap();
    assert_eq!(once.log(), db.log());
    assert_eq!(twice.log(), db.log());
    for key in &keys {
        assert!(db.get(key).is_some());
        assert_eq!(once.get(key), db.get(key));
        assert_eq!(twice.get(key), db.get(key));
    }
}

#[test]
fn put_refuses_a_long_key_and_changes_nothing() {
    let mut db = RevelDB::new(Vec::new()).unwrap();
    db.put(&KEY1, &VAL1).unwrap();
    let before = db.log().to_vec();
    assert_eq!(db.put(&[7u8; 256], &VAL1), Err(LogError::ValueTooLarge));
    assert_eq!(db.put(&KEY1, &[7u8; 256]), Err(LogError::ValueTooLarge));
    assert_eq!(db.log(), before.as_slice());
    assert_eq!(db.get(&[7u8; 256]), None);
    assert_eq!(db.get(&KEY1), Some(VAL1.as_slice()));
}

#[test]
fn put_takes_255_bytes_each() {
    let mut db = RevelDB::new(Vec::new()).unwrap();
    assert_eq!(db.put(&[7u8; 255], &[8u8; 255]), Ok(()));
    assert_eq!(db.log().len(), 7 + 512);
    let db = RevelDB::new(db.log().to_vec()).unwrap();
    assert_eq!(db.get(&[7u8; 255]), Some(&[8u8; 255][..]));
}

#[test]
fn writes_over_many_blocks_come_back() {
    let mut db = RevelDB::new(Vec::new()).unwrap();
    let mut n: u32 = 0;
    while db.log().len() < 5 * LOG_BLOCK_SIZE {
        let key = n.to_le_bytes();
        let value = vec![(n % 256) as u8; (n % 250) as usize];
        db.put(&key, &value).unwrap();
        n += 1;
    }
    let reopened = RevelDB::new(db.log().to_vec()).unwrap();
    for i in 0..n {
        let value = vec![(i % 256) as u8; (i % 250) as usize];
        assert_eq!(reopened.get(&i.to_le_bytes()), Some(value.as_slice()));
    }
    assert_eq!(reopened.get(&n.to_le_bytes()), None);
}

#[test]
fn writes_at_every_place_in_a_block_come_back() {
    for left in 0..40usize {
        let mut filler = vec![1u8, 7, 1, 70];
        filler.resize(LOG_BLOCK_SIZE - 7 - left, 0);
        let mut log = reveldb::LogFile::new(Vec::new());
        log.write(&filler);
        let mut db = RevelDB::new(log.as_bytes().to_vec()).unwrap();
        db.put(&KEY1, &VAL1).unwrap();
        db.put(&KEY2, &VAL2).unwrap();
        db.put(&KEY1, &VAL3).unwrap();
        let db = RevelDB::new(db.log().to_vec()).unwrap();
        assert_eq!(db.get(&[7]), Some(&[70u8][..]));
        assert_eq!(db.get(&KEY1), Some(VAL3.as_slice()));
        assert_eq!(db.get(&KEY2), Some(VAL2.as_slice()));
    }
}

#[test]
fn a_cut_log_does_not_open() {
    let mut db = RevelDB::new(Vec::new()).unwrap();
    db.put(&KEY1, &VAL1).unwrap();
    db.put(&KEY2, &VAL2).unwrap();
    let log = db.log();
    for cut in [1, 6, 7, 19, 21, 27, log.len() - 1] {
        assert_eq!(RevelDB::new(log[..cut].to_vec()).err(), Some(LogError::TruncatedRecord));
    }
    assert!(RevelDB::new(log[..20].to_vec()).is_ok());
}

#[test]
fn a_damaged_log_does_not_open() {
    let mut db = RevelDB::new(Vec::new()).unwrap();
    db.put(&KEY1, &VAL1).unwrap();
    let mut log = db.log().to_vec();
    log[10] ^= 4;
    assert_eq!(RevelDB::new(log).err(), Some(LogError::ChecksumMismatch));
}

#[test]
fn a_log_with_a_malformed_entry_does_not_open() {
    let mut log = reveldb::LogFile::new(Vec::new());
    log.write(&[2, 1]);
    assert_eq!(RevelDB::new(log.as_bytes().to_vec()).err(), Some(LogError::MalformedEntry));
}

#[test]
fn a_log_with_an_unknown_record_type_does_not_open() {
    let mut db = RevelDB::new(Vec::new()).unwrap();
    db.put(&KEY1, &VAL1).unwrap();
    let mut log = db.log().to_vec();
    log[6] = 9;
    assert_eq!(RevelDB::new(log).err(), Some(LogError::UnknownRecordType));
}
