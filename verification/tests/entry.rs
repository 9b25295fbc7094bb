use reveldb::{decode_entry, encode_entry, LogError};

#[test]
fn lib_test_put() {
    let v = encode_entry(&[1, 2, 3], &[9, 10]).unwrap();
    assert_eq!(&[3, 1, 2, 3, 2, 9, 10], v.as_slice());
}

#[test]
fn entry_of_empty_key_and_value() {
    assert_eq!(encode_entry(&[], &[]), Ok(vec![0, 0]));
    assert_eq!(decode_entry(&[0, 0]), Ok((vec![], vec![])));
}

#[test]
fn entry_takes_up_to_255_bytes_each() {
    let key = vec![1u8; 255];
    let value = vec![2u8; 255];
    let entry = encode_entry(&key, &value).unwrap();
    assert_eq!(entry.len(), 512);
    assert_eq!(entry[0], 255);
    assert_eq!(entry[256], 255);
    assert_eq!(decode_entry(&entry), Ok((key, value)));
}

#[test]
fn entry_refuses_long_key() {
    assert_eq!(encode_entry(&[0u8; 256], &[1]), Err(LogError::ValueTooLarge));
}

#[test]
fn entry_refuses_long_value() {
    assert_eq!(encode_entry(&[1], &[0u8; 256]), Err(LogError::ValueTooLarge));
}

#[test]
fn decode_entry_undoes_encode_entry() {
    let entry = encode_entry(&[65, 66, 67], &[1, 2, 3, 4, 5, 5, 5, 9]).unwrap();
    assert_eq!(entry, vec![3, 65, 66, 67, 8, 1, 2, 3, 4, 5, 5, 5, 9]);
    assert_eq!(decode_entry(&entry), Ok((vec![65, 66, 67], vec![1, 2, 3, 4, 5, 5, 5, 9])));
}

#[test]
fn decode_entry_rejects_what_is_too_short() {
    assert_eq!(decode_entry(&[]), Err(LogError::MalformedEntry));
    assert_eq!(decode_entry(&[0]), Err(LogError::MalformedEntry));
    assert_eq!(decode_entry(&[2, 7]), Err(LogError::MalformedEntry));
    assert_eq!(decode_entry(&[2, 7, 7]), Err(LogError::MalformedEntry));
    assert_eq!(decode_entry(&[2, 7, 7, 1]), Err(LogError::MalformedEntry));
    assert_eq!(decode_entry(&[2, 7, 7, 1, 9]), Ok((vec![7, 7], vec![9])));
}

#[test]
fn decode_entry_ignores_what_follows_the_value() {
    assert_eq!(decode_entry(&[1, 7, 1, 9, 4, 4, 4]), Ok((vec![7], vec![9])));
}
