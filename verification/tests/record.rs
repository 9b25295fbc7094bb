use reveldb::{LogError, Record, RecordType, LOG_RECORD_HEADER_SIZE};

#[test]
fn encode() {
    let r = Record::new(&[1, 4, 9, 16], RecordType::FULL);
    let encoded = r.encode();
    assert_eq!(encoded.len(), 11)
}

#[test]
fn encode_gives_checksum_length_tag_payload() {
    let r = Record::new(&[1, 4, 9, 16], RecordType::FULL);
    assert_eq!(r.encode(), vec![255, 217, 172, 56, 4, 0, 1, 1, 4, 9, 16]);
    assert_eq!(r.checksum(), 0x38acd9ff);
    assert_eq!(r.length(), 4);
    assert_eq!(r.record_type(), RecordType::FULL);
    assert_eq!(r.data(), &[1, 4, 9, 16]);
}

#[test]
fn checksum_is_crc32c_of_length_and_payload() {
    // CRC-32C over the bytes 7, 0 and then "3456789".
    let r = Record::new(b"3456789", RecordType::MIDDLE);
    assert_eq!(r.checksum(), 0x544aa8d3);
    assert!(r.verify_checksum());
}

#[test]
fn checksum_does_not_cover_the_type() {
    let full = Record::new(&[8, 8], RecordType::FULL);
    let last = Record::new(&[8, 8], RecordType::LAST);
    assert_eq!(full.checksum(), last.checksum());
}

#[test]
fn empty_payload_is_a_header_alone() {
    let r = Record::new(&[], RecordType::FIRST);
    assert_eq!(r.encode(), vec![210, 119, 97, 241, 0, 0, 2]);
    assert_eq!(r.encode().len(), LOG_RECORD_HEADER_SIZE);
}

#[test]
fn type_tags_are_one_to_four() {
    assert_eq!(RecordType::FULL.tag(), 1);
    assert_eq!(RecordType::FIRST.tag(), 2);
    assert_eq!(RecordType::MIDDLE.tag(), 3);
    assert_eq!(RecordType::LAST.tag(), 4);
    assert_eq!(RecordType::from_tag(1), Some(RecordType::FULL));
    assert_eq!(RecordType::from_tag(2), Some(RecordType::FIRST));
    assert_eq!(RecordType::from_tag(3), Some(RecordType::MIDDLE));
    assert_eq!(RecordType::from_tag(4), Some(RecordType::LAST));
    assert_eq!(RecordType::from_tag(0), None);
    assert_eq!(RecordType::from_tag(5), None);
}

#[test]
fn encode_to_file_appends_and_counts() {
    let r = Record::new(&[1, 4, 9, 16], RecordType::LAST);
    let mut sink = vec![7u8, 7];
    let n = r.encode_to_file(&mut sink);
    assert_eq!(n, 11);
    assert_eq!(sink, vec![7, 7, 255, 217, 172, 56, 4, 0, 4, 1, 4, 9, 16]);
}

fn round_trip(payload: &[u8], record_type: RecordType) {
    let encoded = Record::new(payload, record_type).encode();
    let decoded = Record::decode(&encoded).unwrap();
    assert_eq!(decoded.data(), payload);
    assert_eq!(decoded.record_type(), record_type);
    assert_eq!(decoded.length() as usize, payload.len());
    assert!(decoded.verify_checksum());
}

#[test]
fn decode_undoes_encode() {
    round_trip(&[], RecordType::FULL);
    round_trip(&[1, 4, 9, 16], RecordType::FULL);
    round_trip(&[0; 300], RecordType::FIRST);
    round_trip(&[255; 32761], RecordType::MIDDLE);
    round_trip(&[3; 65535], RecordType::LAST);
}

#[test]
fn decode_reads_one_record_and_leaves_the_rest() {
    let mut bytes = Record::new(&[5, 6], RecordType::FULL).encode();
    bytes.extend_from_slice(&[1, 2, 3]);
    let decoded = Record::decode(&bytes).unwrap();
    assert_eq!(decoded.data(), &[5, 6]);
}

#[test]
fn decode_rejects_short_header() {
    let encoded = Record::new(&[1, 4, 9, 16], RecordType::FULL).encode();
    for n in 0..LOG_RECORD_HEADER_SIZE {
        assert!(matches!(Record::decode(&encoded[..n]), Err(LogError::TruncatedRecord)));
    }
}

#[test]
fn decode_rejects_short_payload() {
    let encoded = Record::new(&[1, 4, 9, 16], RecordType::FULL).encode();
    for n in LOG_RECORD_HEADER_SIZE..encoded.len() {
        assert!(matches!(Record::decode(&encoded[..n]), Err(LogError::TruncatedRecord)));
    }
}

#[test]
fn decode_rejects_changed_payload() {
    let mut encoded = Record::new(&[1, 4, 9, 16], RecordType::FULL).encode();
    encoded[8] ^= 1;
    assert!(matches!(Record::decode(&encoded), Err(LogError::ChecksumMismatch)));
}

#[test]
fn decode_rejects_changed_checksum() {
    let mut encoded = Record::new(&[1, 4, 9, 16], RecordType::FULL).encode();
    encoded[0] ^= 0x80;
    assert!(matches!(Record::decode(&encoded), Err(LogError::ChecksumMismatch)));
}

#[test]
fn decode_rejects_unknown_type() {
    let mut encoded = Record::new(&[1, 4, 9, 16], RecordType::FULL).encode();
    encoded[6] = 0;
    assert!(matches!(Record::decode(&encoded), Err(LogError::UnknownRecordType)));
    encoded[6] = 5;
    assert!(matches!(Record::decode(&encoded), Err(LogError::UnknownRecordType)));
}

#[test]
fn parse_takes_the_checksum_as_stored() {
    let bytes = [1u8, 2, 3, 4, 2, 0, 3, 9, 10];
    let parsed = Record::parse(&bytes).unwrap();
    assert_eq!(parsed.checksum(), 0x04030201);
    assert_eq!(parsed.length(), 2);
    assert_eq!(parsed.record_type(), RecordType::MIDDLE);
    assert_eq!(parsed.data(), &[9, 10]);
    assert!(!parsed.verify_checksum());
    assert_eq!(parsed.encode(), bytes.to_vec());
}

#[test]
fn parse_reads_a_two_byte_length() {
    let payload = vec![9u8; 0x1234];
    let encoded = Record::new(&payload, RecordType::FULL).encode();
    assert_eq!(encoded[4], 0x34);
    assert_eq!(encoded[5], 0x12);
    assert_eq!(Record::parse(&encoded).unwrap().length(), 0x1234);
}

#[test]
fn with_checksum_takes_the_checksum_as_given() {
    let r = Record::with_checksum(0x04030201, &[9, 10], RecordType::MIDDLE);
    assert_eq!(r.checksum(), 0x04030201);
    assert_eq!(r.encode(), vec![1, 2, 3, 4, 2, 0, 3, 9, 10]);
    assert!(!r.verify_checksum());
    assert!(matches!(Record::decode(&r.encode()), Err(LogError::ChecksumMismatch)));
    let right = Record::with_checksum(0x38acd9ff, &[1, 4, 9, 16], RecordType::FULL);
    assert!(right.verify_checksum());
    assert!(Record::decode(&right.encode()).is_ok());
}
