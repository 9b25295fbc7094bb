use reveldb::{read_varint, BlockHandle};

#[test]
fn test_read_varint() {
    let mut eleven_msbs = [0b10000000u8; 11];
    assert_eq!(None, read_varint(&mut eleven_msbs.as_slice()));

    let mut one_byte = [0b00000110u8];
    assert_eq!(Some(6), read_varint(&mut one_byte.as_slice()));

    let mut one_byte_but_with_extras_in_slice = [0b00000110u8, 0b00000110u8];
    assert_eq!(
        Some(6),
        read_varint(&mut one_byte_but_with_extras_in_slice.as_slice())
    );

    let mut two_byte_150 = [0b10010110, 0b00000001];
    assert_eq!(Some(150), read_varint(&mut two_byte_150.as_slice()));
}

#[test]
fn read_varint_moves_the_reader_behind_the_number() {
    let bytes = [0x96u8, 0x01, 6, 7];
    let mut reader = bytes.as_slice();
    assert_eq!(read_varint(&mut reader), Some(150));
    assert_eq!(reader, &[6, 7]);
    assert_eq!(read_varint(&mut reader), Some(6));
    assert_eq!(reader, &[7]);
}

#[test]
fn read_varint_of_nothing_is_none() {
    let mut reader: &[u8] = &[];
    assert_eq!(read_varint(&mut reader), None);
    assert_eq!(reader.len(), 0);
}

#[test]
fn read_varint_that_runs_out_uses_up_the_bytes() {
    let bytes = [0x80u8, 0xff, 0x81];
    let mut reader = bytes.as_slice();
    assert_eq!(read_varint(&mut reader), None);
    assert_eq!(reader.len(), 0);
}

#[test]
fn read_varint_gives_up_after_ten_bytes() {
    let bytes = [0x80u8; 12];
    let mut reader = bytes.as_slice();
    assert_eq!(read_varint(&mut reader), None);
    assert_eq!(reader.len(), 2);
}

#[test]
fn read_varint_puts_seven_bits_per_byte_together() {
    let mut reader: &[u8] = &[0xff, 0x7f];
    assert_eq!(read_varint(&mut reader), Some(16383));
    let mut reader: &[u8] = &[0x80, 0x80, 0x01];
    assert_eq!(read_varint(&mut reader), Some(16384));
    let mut reader: &[u8] = &[0x80, 0x00];
    assert_eq!(read_varint(&mut reader), Some(0));
    assert_eq!(reader.len(), 0);
}

#[test]
fn read_varint_takes_a_tenth_byte_of_one() {
    let bytes = [0xffu8, 0xff, 0xff, 0xff, 0xff, 0xff, 0xff, 0xff, 0xff, 0x01, 9];
    let mut reader = bytes.as_slice();
    assert_eq!(read_varint(&mut reader), Some(u64::MAX as usize));
    assert_eq!(reader, &[9]);
}

#[test]
fn read_varint_refuses_a_tenth_byte_above_one() {
    let bytes = [0xffu8, 0xff, 0xff, 0xff, 0xff, 0xff, 0xff, 0xff, 0xff, 0x02, 9];
    let mut reader = bytes.as_slice();
    assert_eq!(read_varint(&mut reader), None);
    assert_eq!(reader, &[9]);
}

#[test]
fn block_handle_reads_offset_then_size() {
    let bytes = [6u8, 0x96, 0x01, 42];
    let mut reader = bytes.as_slice();
    let handle = BlockHandle::new(&mut reader);
    assert_eq!(handle.offset, 6);
    assert_eq!(handle.size, 150);
    assert_eq!(reader, &[42]);
}
