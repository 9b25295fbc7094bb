use reveldb::BlockHandle;

#[test]
fn test_serialize() {
    let bh = BlockHandle {
        offset: 6,
        size: 150,
    };
    assert_eq!(vec![0b00000110u8, 0b10010110, 0b00000001], bh.serialize());
}

#[test]
fn serialize_of_zero_and_of_the_largest() {
    let bh = BlockHandle { offset: 0, size: u64::MAX as usize };
    assert_eq!(
        bh.serialize(),
        vec![0, 0xff, 0xff, 0xff, 0xff, 0xff, 0xff, 0xff, 0xff, 0xff, 0x01]
    );
}

#[test]
fn serialize_steps_at_powers_of_128() {
    assert_eq!(BlockHandle { offset: 127, size: 128 }.serialize(), vec![0x7f, 0x80, 0x01]);
    assert_eq!(
        BlockHandle { offset: 16383, size: 16384 }.serialize(),
        vec![0xff, 0x7f, 0x80, 0x80, 0x01]
    );
}

#[test]
fn new_undoes_serialize() {
    let bh = BlockHandle { offset: 123456789, size: 300 };
    let bytes = bh.serialize();
    let mut reader = bytes.as_slice();
    let back = BlockHandle::new(&mut reader);
    assert_eq!(back.offset, 123456789);
    assert_eq!(back.size, 300);
    assert_eq!(reader.len(), 0);
}
