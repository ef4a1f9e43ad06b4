use bt_rust_dht::id::{Id, ID_LEN};

#[test]
fn positive_no_leading_zeroes() {
    let zero_bits = Id::from([0u8; ID_LEN]);
    let one_bits = Id::from([255u8; ID_LEN]);

    let xor_hash = zero_bits ^ one_bits;

    assert_eq!(xor_hash.leading_zeros(), 0)
}

#[test]
fn positive_all_leading_zeroes() {
    let first_one_bits = Id::from([255u8; ID_LEN]);
    let second_one_bits = Id::from([255u8; ID_LEN]);

    let xor_hash = first_one_bits ^ second_one_bits;

    assert_eq!(xor_hash.leading_zeros() as usize, ID_LEN * 8);
}

#[test]
fn positive_one_leading_zero() {
    let zero_bits = Id::from([0u8; ID_LEN]);

    let mut bytes = [255u8; ID_LEN];
    bytes[0] = 127;
    let mostly_one_bits = Id::from(bytes);

    let xor_hash = zero_bits ^ mostly_one_bits;

    assert_eq!(xor_hash.leading_zeros(), 1);
}

#[test]
fn positive_one_trailing_zero() {
    let zero_bits = Id::from([0u8; ID_LEN]);

    let mut bytes = [255u8; ID_LEN];
    bytes[ID_LEN - 1] = 254;
    let mostly_zero_bits = Id::from(bytes);

    let xor_hash = zero_bits ^ mostly_zero_bits;

    assert_eq!(xor_hash.leading_zeros(), 0);
}

#[test]
fn xor_is_a_metric_on_examples() {
    let a = Id::from([0x5au8; ID_LEN]);
    let b = Id::from([0xc3u8; ID_LEN]);
    let c = Id::sha1(b"foo");
    assert_eq!(a ^ b, b ^ a);
    assert_eq!(a ^ a, Id::from([0u8; ID_LEN]));
    assert_eq!(a ^ c, (a ^ b) ^ (b ^ c));
}

#[test]
fn flip_bit_changes_one_bit() {
    let id = Id::from([1u8; ID_LEN]);
    for index in 0..160 {
        let flipped = id.flip_bit(index);
        assert_eq!((id ^ flipped).leading_zeros() as usize, index);
        assert_eq!(flipped.flip_bit(index), id);
    }
    let mut expected = [1u8; ID_LEN];
    expected[0] = 0x81;
    assert_eq!(id.flip_bit(0), Id::from(expected));
    let mut expected = [1u8; ID_LEN];
    expected[19] = 0;
    assert_eq!(id.flip_bit(159), Id::from(expected));
}

#[test]
fn sha1_of_known_input() {
    let id = Id::sha1(b"abc");
    let expected: [u8; 20] = [
        0xa9, 0x99, 0x3e, 0x36, 0x47, 0x06, 0x81, 0x6a, 0xba, 0x3e, 0x25, 0x71, 0x78, 0x50,
        0xc2, 0x6c, 0x9c, 0xd0, 0xd8, 0x9d,
    ];
    assert_eq!(id.to_bytes(), expected);
    assert_ne!(Id::sha1(b"abc"), Id::sha1(b"abd"));
}

#[test]
fn from_slice_wants_twenty_bytes() {
    assert!(Id::from_slice(&[7u8; 19]).is_err());
    assert!(Id::from_slice(&[7u8; 21]).is_err());
    assert_eq!(Id::from_slice(&[7u8; 20]), Ok(Id::from([7u8; 20])));
}

#[test]
fn order_is_by_bytes() {
    let mut low = [0u8; ID_LEN];
    low[19] = 255;
    let mut high = [0u8; ID_LEN];
    high[0] = 1;
    assert!(Id::from(low) < Id::from(high));
}
