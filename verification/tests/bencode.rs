use bt_rust_dht::bencode::{
    find_entry, number_at, read_bytes, read_int, scan_digits, skip_int, skip_value, span_equals,
    write_bytes, write_digits, write_int, MAX_DEPTH,
};

#[test]
fn writing_numbers_and_byte_strings() {
    let mut out = Vec::new();
    write_digits(&mut out, 0);
    write_digits(&mut out, 7);
    write_digits(&mut out, 10);
    write_digits(&mut out, 6881);
    write_digits(&mut out, u64::MAX);
    assert_eq!(out, b"0710688118446744073709551615".to_vec());
    let mut out = Vec::new();
    write_int(&mut out, 0);
    write_int(&mut out, 201);
    assert_eq!(out, b"i0ei201e".to_vec());
    let mut out = Vec::new();
    write_bytes(&mut out, b"");
    write_bytes(&mut out, b"spam");
    write_bytes(&mut out, &[b'x'; 12]);
    assert_eq!(out, b"0:4:spam12:xxxxxxxxxxxx".to_vec());
}

#[test]
fn reading_numbers_and_byte_strings() {
    assert_eq!(scan_digits(b"123:abc", 0), 3);
    assert_eq!(scan_digits(b"123:abc", 3), 3);
    assert_eq!(scan_digits(b"123", 1), 3);
    assert_eq!(number_at(b"x0123y", 1, 5), Some(123));
    assert_eq!(number_at(b"18446744073709551615", 0, 20), Some(u64::MAX));
    assert_eq!(number_at(b"18446744073709551616", 0, 20), None);
    assert_eq!(number_at(b"", 0, 0), Some(0));

    assert_eq!(read_bytes(b"4:spam", 0), Some((2, 6)));
    assert_eq!(read_bytes(b"xx4:spamyy", 2), Some((4, 8)));
    assert_eq!(read_bytes(b"0:", 0), Some((2, 2)));
    assert_eq!(read_bytes(b"4:spa", 0), None);
    assert_eq!(read_bytes(b"04:spam", 0), None);
    assert_eq!(read_bytes(b"4spam", 0), None);
    assert_eq!(read_bytes(b":spam", 0), None);
    assert_eq!(read_bytes(b"99999999999999999999999:a", 0), None);
    assert_eq!(read_bytes(b"4:spam", 6), None);

    assert_eq!(read_int(b"i6881e", 0, 65535), Some((6881, 6)));
    assert_eq!(read_int(b"i65535e", 0, 65535), Some((65535, 7)));
    assert_eq!(read_int(b"i65536e", 0, 65535), None);
    assert_eq!(read_int(b"i0e", 0, 0), Some((0, 3)));
    assert_eq!(read_int(b"i-1e", 0, 65535), None);
    assert_eq!(read_int(b"i01e", 0, 65535), None);
    assert_eq!(read_int(b"ie", 0, 65535), None);
    assert_eq!(read_int(b"i12", 0, 65535), None);
    assert_eq!(read_int(b"12e", 0, 65535), None);

    assert_eq!(skip_int(b"i-12e", 0), Some(5));
    assert_eq!(skip_int(b"i-0e", 0), None);
    assert_eq!(skip_int(b"i-e", 0), None);
    assert_eq!(skip_int(b"i99999999999999999999999999e", 0), Some(28));
}

#[test]
fn passing_over_values() {
    assert_eq!(skip_value(b"i1e", 0, MAX_DEPTH), Some(3));
    assert_eq!(skip_value(b"3:abc", 0, 0), Some(5));
    assert_eq!(skip_value(b"le", 0, MAX_DEPTH), Some(2));
    assert_eq!(skip_value(b"le", 0, 0), None);
    assert_eq!(skip_value(b"de", 0, 1), Some(2));
    assert_eq!(skip_value(b"li1e3:abclleee", 0, MAX_DEPTH), Some(14));
    assert_eq!(skip_value(b"li1e3:abclleee", 0, 2), None);
    assert_eq!(skip_value(b"li1e3:abclleee", 0, 3), Some(14));
    assert_eq!(skip_value(b"d1:ai1e1:bd1:cleee", 0, MAX_DEPTH), Some(18));
    assert_eq!(skip_value(b"d1:ai1e1:bd1:cleee", 10, MAX_DEPTH), Some(17));
    // A key has to be a byte string, and every key has a value.
    assert_eq!(skip_value(b"di1ei2ee", 0, MAX_DEPTH), None);
    assert_eq!(skip_value(b"d1:ae", 0, MAX_DEPTH), None);
    assert_eq!(skip_value(b"l", 0, MAX_DEPTH), None);
    assert_eq!(skip_value(b"x", 0, MAX_DEPTH), None);
    assert_eq!(skip_value(b"e", 0, MAX_DEPTH), None);
    assert_eq!(skip_value(b"", 0, MAX_DEPTH), None);
}

#[test]
fn finding_entries() {
    let bytes = b"d1:ai1e2:bbd1:clee1:a3:xyze";
    assert_eq!(skip_value(bytes, 0, MAX_DEPTH), Some(bytes.len()));
    // The first entry with the key counts.
    assert_eq!(find_entry(bytes, 1, b"a", MAX_DEPTH - 1), Some(4));
    assert_eq!(find_entry(bytes, 1, b"bb", MAX_DEPTH - 1), Some(11));
    assert_eq!(find_entry(bytes, 1, b"c", MAX_DEPTH - 1), None);
    assert_eq!(find_entry(bytes, 12, b"c", MAX_DEPTH - 2), Some(15));
    assert!(span_equals(bytes, 9, 11, b"bb"));
    assert!(!span_equals(bytes, 9, 11, b"b"));
    assert!(!span_equals(bytes, 9, 11, b"bc"));
}
