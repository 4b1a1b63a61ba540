use databuf::{
    read_variant, try_collect, write_variant, Cursor, DataType, ErrorKind, Record, U15, U30,
};

#[test]
fn scalar_test_scaler_type() {
    for word in [0x_A5C11u32, 0x_C0DE, 0x_DEC0DE, 0x_ADDED, 0x_AB0DE, 0x_CAFE] {
        assert_eq!(word, u32::decode(&word.encode().unwrap()).unwrap());
    }
    for word in [
        0x_DEAD_BEEFu64,
        0x_Faded_Face,
        0x_BAD_F00D,
        0x_C01D_C0FFEE,
        0x_C0CA_C01A,
    ] {
        assert_eq!(word, u64::decode(&word.encode().unwrap()).unwrap());
    }
}

#[test]
fn scalars_are_little_endian() {
    assert_eq!(0x0102u16.encode().unwrap(), vec![2, 1]);
    assert_eq!(0x01020304u32.encode().unwrap(), vec![4, 3, 2, 1]);
    assert_eq!((-2i16).encode().unwrap(), vec![0xfe, 0xff]);
    assert_eq!((-1i8).encode().unwrap(), vec![0xff]);
    let seven = 7usize.encode().unwrap();
    assert_eq!(seven.len(), std::mem::size_of::<usize>());
    assert_eq!(seven[0], 7);
    assert!(seven[1..].iter().all(|b| *b == 0));
    assert_eq!(u128::MAX.encode().unwrap(), vec![0xff; 16]);
}

#[test]
fn scalars_round_trip_at_extremes() {
    assert_eq!(i16::decode(&i16::MIN.encode().unwrap()), Ok(i16::MIN));
    assert_eq!(i32::decode(&i32::MIN.encode().unwrap()), Ok(i32::MIN));
    assert_eq!(i64::decode(&i64::MAX.encode().unwrap()), Ok(i64::MAX));
    assert_eq!(i128::decode(&i128::MIN.encode().unwrap()), Ok(i128::MIN));
    assert_eq!(u8::decode(&[200]), Ok(200));
    assert_eq!(i8::decode(&[0x80]), Ok(-128));
    assert_eq!(usize::decode(&usize::MAX.encode().unwrap()), Ok(usize::MAX));
}

#[test]
fn bool_accepts_any_nonzero_byte() {
    assert_eq!(true.encode().unwrap(), vec![1]);
    assert_eq!(false.encode().unwrap(), vec![0]);
    assert_eq!(bool::decode(&[0]), Ok(false));
    assert_eq!(bool::decode(&[1]), Ok(true));
    assert_eq!(bool::decode(&[42]), Ok(true));
}

#[test]
fn char_is_its_code_point() {
    assert_eq!('A'.encode().unwrap(), vec![65, 0, 0, 0]);
    assert_eq!(char::decode(&'\u{1F600}'.encode().unwrap()), Ok('\u{1F600}'));
    assert_eq!(char::decode(&[0x00, 0xd8, 0, 0]), Err(ErrorKind::InvalidChar));
    assert_eq!(char::decode(&[0x00, 0x00, 0x11, 0]), Err(ErrorKind::InvalidChar));
}

#[test]
fn short_buffers_fail_with_insufficient_bytes() {
    assert_eq!(u8::decode(&[]), Err(ErrorKind::InsufficientBytes));
    assert_eq!(u16::decode(&[1]), Err(ErrorKind::InsufficientBytes));
    assert_eq!(u32::decode(&[1, 2, 3]), Err(ErrorKind::InsufficientBytes));
    assert_eq!(u64::decode(&[0; 7]), Err(ErrorKind::InsufficientBytes));
    assert_eq!(i128::decode(&[0; 15]), Err(ErrorKind::InsufficientBytes));
    assert_eq!(char::decode(&[65, 0]), Err(ErrorKind::InsufficientBytes));
    assert_eq!(
        Record::<u8, Vec<u8>>::decode(&[3, 1, 2]).unwrap_err(),
        ErrorKind::InsufficientBytes
    );
    assert_eq!(
        Record::<u16, String>::decode(&[5, 0, b'a']).unwrap_err(),
        ErrorKind::InsufficientBytes
    );
    assert_eq!(Vec::<u16>::decode(&[2, 1, 0, 2]).unwrap_err(), ErrorKind::InsufficientBytes);
}

#[test]
fn record_of_str_has_one_length_byte() {
    let record: Record<u8, String> = Record::new(String::from("HelloWorld"));
    assert_eq!(record.data.len(), 10);
    let bytes = record.encode().unwrap();
    assert_eq!(bytes.len(), 11);
    assert_eq!(bytes[0], 10);
    assert_eq!(&bytes[1..], b"HelloWorld");
    let back = Record::<u8, String>::decode(&bytes).unwrap();
    assert_eq!(back.data, "HelloWorld");
}

#[test]
fn record_length_type_decides_prefix() {
    let data = vec![7u8, 8, 9];
    assert_eq!(Record::<u8, Vec<u8>>::new(data.clone()).encode().unwrap(), vec![3, 7, 8, 9]);
    assert_eq!(
        Record::<u16, Vec<u8>>::new(data.clone()).encode().unwrap(),
        vec![3, 0, 7, 8, 9]
    );
    assert_eq!(
        Record::<u32, Vec<u8>>::new(data.clone()).encode().unwrap(),
        vec![3, 0, 0, 0, 7, 8, 9]
    );
    assert_eq!(
        Record::<u64, Vec<u8>>::new(data).encode().unwrap(),
        vec![3, 0, 0, 0, 0, 0, 0, 0, 7, 8, 9]
    );
}

#[test]
fn record_of_sequence_round_trips() {
    let record: Record<u16, Vec<u32>> = Record::new(vec![1, 0x01020304]);
    let bytes = record.encode().unwrap();
    assert_eq!(bytes, vec![2, 0, 1, 0, 0, 0, 4, 3, 2, 1]);
    let back = Record::<u16, Vec<u32>>::decode(&bytes).unwrap();
    assert_eq!(back.data, vec![1, 0x01020304]);
}

#[test]
fn record_too_long_for_its_length_type() {
    let record: Record<u8, Vec<u8>> = Record::new(vec![0; 256]);
    assert_eq!(record.encode(), Err(ErrorKind::InvalidInput));
    let record: Record<u8, Vec<u8>> = Record::new(vec![0; 255]);
    assert_eq!(record.encode().unwrap().len(), 256);
}

#[test]
fn invalid_utf8_is_rejected() {
    assert_eq!(
        Record::<u8, String>::decode(&[2, 0xc3, 0x28]).unwrap_err(),
        ErrorKind::InvalidUtf8
    );
    assert_eq!(String::decode(&[1, 0xff]), Err(ErrorKind::InvalidUtf8));
    let mut c = Cursor::new(&[1u8, 0xff, 9][..]);
    assert_eq!(String::deserialize(&mut c), Err(ErrorKind::InvalidUtf8));
    assert_eq!(c.offset, 2);
}

#[test]
fn default_sequence_uses_varint_length() {
    let v: Vec<u16> = vec![1, 2];
    assert_eq!(v.encode().unwrap(), vec![2, 1, 0, 2, 0]);
    assert_eq!(Vec::<u16>::decode(&[2, 1, 0, 2, 0]), Ok(vec![1, 2]));
    let long: Vec<u8> = vec![5; 200];
    let bytes = long.encode().unwrap();
    assert_eq!(&bytes[..2], &[0x40, 200]);
    assert_eq!(Vec::<u8>::decode(&bytes), Ok(long));
    assert_eq!(String::from("héllo").encode().unwrap(), b"\x06h\xc3\xa9llo".to_vec());
    assert_eq!(String::decode(b"\x06h\xc3\xa9llo"), Ok(String::from("héllo")));
    let nested: Vec<String> = vec![String::from("a"), String::new()];
    assert_eq!(nested.encode().unwrap(), vec![2, 1, b'a', 0]);
    assert_eq!(Vec::<String>::decode(&[2, 1, b'a', 0]), Ok(nested));
}

#[test]
fn box_is_transparent() {
    let b: Box<u16> = Box::new(0x0102);
    assert_eq!(b.encode().unwrap(), vec![2, 1]);
    assert_eq!(Box::<u16>::decode(&[2, 1]), Ok(Box::new(0x0102)));
}

#[test]
fn cursor_write_slice_stays_within_capacity() {
    let mut view = Cursor::new(vec![0u8; 3]);
    assert_eq!(view.write_slice(&[4, 2]), Ok(()));
    assert_eq!(view.write_slice(&[1, 2, 3]), Err(ErrorKind::InsufficientBytes));
    assert_eq!(view.data, vec![4, 2, 0]);
    assert_eq!(view.offset, 2);
}

#[test]
fn cursor_read_slice_checks_bounds() {
    let data = [1u8, 2, 3];
    let mut view = Cursor::new(&data[..]);
    assert_eq!(view.read_slice(2), Ok(&[1u8, 2][..]));
    assert_eq!(view.read_slice(3), Err(ErrorKind::InsufficientBytes));
    assert_eq!(view.offset, 2);
    assert_eq!(view.remaining_slice(), &[3u8][..]);
    view.offset = 42;
    assert!(view.remaining_slice().is_empty());
}

#[test]
fn try_collect_stops_at_first_failure() {
    let data = [1u8, 0, 2, 0, 3];
    let mut c = Cursor::new(&data[..]);
    let items: Vec<u16> = try_collect(&mut c, 2).unwrap();
    assert_eq!(items, vec![1, 2]);
    let mut c = Cursor::new(&data[..]);
    assert_eq!(try_collect::<u16>(&mut c, 3), Err(ErrorKind::InsufficientBytes));
}

#[test]
fn structure_is_its_fields_in_order() {
    // a structure { foo: u8, bar: [u8; 2] }
    let value: (u8, [u8; 2]) = (1, [2, 3]);
    let bytes = value.encode().unwrap();
    assert_eq!(bytes, vec![1, 2, 3]);
    assert_eq!(<(u8, [u8; 2])>::decode(&bytes), Ok((1, [2, 3])));
    assert_eq!(<(u8, [u8; 2])>::decode(&bytes[..2]), Err(ErrorKind::InsufficientBytes));
    let nested: (u16, (bool, [char; 1])) = (0x0102, (true, ['A']));
    let bytes = nested.encode().unwrap();
    assert_eq!(bytes, vec![2, 1, 1, 65, 0, 0, 0]);
    assert_eq!(<(u16, (bool, [char; 1]))>::decode(&bytes), Ok(nested));
}

#[test]
fn failed_encode_leaves_buffer_alone() {
    let mut out = vec![9u8, 9];
    let too_long: Record<u8, Vec<u8>> = Record::new(vec![0; 300]);
    assert_eq!(too_long.serialize(&mut out), Err(ErrorKind::InvalidInput));
    assert_eq!(out, vec![9, 9]);
    let items = vec![U15(1), U15(40000)];
    assert_eq!(items.serialize(&mut out), Err(ErrorKind::InvalidInput));
    assert_eq!(out, vec![9, 9]);
    let pair = (7u8, U15(40000));
    assert_eq!(pair.serialize(&mut out), Err(ErrorKind::InvalidInput));
    assert_eq!(out, vec![9, 9]);
}

#[test]
fn failed_decode_keeps_cursor() {
    let empty: [u8; 0] = [];
    let mut c = Cursor::new(&empty[..]);
    assert_eq!(u8::deserialize(&mut c), Err(ErrorKind::InsufficientBytes));
    assert_eq!(c.offset, 0);
    let data = [2u8, 1, 0, 2];
    let mut c = Cursor::new(&data[..]);
    assert_eq!(Vec::<u16>::deserialize(&mut c), Err(ErrorKind::InsufficientBytes));
    assert_eq!(c.offset, 0);
    let bad_char = [0x00u8, 0xd8, 0, 0];
    let mut c = Cursor::new(&bad_char[..]);
    assert_eq!(char::deserialize(&mut c), Err(ErrorKind::InvalidChar));
    assert_eq!(c.offset, 0);
    let short_str = [5u8, b'a'];
    let mut c = Cursor::new(&short_str[..]);
    assert_eq!(Record::<u8, String>::deserialize(&mut c).err(), Some(ErrorKind::InsufficientBytes));
    assert_eq!(c.offset, 0);
    let bad_str = [2u8, 0, 0xc3, 0x28, 7];
    let mut c = Cursor::new(&bad_str[..]);
    assert_eq!(Record::<u16, String>::deserialize(&mut c).err(), Some(ErrorKind::InvalidUtf8));
    assert_eq!(c.offset, 4);
}

#[test]
fn isize_takes_host_width() {
    let bytes = (-2isize).encode().unwrap();
    assert_eq!(bytes.len(), std::mem::size_of::<isize>());
    assert!(bytes.iter().skip(1).all(|b| *b == 0xff));
    assert_eq!(bytes[0], 0xfe);
    assert_eq!(isize::decode(&bytes), Ok(-2));
    assert_eq!(isize::decode(&isize::MIN.encode().unwrap()), Ok(isize::MIN));
    assert_eq!(isize::decode(&isize::MAX.encode().unwrap()), Ok(isize::MAX));
    assert_eq!(isize::decode(&[1]), Err(ErrorKind::InsufficientBytes));
}

#[test]
fn tagged_union_writes_tag_then_fields() {
    // variant 1 of three, with named fields `a: u16` and `b: bool`
    let mut bytes = Vec::new();
    write_variant(&mut bytes, 1).unwrap();
    0x0102u16.serialize(&mut bytes).unwrap();
    true.serialize(&mut bytes).unwrap();
    assert_eq!(bytes, vec![1, 2, 1, 1]);

    let mut c = Cursor::new(&bytes[..]);
    assert_eq!(read_variant(&mut c, 3), Ok(1));
    assert_eq!(u16::deserialize(&mut c), Ok(0x0102));
    assert_eq!(bool::deserialize(&mut c), Ok(true));

    let mut c = Cursor::new(&[3u8][..]);
    assert_eq!(read_variant(&mut c, 3), Err(ErrorKind::InvalidInput));

    let mut wide = Vec::new();
    write_variant(&mut wide, 300).unwrap();
    assert_eq!(wide, vec![0x81, 0x2c]);
    assert_eq!(write_variant(&mut wide, 0x8000), Err(ErrorKind::InvalidInput));
    assert_eq!(U30(5).encode().unwrap(), vec![5]);
}
