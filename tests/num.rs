use databuf::{DataType, ErrorKind, Leb, U15, U22, U29, U30};

fn to_bytes<T: DataType + PartialEq + std::fmt::Debug>(num: T) -> Vec<u8> {
    let bytes = num.encode().unwrap();
    let new_num = T::decode(&bytes).unwrap();
    assert_eq!(num, new_num);
    bytes
}

fn check_overflow<T: DataType + std::fmt::Debug>(num: u128) {
    let bytes = Leb(num + 1).encode().unwrap();
    let err = T::decode(&bytes).unwrap_err();
    assert_eq!(err, ErrorKind::IntegerOverflow);
}

#[test]
fn test_beb128() {
    assert_eq!(to_bytes(Leb(u16::MIN)), vec![0]);
    assert_eq!(to_bytes(Leb(u16::MAX)), vec![255, 255, 3]);
    assert_eq!(to_bytes(Leb(u32::MAX)), vec![255, 255, 255, 255, 15]);
    to_bytes(Leb(u64::MAX));
    to_bytes(Leb(u128::MAX));
    to_bytes(Leb(usize::MAX));

    let mut bytes = to_bytes(Leb(i16::MAX));
    bytes[0] += 1;
    assert_eq!(to_bytes(Leb(i16::MIN)), bytes);
    let mut bytes = to_bytes(Leb(i32::MAX));
    bytes[0] += 1;
    assert_eq!(to_bytes(Leb(i32::MIN)), bytes);
    let mut bytes = to_bytes(Leb(i64::MAX));
    bytes[0] += 1;
    assert_eq!(to_bytes(Leb(i64::MIN)), bytes);
    let mut bytes = to_bytes(Leb(i128::MAX));
    bytes[0] += 1;
    assert_eq!(to_bytes(Leb(i128::MIN)), bytes);
    let mut bytes = to_bytes(Leb(isize::MAX));
    bytes[0] += 1;
    assert_eq!(to_bytes(Leb(isize::MIN)), bytes);

    check_overflow::<Leb<u16>>(u16::MAX as u128);
    check_overflow::<Leb<u32>>(u32::MAX as u128);
    check_overflow::<Leb<u64>>(u64::MAX as u128);

    let mut bytes = vec![255; 18];
    bytes.push(0b111_u8);
    let err = Leb::<u128>::decode(&bytes).unwrap_err();
    assert_eq!(err, ErrorKind::IntegerOverflow);
}

fn assert_varint<T: DataType + PartialEq + std::fmt::Debug>(num: T, expect: &[u8]) {
    let bytes = num.encode().unwrap();
    assert_eq!(bytes, expect);
    assert_eq!(num, T::decode(&bytes).unwrap());
}

#[test]
fn test_be_u15() {
    assert_varint(U15(0), &[0]);
    assert_varint(U15(127), &[127]);

    assert_varint(U15(128), &[128, 128]);
    assert_varint(U15(32767), &[255, 255]);
}

#[test]
fn test_be_u22() {
    assert_varint(U22(0), &[0]);
    assert_varint(U22(127), &[127]);

    assert_varint(U22(128), &[128, 128]);
    assert_varint(U22(16383), &[191, 255]);

    assert_varint(U22(16384), &[192, 64, 0]);
    assert_varint(U22(4194303), &[255, 255, 255]);
}

#[test]
fn test_be_u29() {
    assert_varint(U29(0), &[0]);
    assert_varint(U29(127), &[127]);

    assert_varint(U29(128), &[128, 128]);
    assert_varint(U29(16383), &[191, 255]);

    assert_varint(U29(16384), &[192, 64, 0]);
    assert_varint(U29(2097151), &[223, 255, 255]);

    assert_varint(U29(2097152), &[224, 32, 0, 0]);
    assert_varint(U29(536870911), &[255, 255, 255, 255]);
}

#[test]
fn test_be_u30() {
    assert_varint(U30(0), &[0]);
    assert_varint(U30(63), &[63]);

    assert_varint(U30(64), &[64, 64]);
    assert_varint(U30(16383), &[127, 255]);

    assert_varint(U30(16384), &[128, 64, 0]);
    assert_varint(U30(4194303), &[191, 255, 255]);

    assert_varint(U30(4194304), &[192, 64, 0, 0]);
    assert_varint(U30(1073741823), &[255, 255, 255, 255]);
}

#[test]
fn num_test_scaler_type() {
    for word in [0x_A5C11u32, 0x_C0DE, 0x_DEC0DE, 0x_ADDED, 0x_AB0DE, 0x_CAFE] {
        let bytes = word.encode().unwrap();
        assert_eq!(word, u32::decode(&bytes).unwrap());
    }
    for word in [
        0x_DEAD_BEEFu64,
        0x_Faded_Face,
        0x_BAD_F00D,
        0x_C01D_C0FFEE,
        0x_C0CA_C01A,
    ] {
        let bytes = word.encode().unwrap();
        assert_eq!(word, u64::decode(&bytes).unwrap());
    }
}

#[test]
fn varint_new_rejects_out_of_range() {
    assert_eq!(U15::new(32767), Some(U15(32767)));
    assert_eq!(U15::new(32768), None);
    assert_eq!(U30::new(1 << 30), None);
    assert_eq!(U30(1 << 30).encode(), Err(ErrorKind::InvalidInput));
}

#[test]
fn varint_truncated_input() {
    assert_eq!(U15::decode(&[]), Err(ErrorKind::InsufficientBytes));
    assert_eq!(U15::decode(&[128]), Err(ErrorKind::InsufficientBytes));
    assert_eq!(U29::decode(&[224, 32, 0]), Err(ErrorKind::InsufficientBytes));
    assert_eq!(Leb::<u32>::decode(&[255, 255]), Err(ErrorKind::InsufficientBytes));
}

#[test]
fn leb_zigzag_small_values() {
    assert_eq!(Leb(0i32).encode().unwrap(), vec![0]);
    assert_eq!(Leb(-1i32).encode().unwrap(), vec![1]);
    assert_eq!(Leb(1i32).encode().unwrap(), vec![2]);
    assert_eq!(Leb(-64i32).encode().unwrap(), vec![127]);
    assert_eq!(Leb(64i32).encode().unwrap(), vec![128, 1]);
    assert_eq!(Leb::<i32>::decode(&[3]).unwrap(), Leb(-2));
}

#[test]
fn leb_zero_padding_is_not_overflow() {
    assert_eq!(Leb::<u16>::decode(&[128, 128, 128, 0]).unwrap(), Leb(0));
    assert_eq!(Leb::<u16>::decode(&[128, 128, 4]), Err(ErrorKind::IntegerOverflow));
    assert_eq!(Leb::<u16>::decode(&[255, 255, 3]).unwrap(), Leb(u16::MAX));
}
