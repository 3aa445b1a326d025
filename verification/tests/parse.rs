use rust_text::parse::Parse;

fn rest_after<T: Parse + PartialEq + std::fmt::Debug>(
    bytes: &[u8],
    big_endian: bool,
    expected: T,
) -> usize {
    let mut cursor: &[u8] = bytes;
    let value = if big_endian { T::parse_be(&mut cursor) } else { T::parse_le(&mut cursor) };
    assert_eq!(value, Ok(expected));
    cursor.len()
}

fn fails_unmoved<T: Parse + PartialEq + std::fmt::Debug>(bytes: &[u8]) {
    let mut cursor: &[u8] = bytes;
    assert_eq!(T::parse_be(&mut cursor), Err(()));
    assert_eq!(cursor, bytes);
    assert_eq!(T::parse_le(&mut cursor), Err(()));
    assert_eq!(cursor, bytes);
}

#[test]
fn u8_reads_one_byte() {
    assert_eq!(rest_after::<u8>(&[0xAB, 1, 2], true, 0xAB), 2);
    assert_eq!(rest_after::<u8>(&[0xAB, 1, 2], false, 0xAB), 2);
}

#[test]
fn u16_reads_both_orders() {
    assert_eq!(rest_after::<u16>(&[0x12, 0x34, 9], true, 0x1234), 1);
    assert_eq!(rest_after::<u16>(&[0x12, 0x34, 9], false, 0x3412), 1);
}

#[test]
fn u32_reads_both_orders() {
    assert_eq!(rest_after::<u32>(&[0x5F, 0x0F, 0x3C, 0xF5], true, 0x5F0F3CF5), 0);
    assert_eq!(rest_after::<u32>(&[0x5F, 0x0F, 0x3C, 0xF5], false, 0xF53C0F5F), 0);
}

#[test]
fn u64_reads_both_orders() {
    let bytes = [0x01, 0x23, 0x45, 0x67, 0x89, 0xAB, 0xCD, 0xEF, 0xFF];
    assert_eq!(rest_after::<u64>(&bytes, true, 0x0123456789ABCDEF), 1);
    assert_eq!(rest_after::<u64>(&bytes, false, 0xEFCDAB8967452301), 1);
}

#[test]
fn signed_values_are_twos_complement() {
    assert_eq!(rest_after::<i8>(&[0xFF], true, -1), 0);
    assert_eq!(rest_after::<i8>(&[0x80], false, i8::MIN), 0);
    assert_eq!(rest_after::<i8>(&[0x7F], true, i8::MAX), 0);
    assert_eq!(rest_after::<i16>(&[0xFF, 0xFE], true, -2), 0);
    assert_eq!(rest_after::<i16>(&[0xFF, 0xFE], false, -257), 0);
    assert_eq!(rest_after::<i16>(&[0x80, 0x00], true, i16::MIN), 0);
    assert_eq!(rest_after::<i32>(&[0xFF, 0xFF, 0xFF, 0x85], true, -123), 0);
    assert_eq!(rest_after::<i32>(&[0x85, 0xFF, 0xFF, 0xFF], false, -123), 0);
    assert_eq!(rest_after::<i32>(&[0x80, 0, 0, 0], true, i32::MIN), 0);
    assert_eq!(rest_after::<i64>(&[0xFF; 8], true, -1), 0);
    assert_eq!(rest_after::<i64>(&[0x80, 0, 0, 0, 0, 0, 0, 0], true, i64::MIN), 0);
    assert_eq!(rest_after::<i64>(&[0x7F, 0xFF, 0xFF, 0xFF, 0xFF, 0xFF, 0xFF, 0xFF], true, i64::MAX), 0);
    assert_eq!(rest_after::<i64>(&[0, 0, 0, 0, 0, 0, 0, 0x80], false, i64::MIN), 0);
}

#[test]
fn round_trip_of_unsigned_integers() {
    let tail = [0xAAu8, 0xBB, 0xCC];
    for &v in &[0u64, 1, 0x7F, 0x80, 0xFF, 0x100, 0xFFFF, 0x1_0000, 0xDEAD_BEEF, u64::MAX] {
        let small = v as u8;
        let mut be = small.to_be_bytes().to_vec();
        be.extend_from_slice(&tail);
        assert_eq!(rest_after::<u8>(&be, true, small), 3);
        let mut le = small.to_le_bytes().to_vec();
        le.extend_from_slice(&tail);
        assert_eq!(rest_after::<u8>(&le, false, small), 3);

        let short = v as u16;
        let mut be = short.to_be_bytes().to_vec();
        be.extend_from_slice(&tail);
        assert_eq!(rest_after::<u16>(&be, true, short), 3);
        let mut le = short.to_le_bytes().to_vec();
        le.extend_from_slice(&tail);
        assert_eq!(rest_after::<u16>(&le, false, short), 3);

        let word = v as u32;
        let mut be = word.to_be_bytes().to_vec();
        be.extend_from_slice(&tail);
        assert_eq!(rest_after::<u32>(&be, true, word), 3);
        let mut le = word.to_le_bytes().to_vec();
        le.extend_from_slice(&tail);
        assert_eq!(rest_after::<u32>(&le, false, word), 3);

        let mut be = v.to_be_bytes().to_vec();
        be.extend_from_slice(&tail);
        assert_eq!(rest_after::<u64>(&be, true, v), 3);
        let mut le = v.to_le_bytes().to_vec();
        le.extend_from_slice(&tail);
        assert_eq!(rest_after::<u64>(&le, false, v), 3);
    }
}

#[test]
fn round_trip_of_signed_integers() {
    for &v in &[0i64, 1, -1, 127, -128, 128, -129, 32767, -32768, 1 << 40, -(1 << 40), i64::MAX, i64::MIN] {
        let small = v as i8;
        assert_eq!(rest_after::<i8>(&small.to_be_bytes(), true, small), 0);
        assert_eq!(rest_after::<i8>(&small.to_le_bytes(), false, small), 0);
        let short = v as i16;
        assert_eq!(rest_after::<i16>(&short.to_be_bytes(), true, short), 0);
        assert_eq!(rest_after::<i16>(&short.to_le_bytes(), false, short), 0);
        let word = v as i32;
        assert_eq!(rest_after::<i32>(&word.to_be_bytes(), true, word), 0);
        assert_eq!(rest_after::<i32>(&word.to_le_bytes(), false, word), 0);
        assert_eq!(rest_after::<i64>(&v.to_be_bytes(), true, v), 0);
        assert_eq!(rest_after::<i64>(&v.to_le_bytes(), false, v), 0);
    }
}

#[test]
fn short_input_fails_and_leaves_the_cursor() {
    fails_unmoved::<u8>(&[]);
    fails_unmoved::<i8>(&[]);
    fails_unmoved::<u16>(&[1]);
    fails_unmoved::<i16>(&[]);
    fails_unmoved::<u32>(&[1, 2, 3]);
    fails_unmoved::<i32>(&[1]);
    fails_unmoved::<u64>(&[1, 2, 3, 4, 5, 6, 7]);
    fails_unmoved::<i64>(&[1, 2, 3, 4]);
}

#[test]
fn exact_input_is_used_up() {
    assert_eq!(rest_after::<u16>(&[0, 1], true, 1), 0);
    assert_eq!(rest_after::<u32>(&[0, 0, 0, 1], true, 1), 0);
    assert_eq!(rest_after::<u64>(&[0, 0, 0, 0, 0, 0, 0, 1], true, 1), 0);
}

#[test]
fn arrays_read_element_by_element() {
    assert_eq!(rest_after::<[u8; 0]>(&[], true, []), 0);
    assert_eq!(rest_after::<[u8; 0]>(&[7], false, []), 1);
    assert_eq!(rest_after::<[u8; 1]>(&[7, 8], true, [7]), 1);
    assert_eq!(rest_after::<[u16; 2]>(&[0, 1, 0, 2, 9], true, [1, 2]), 1);
    assert_eq!(rest_after::<[u16; 2]>(&[0, 1, 0, 2, 9], false, [0x100, 0x200]), 1);
    assert_eq!(rest_after::<[u8; 3]>(&[1, 2, 3], true, [1, 2, 3]), 0);
    assert_eq!(rest_after::<[u8; 4]>(b"head!", true, [0x68, 0x65, 0x61, 0x64]), 1);
    assert_eq!(rest_after::<[i16; 4]>(&[0xFF, 0xFF, 0, 1, 0x80, 0, 0x7F, 0xFF], true, [-1, 1, i16::MIN, i16::MAX]), 0);
    assert_eq!(rest_after::<[[u8; 2]; 2]>(&[1, 2, 3, 4], true, [[1, 2], [3, 4]]), 0);
}

#[test]
fn short_arrays_fail_and_leave_the_cursor() {
    fails_unmoved::<[u8; 1]>(&[]);
    fails_unmoved::<[u16; 2]>(&[0, 1, 0]);
    fails_unmoved::<[u8; 3]>(&[1, 2]);
    fails_unmoved::<[u32; 4]>(&[0; 15]);
}
