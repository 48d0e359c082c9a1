use sqlite_query::record_handler::Varint;

#[test]
fn varint_single_byte() {
    let buf = [0x07u8, 0xaa];
    let (v, rest) = Varint::from(&buf);
    assert_eq!(v.value, 7);
    assert_eq!(v.size, 1);
    assert_eq!(rest, &[0xaa]);
}

#[test]
fn varint_zero() {
    let buf = [0x00u8];
    let (v, rest) = Varint::from(&buf);
    assert_eq!(v.value, 0);
    assert_eq!(v.size, 1);
    assert!(rest.is_empty());
}

#[test]
fn varint_two_bytes() {
    let buf = [0x81u8, 0x00, 0x55];
    let (v, rest) = Varint::from(&buf);
    assert_eq!(v.value, 128);
    assert_eq!(v.size, 2);
    assert_eq!(rest, &[0x55]);
}

#[test]
fn varint_two_bytes_largest() {
    let buf = [0xffu8, 0x7f];
    let (v, _) = Varint::from(&buf);
    assert_eq!(v.value, 16383);
    assert_eq!(v.size, 2);
}

#[test]
fn varint_three_bytes() {
    let buf = [0x81u8, 0x80, 0x00];
    let (v, rest) = Varint::from(&buf);
    assert_eq!(v.value, 16384);
    assert_eq!(v.size, 3);
    assert!(rest.is_empty());
}

#[test]
fn varint_eight_bytes_largest() {
    let buf = [0xffu8, 0xff, 0xff, 0xff, 0xff, 0xff, 0xff, 0x7f, 0x01];
    let (v, rest) = Varint::from(&buf);
    assert_eq!(v.value, (1i64 << 56) - 1);
    assert_eq!(v.size, 8);
    assert_eq!(rest, &[0x01]);
}

#[test]
fn varint_nine_bytes_takes_all_bits_of_the_last() {
    let buf = [0x80u8, 0x80, 0x80, 0x80, 0x80, 0x80, 0x80, 0x80, 0xff, 0x33];
    let (v, rest) = Varint::from(&buf);
    assert_eq!(v.value, 255);
    assert_eq!(v.size, 9);
    assert_eq!(rest, &[0x33]);
}

#[test]
fn varint_nine_bytes_minus_one() {
    let buf = [0xffu8; 9];
    let (v, rest) = Varint::from(&buf);
    assert_eq!(v.value, -1);
    assert_eq!(v.size, 9);
    assert!(rest.is_empty());
}

#[test]
fn varint_nine_bytes_smallest_number() {
    let buf = [0xc0u8, 0x80, 0x80, 0x80, 0x80, 0x80, 0x80, 0x80, 0x00];
    let (v, _) = Varint::from(&buf);
    assert_eq!(v.value, i64::MIN);
    assert_eq!(v.size, 9);
}

#[test]
fn varint_never_reads_past_nine_bytes() {
    let buf = [0xffu8; 12];
    let (v, rest) = Varint::from(&buf);
    assert_eq!(v.size, 9);
    assert_eq!(rest.len(), 3);
    assert_eq!(v.value, -1);
}

#[test]
fn varint_cut_short_takes_what_is_there() {
    let buf = [0x81u8, 0x82];
    let (v, rest) = Varint::from(&buf);
    assert_eq!(v.size, 2);
    assert_eq!(v.value, (1 << 7) | 2);
    assert!(rest.is_empty());
}

#[test]
fn varint_round_trip_of_every_length() {
    // One value for each length from 1 to 8, written most significant group first.
    for len in 1..=8usize {
        let value: u64 = (1u64 << (7 * (len - 1))) + 5;
        let mut bytes = Vec::new();
        for i in (0..len).rev() {
            let group = ((value >> (7 * i)) & 0x7f) as u8;
            bytes.push(if i == 0 { group } else { group | 0x80 });
        }
        bytes.push(0x99);
        let (v, rest) = Varint::from(&bytes);
        assert_eq!(v.size as usize, len);
        assert_eq!(v.value, value as i64);
        assert_eq!(rest, &[0x99]);
    }
}
