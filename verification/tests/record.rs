use sqlite_query::error::Error;
use sqlite_query::record_handler::{byte_list_string, decimal_string, RecordFormat};
use sqlite_query::tokenizer::Token;
use sqlite_query::tree_handler::values;

fn decode(payload: &[u8], serial: i64) -> (RecordFormat, Vec<u8>) {
    let (value, rest) = RecordFormat::new(payload, serial).expect("the column decodes");
    (value, rest.to_vec())
}

#[test]
fn serial_zero_is_null_and_takes_nothing() {
    let (value, rest) = decode(&[1, 2], 0);
    assert_eq!(value, RecordFormat::NULL);
    assert_eq!(rest, vec![1, 2]);
}

#[test]
fn serial_one_is_a_signed_byte() {
    assert_eq!(decode(&[0x7f, 9], 1), (RecordFormat::Integer8(127), vec![9]));
    assert_eq!(decode(&[0xff], 1), (RecordFormat::Integer8(-1), vec![]));
    assert_eq!(decode(&[0x80], 1), (RecordFormat::Integer8(-128), vec![]));
}

#[test]
fn serial_two_is_a_signed_sixteen_bit_number() {
    assert_eq!(decode(&[0x01, 0x02, 7], 2), (RecordFormat::Integer16(258), vec![7]));
    assert_eq!(decode(&[0xff, 0xfe], 2), (RecordFormat::Integer16(-2), vec![]));
}

#[test]
fn serial_three_is_a_signed_twenty_four_bit_number() {
    assert_eq!(decode(&[0x01, 0x00, 0x00], 3), (RecordFormat::Integer24(65536), vec![]));
    assert_eq!(decode(&[0xff, 0xff, 0xff, 4], 3), (RecordFormat::Integer24(-1), vec![4]));
    assert_eq!(decode(&[0x80, 0x00, 0x00], 3), (RecordFormat::Integer24(-8388608), vec![]));
}

#[test]
fn serial_four_is_a_signed_thirty_two_bit_number() {
    assert_eq!(decode(&[0x00, 0x01, 0x00, 0x00], 4), (RecordFormat::Integer32(65536), vec![]));
    assert_eq!(decode(&[0x80, 0, 0, 0], 4), (RecordFormat::Integer32(i32::MIN), vec![]));
}

#[test]
fn serial_five_is_a_signed_forty_eight_bit_number() {
    assert_eq!(
        decode(&[0x00, 0x00, 0x00, 0x00, 0x01, 0x00], 5),
        (RecordFormat::Integer48(256), vec![])
    );
    assert_eq!(
        decode(&[0xff, 0xff, 0xff, 0xff, 0xff, 0xfe, 1], 5),
        (RecordFormat::Integer48(-2), vec![1])
    );
}

#[test]
fn serial_six_is_a_signed_sixty_four_bit_number() {
    assert_eq!(
        decode(&[0, 0, 0, 0, 0, 0, 0x01, 0x02], 6),
        (RecordFormat::Integer64(258), vec![])
    );
    assert_eq!(decode(&[0xff; 8], 6), (RecordFormat::Integer64(-1), vec![]));
    assert_eq!(
        decode(&[0x80, 0, 0, 0, 0, 0, 0, 0], 6),
        (RecordFormat::Integer64(i64::MIN), vec![])
    );
    assert_eq!(
        decode(&[0x7f, 0xff, 0xff, 0xff, 0xff, 0xff, 0xff, 0xff], 6),
        (RecordFormat::Integer64(i64::MAX), vec![])
    );
}

#[test]
fn serial_seven_keeps_the_bits_of_a_double() {
    let bytes = 1.5f64.to_be_bytes();
    let (value, rest) = decode(&bytes, 7);
    assert_eq!(value, RecordFormat::Float64(1.5f64.to_bits()));
    assert!(rest.is_empty());
    match value {
        RecordFormat::Float64(bits) => assert_eq!(f64::from_bits(bits), 1.5),
        _ => unreachable!(),
    }
}

#[test]
fn serials_eight_and_nine_are_constants() {
    assert_eq!(decode(&[5], 8), (RecordFormat::Integer0, vec![5]));
    assert_eq!(decode(&[5], 9), (RecordFormat::Integer1, vec![5]));
}

#[test]
fn even_serials_from_twelve_are_blobs() {
    assert_eq!(decode(&[9], 12), (RecordFormat::Blob(vec![]), vec![9]));
    assert_eq!(decode(&[1, 2, 3, 4], 18), (RecordFormat::Blob(vec![1, 2, 3]), vec![4]));
}

#[test]
fn odd_serials_from_thirteen_are_texts() {
    assert_eq!(decode(&[9], 13), (RecordFormat::String(String::new()), vec![9]));
    assert_eq!(
        decode(b"Fuji!", 21),
        (RecordFormat::String("Fuji".to_string()), vec![b'!'])
    );
}

#[test]
fn text_that_is_no_utf8_is_decoded_with_replacement_characters() {
    let (value, _) = decode(&[b'a', 0xff, b'b'], 19);
    assert_eq!(value, RecordFormat::String("a\u{fffd}b".to_string()));
}

#[test]
fn text_of_several_bytes_per_character_is_decoded() {
    let bytes = "é€".as_bytes();
    let serial = 13 + 2 * bytes.len() as i64;
    let (value, rest) = decode(bytes, serial);
    assert_eq!(value, RecordFormat::String("é€".to_string()));
    assert!(rest.is_empty());
}

#[test]
fn reserved_and_negative_serials_are_refused() {
    assert!(matches!(RecordFormat::new(&[0; 8], 10), Err(Error::MalformedRecord)));
    assert!(matches!(RecordFormat::new(&[0; 8], 11), Err(Error::MalformedRecord)));
    assert!(matches!(RecordFormat::new(&[0; 8], -1), Err(Error::MalformedRecord)));
    assert!(matches!(RecordFormat::new(&[0; 8], i64::MIN), Err(Error::MalformedRecord)));
}

#[test]
fn a_payload_that_runs_short_is_refused() {
    assert!(matches!(RecordFormat::new(&[], 1), Err(Error::MalformedRecord)));
    assert!(matches!(RecordFormat::new(&[1], 2), Err(Error::MalformedRecord)));
    assert!(matches!(RecordFormat::new(&[1, 2, 3, 4, 5], 5), Err(Error::MalformedRecord)));
    assert!(matches!(RecordFormat::new(&[1, 2, 3, 4, 5, 6, 7], 6), Err(Error::MalformedRecord)));
    assert!(matches!(RecordFormat::new(&[1, 2], 18), Err(Error::MalformedRecord)));
    assert!(matches!(RecordFormat::new(&[1, 2], 19), Err(Error::MalformedRecord)));
    assert!(matches!(RecordFormat::new(&[1, 2], i64::MAX), Err(Error::MalformedRecord)));
}

#[test]
fn values_decodes_the_columns_in_order() {
    // Header of four bytes: its own length, then null, an 8-bit integer, a text of 4 bytes.
    let mut payload = vec![4, 0, 1, 21];
    payload.push(2);
    payload.extend_from_slice(b"Fuji");
    let columns = values(&payload).expect("the record decodes");
    assert_eq!(
        columns,
        vec![
            RecordFormat::NULL,
            RecordFormat::Integer8(2),
            RecordFormat::String("Fuji".to_string()),
        ]
    );
}

#[test]
fn values_of_a_record_without_columns() {
    assert_eq!(values(&vec![1]).expect("the record decodes"), vec![]);
}

#[test]
fn values_reads_serial_types_of_several_bytes() {
    // A text of 100 bytes has serial type 213, a varint of two bytes.
    let mut payload = vec![3, 0x81, 0x55];
    payload.extend(std::iter::repeat(b'x').take(100));
    let columns = values(&payload).expect("the record decodes");
    assert_eq!(columns, vec![RecordFormat::String("x".repeat(100))]);
}

#[test]
fn column_sizes_add_up_to_the_payload_after_the_header() {
    let mut payload = vec![5, 1, 2, 18, 9];
    payload.extend_from_slice(&[7, 0, 1, 1, 2, 3]);
    let columns = values(&payload).expect("the record decodes");
    assert_eq!(columns.len(), 4);
    let header_len = 5;
    let sizes = 1 + 2 + 3 + 0;
    assert_eq!(sizes, payload.len() - header_len);
}

#[test]
fn values_refuses_an_empty_payload() {
    assert!(matches!(values(&vec![]), Err(Error::MalformedRecord)));
}

#[test]
fn values_refuses_a_header_longer_than_the_payload() {
    assert!(matches!(values(&vec![3, 1]), Err(Error::MalformedRecord)));
}

#[test]
fn values_refuses_a_header_shorter_than_its_own_length() {
    assert!(matches!(values(&vec![0]), Err(Error::MalformedRecord)));
}

#[test]
fn values_refuses_a_serial_type_that_crosses_the_end_of_the_header() {
    // The header says two bytes, but its one serial type goes on into a third.
    assert!(matches!(values(&vec![2, 0x81, 0x01]), Err(Error::MalformedRecord)));
}

#[test]
fn values_refuses_reserved_serial_types() {
    assert!(matches!(values(&vec![2, 10]), Err(Error::MalformedRecord)));
    assert!(matches!(values(&vec![2, 11]), Err(Error::MalformedRecord)));
}

#[test]
fn values_refuses_a_payload_that_runs_short() {
    assert!(matches!(values(&vec![2, 4, 0, 0, 1]), Err(Error::MalformedRecord)));
}

#[test]
fn values_refuses_bytes_after_the_last_column() {
    assert!(matches!(values(&vec![2, 1, 5, 6]), Err(Error::MalformedRecord)));
}

#[test]
fn text_of_integers_is_decimal() {
    assert_eq!(RecordFormat::Integer8(-5).text(), Some("-5".to_string()));
    assert_eq!(RecordFormat::Integer16(300).text(), Some("300".to_string()));
    assert_eq!(RecordFormat::Integer24(-8388608).text(), Some("-8388608".to_string()));
    assert_eq!(RecordFormat::Integer32(0).text(), Some("0".to_string()));
    assert_eq!(RecordFormat::Integer48(1234567890123).text(), Some("1234567890123".to_string()));
    assert_eq!(
        RecordFormat::Integer64(i64::MIN).text(),
        Some("-9223372036854775808".to_string())
    );
    assert_eq!(
        RecordFormat::Integer64(i64::MAX).text(),
        Some("9223372036854775807".to_string())
    );
    assert_eq!(RecordFormat::Integer0.text(), Some("0".to_string()));
    assert_eq!(RecordFormat::Integer1.text(), Some("1".to_string()));
}

#[test]
fn text_of_the_other_values() {
    assert_eq!(RecordFormat::NULL.text(), Some("NULL".to_string()));
    assert_eq!(RecordFormat::String("Red".to_string()).text(), Some("Red".to_string()));
    assert_eq!(RecordFormat::Blob(vec![]).text(), Some("[]".to_string()));
    assert_eq!(RecordFormat::Blob(vec![7]).text(), Some("[7]".to_string()));
    assert_eq!(RecordFormat::Blob(vec![1, 20, 255]).text(), Some("[1, 20, 255]".to_string()));
    assert_eq!(RecordFormat::Float64(1.5f64.to_bits()).text(), None);
}

#[test]
fn decimal_string_agrees_with_the_standard_library() {
    for i in [0i64, 1, 9, 10, 11, 99, 100, 12345, -1, -10, -999, i64::MAX, i64::MIN, i64::MIN + 1] {
        assert_eq!(decimal_string(i), i.to_string());
    }
}

#[test]
fn byte_list_string_agrees_with_the_debug_form() {
    for bytes in [vec![], vec![0u8], vec![1, 2], vec![255, 0, 17, 100]] {
        assert_eq!(byte_list_string(&bytes), format!("{:?}", bytes));
    }
}

#[test]
fn as_integer_reads_every_integer_variant() {
    assert_eq!(RecordFormat::Integer8(-3).as_integer(), Some(-3));
    assert_eq!(RecordFormat::Integer16(-300).as_integer(), Some(-300));
    assert_eq!(RecordFormat::Integer24(70000).as_integer(), Some(70000));
    assert_eq!(RecordFormat::Integer32(-70000).as_integer(), Some(-70000));
    assert_eq!(RecordFormat::Integer48(1 << 40).as_integer(), Some(1 << 40));
    assert_eq!(RecordFormat::Integer64(i64::MIN).as_integer(), Some(i64::MIN));
    assert_eq!(RecordFormat::Integer0.as_integer(), Some(0));
    assert_eq!(RecordFormat::Integer1.as_integer(), Some(1));
    assert_eq!(RecordFormat::NULL.as_integer(), None);
    assert_eq!(RecordFormat::String("1".to_string()).as_integer(), None);
    assert_eq!(RecordFormat::Blob(vec![1]).as_integer(), None);
    assert_eq!(RecordFormat::Float64(0).as_integer(), None);
}

#[test]
fn clone_keeps_the_value() {
    for value in [
        RecordFormat::NULL,
        RecordFormat::Integer8(1),
        RecordFormat::Integer64(-9),
        RecordFormat::Float64(77),
        RecordFormat::Blob(vec![1, 2]),
        RecordFormat::String("abc".to_string()),
    ] {
        assert_eq!(value.clone(), value);
    }
}

#[test]
fn a_value_is_a_token_of_the_same_kind_and_content() {
    let number = Token::Number(7);
    assert!(RecordFormat::Integer8(7).equals_token(&number));
    assert!(RecordFormat::Integer16(7).equals_token(&number));
    assert!(RecordFormat::Integer24(7).equals_token(&number));
    assert!(RecordFormat::Integer32(7).equals_token(&number));
    assert!(RecordFormat::Integer48(7).equals_token(&number));
    assert!(RecordFormat::Integer64(7).equals_token(&number));
    assert!(!RecordFormat::Integer64(8).equals_token(&number));
    assert!(!RecordFormat::String("7".to_string()).equals_token(&number));
    assert!(!RecordFormat::Integer1.equals_token(&Token::Number(1)));
    assert!(!RecordFormat::Integer0.equals_token(&Token::Number(0)));
    assert!(RecordFormat::Integer8(-1).equals_token(&Token::Number(-1)));

    assert!(RecordFormat::NULL.equals_token(&Token::Text("NULL".to_string())));
    assert!(!RecordFormat::NULL.equals_token(&Token::Text("null".to_string())));
    assert!(!RecordFormat::NULL.equals_token(&Token::String("NULL".to_string())));
    assert!(!RecordFormat::String("NULL".to_string()).equals_token(&Token::Text("NULL".to_string())));

    assert!(RecordFormat::String("Red".to_string()).equals_token(&Token::String("Red".to_string())));
    assert!(!RecordFormat::String("Red".to_string()).equals_token(&Token::String("red".to_string())));
    assert!(!RecordFormat::String("Red".to_string()).equals_token(&Token::Text("Red".to_string())));
    assert!(!RecordFormat::Blob(vec![1]).equals_token(&Token::String("[1]".to_string())));

    assert!(!RecordFormat::String("=".to_string()).equals_token(&Token::Punctuation('=')));
    assert!(!RecordFormat::NULL.equals_token(&Token::Punctuation('*')));
}
