use paste_store::codec::{decode, encode};
use paste_store::error::StoreError;
use paste_store::record::Paste;

fn paste(title: &str, content: &[u8]) -> Paste {
    Paste::new(title.to_string(), content.to_vec())
}

fn number(n: u64) -> Vec<u8> {
    n.to_le_bytes().to_vec()
}

#[test]
fn encoding_of_no_records_is_a_zero_count() {
    assert_eq!(encode(&[]), vec![0u8; 8]);
}

#[test]
fn encoding_of_one_record_is_count_key_and_payload() {
    let bytes = encode(&[paste("ab", &[1, 2, 3])]);
    let expected: Vec<u8> = vec![
        1, 0, 0, 0, 0, 0, 0, 0, // one record
        2, 0, 0, 0, 0, 0, 0, 0, // key of two bytes
        b'a', b'b', //
        3, 0, 0, 0, 0, 0, 0, 0, // payload of three bytes
        1, 2, 3,
    ];
    assert_eq!(bytes, expected);
}

#[test]
fn encoding_of_two_records_keeps_their_order() {
    let bytes = encode(&[paste("b", b"y"), paste("a", b"")]);
    let mut expected = number(2);
    expected.extend(number(1));
    expected.extend(b"b");
    expected.extend(number(1));
    expected.extend(b"y");
    expected.extend(number(1));
    expected.extend(b"a");
    expected.extend(number(0));
    assert_eq!(bytes, expected);
}

#[test]
fn encoding_writes_keys_as_utf8() {
    let bytes = encode(&[paste("\u{e9}", b"")]);
    let mut expected = number(1);
    expected.extend(number(2));
    expected.extend([0xc3u8, 0xa9]);
    expected.extend(number(0));
    assert_eq!(bytes, expected);
}

#[test]
fn encoding_is_deterministic() {
    let records = vec![paste("a", b"x"), paste("b", b"y")];
    assert_eq!(encode(&records), encode(&records));
}

#[test]
fn round_trip_of_records() {
    let records = vec![
        paste("first", b"hello"),
        paste("second", b""),
        paste("third", &[0, 255, 10, 13, 0]),
    ];
    assert_eq!(decode(&encode(&records)), Ok(records));
}

#[test]
fn round_trip_of_one_record() {
    let records = vec![paste("only", b"payload")];
    assert_eq!(decode(&encode(&records)), Ok(records));
}

#[test]
fn round_trip_of_no_records() {
    assert_eq!(decode(&encode(&[])), Ok(Vec::new()));
}

#[test]
fn round_trip_keeps_every_byte_value() {
    let all: Vec<u8> = (0..=255u8).collect();
    let records = vec![paste("bin", &all)];
    assert_eq!(decode(&encode(&records)), Ok(records));
}

#[test]
fn round_trip_keeps_keys_beyond_ascii() {
    let records = vec![
        paste("h\u{e9}llo", b"1"),
        paste("\u{65e5}\u{672c}\u{8a9e}", b"2"),
        paste("\u{1f600}", b"3"),
        paste("", b"4"),
    ];
    assert_eq!(decode(&encode(&records)), Ok(records));
}

#[test]
fn round_trip_keeps_equal_keys_and_their_order() {
    let records = vec![paste("a", b"1"), paste("a", b"2"), paste("a", b"1")];
    assert_eq!(decode(&encode(&records)), Ok(records));
}

#[test]
fn decoding_then_encoding_gives_the_bytes_back() {
    let bytes = encode(&[paste("k", b"v"), paste("l", b"w")]);
    let records = decode(&bytes).unwrap();
    assert_eq!(encode(&records), bytes);
}

#[test]
fn decode_refuses_empty_input() {
    assert_eq!(decode(&[]), Err(StoreError::CorruptSnapshot));
}

#[test]
fn decode_refuses_a_short_count() {
    assert_eq!(decode(&[0, 0, 0, 0, 0, 0, 0]), Err(StoreError::CorruptSnapshot));
}

#[test]
fn decode_refuses_every_truncation() {
    let bytes = encode(&[paste("key", b"payload"), paste("other", b"more")]);
    for cut in 0..bytes.len() {
        assert_eq!(decode(&bytes[..cut]), Err(StoreError::CorruptSnapshot));
    }
    assert!(decode(&bytes).is_ok());
}

#[test]
fn decode_refuses_trailing_bytes() {
    let mut bytes = encode(&[paste("key", b"payload")]);
    bytes.push(0);
    assert_eq!(decode(&bytes), Err(StoreError::CorruptSnapshot));
}

#[test]
fn decode_refuses_trailing_bytes_after_no_records() {
    let mut bytes = encode(&[]);
    bytes.push(7);
    assert_eq!(decode(&bytes), Err(StoreError::CorruptSnapshot));
}

#[test]
fn decode_refuses_a_count_larger_than_the_records() {
    let mut bytes = number(2);
    bytes.extend(number(1));
    bytes.extend(b"a");
    bytes.extend(number(1));
    bytes.extend(b"x");
    assert_eq!(decode(&bytes), Err(StoreError::CorruptSnapshot));
}

#[test]
fn decode_refuses_a_count_smaller_than_the_records() {
    let mut bytes = encode(&[paste("a", b"x"), paste("b", b"y")]);
    bytes[0] = 1;
    assert_eq!(decode(&bytes), Err(StoreError::CorruptSnapshot));
}

#[test]
fn decode_refuses_a_huge_count() {
    let bytes = number(u64::MAX);
    assert_eq!(decode(&bytes), Err(StoreError::CorruptSnapshot));
}

#[test]
fn decode_refuses_a_length_past_the_end() {
    let mut bytes = number(1);
    bytes.extend(number(5));
    bytes.extend(b"abc");
    assert_eq!(decode(&bytes), Err(StoreError::CorruptSnapshot));
}

#[test]
fn decode_refuses_a_huge_length() {
    let mut bytes = number(1);
    bytes.extend(number(u64::MAX));
    bytes.extend(b"abc");
    assert_eq!(decode(&bytes), Err(StoreError::CorruptSnapshot));
    let mut bytes = number(1);
    bytes.extend(number(u64::MAX - 7));
    bytes.extend(b"abc");
    assert_eq!(decode(&bytes), Err(StoreError::CorruptSnapshot));
}

#[test]
fn decode_refuses_a_key_that_is_not_utf8() {
    let mut bytes = number(1);
    bytes.extend(number(2));
    bytes.extend([0xc3u8, 0x28]);
    bytes.extend(number(1));
    bytes.extend(b"x");
    assert_eq!(decode(&bytes), Err(StoreError::CorruptSnapshot));
}

#[test]
fn decode_refuses_a_key_cut_inside_a_character() {
    let mut bytes = number(1);
    bytes.extend(number(1));
    bytes.extend([0xc3u8]);
    bytes.extend(number(0));
    assert_eq!(decode(&bytes), Err(StoreError::CorruptSnapshot));
}

#[test]
fn decode_accepts_a_payload_that_is_not_utf8() {
    let mut bytes = number(1);
    bytes.extend(number(1));
    bytes.extend(b"k");
    bytes.extend(number(2));
    bytes.extend([0xc3u8, 0x28]);
    assert_eq!(decode(&bytes), Ok(vec![paste("k", &[0xc3, 0x28])]));
}

#[test]
fn decode_refuses_text_that_is_no_snapshot() {
    assert_eq!(
        decode(b"this is not a snapshot, only some text"),
        Err(StoreError::CorruptSnapshot)
    );
}

#[test]
fn decode_reads_a_snapshot_written_by_hand() {
    let bytes: Vec<u8> = vec![
        2, 0, 0, 0, 0, 0, 0, 0, //
        1, 0, 0, 0, 0, 0, 0, 0, b'b', //
        1, 0, 0, 0, 0, 0, 0, 0, b'y', //
        1, 0, 0, 0, 0, 0, 0, 0, b'c', //
        1, 0, 0, 0, 0, 0, 0, 0, b'z',
    ];
    assert_eq!(decode(&bytes), Ok(vec![paste("b", b"y"), paste("c", b"z")]));
}
