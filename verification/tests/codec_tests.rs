use blogcore::codec::{my_urldecode, my_urlencode};

#[test]
fn test_my_urlencode() {
    assert_eq!(my_urlencode(b"hello world"), "hello%20world");
    assert_eq!(my_urlencode(b"hello world!"), "hello%20world%21");
}

#[test]
fn test_my_urldecode() {
    assert_eq!(my_urldecode("hello%20world").unwrap(), b"hello world");
    assert_eq!(my_urldecode("hello%20world%21").unwrap(), b"hello world!");
}

#[test]
fn unreserved_bytes_pass_through() {
    assert_eq!(my_urlencode(b"AZaz09-_.~"), "AZaz09-_.~");
}

#[test]
fn reserved_bytes_escape_uppercase_high_nibble_first() {
    assert_eq!(my_urlencode(b"/"), "%2F");
    assert_eq!(my_urlencode(b"%"), "%25");
    assert_eq!(my_urlencode(&[0x00, 0xFF, 0x1A]), "%00%FF%1A");
}

#[test]
fn decode_rejects_truncated_and_invalid_escapes() {
    assert!(my_urldecode("%").is_err());
    assert!(my_urldecode("%g1").is_err());
    assert!(my_urldecode("%1").is_err());
}

#[test]
fn decode_accepts_lowercase_hex() {
    assert_eq!(my_urldecode("%2f").unwrap(), b"/");
    assert_eq!(my_urldecode("%2F").unwrap(), b"/");
}

#[test]
fn round_trip_every_byte_value() {
    let mut all: Vec<u8> = Vec::new();
    for b in 0..=255u8 {
        all.push(b);
    }
    let encoded = my_urlencode(&all);
    assert_eq!(my_urldecode(&encoded).unwrap(), all);
}

#[test]
fn round_trip_space_and_exclamation_filename() {
    let name = b"my first post!.md".to_vec();
    let encoded = my_urlencode(&name);
    assert_eq!(my_urldecode(&encoded).unwrap(), name);
}

#[test]
fn decode_truncates_wide_characters_to_low_byte() {
    // a non-escape character decodes to the low eight bits of its scalar
    assert_eq!(my_urldecode("\u{00E9}").unwrap(), vec![0xE9]);
}
