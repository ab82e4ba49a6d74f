use rtcp::decimal::push_decimal;
use rtcp::decimal::read_decimal;
use rtcp::protocol::RTCPType;
use rtcp::scan::find;
use rtcp::scan::matches_at;
use rtcp::text::append;
use rtcp::text::decode_or_empty;
use rtcp::text::same_bytes;
use rtcp::text::same_text;

#[test]
fn find_gives_the_first_occurrence() {
    assert_eq!(find(b"a b c", b" "), Some(1));
    assert_eq!(find(b"abc", b" "), None);
    assert_eq!(find(b"", b" "), None);
    assert_eq!(find(b"", b""), Some(0));
    assert_eq!(find(b"abc", b""), Some(0));
    assert_eq!(find(b"\r\r\n\r\n", b"\r\n"), Some(1));
    assert_eq!(find(b"\r\n\r\r\n\r\n", b"\r\n\r\n"), Some(3));
    assert_eq!(find(b"aaab", b"aab"), Some(1));
    assert_eq!(find(b"ab", b"abc"), None);
    assert_eq!(find(b"abc", b"abc"), Some(0));
    assert_eq!(find(b"xabc", b"abc"), Some(1));
}

#[test]
fn matches_at_compares_in_place() {
    assert!(matches_at(b"hello", b"ell", 1));
    assert!(!matches_at(b"hello", b"ell", 0));
    assert!(matches_at(b"hello", b"", 5));
    assert!(matches_at(b"hello", b"hello", 0));
    assert!(!matches_at(b"hello", b"hellO", 0));
}

#[test]
fn numerals_are_read_up_to_the_limit() {
    assert_eq!(read_decimal(b"0", 65535), Some(0));
    assert_eq!(read_decimal(b"65535", 65535), Some(65535));
    assert_eq!(read_decimal(b"65536", 65535), None);
    assert_eq!(read_decimal(b"", 65535), None);
    assert_eq!(read_decimal(b"12a", 65535), None);
    assert_eq!(read_decimal(b" 12", 65535), None);
    assert_eq!(read_decimal(b"+12", 65535), None);
    assert_eq!(read_decimal(b"007", 7), Some(7));
    assert_eq!(read_decimal(b"8", 7), None);
    assert_eq!(read_decimal(b"18446744073709551615", u64::MAX), Some(u64::MAX));
    assert_eq!(read_decimal(b"18446744073709551616", u64::MAX), None);
    assert_eq!(read_decimal(b"99999999999999999999999", u64::MAX), None);
    assert_eq!(read_decimal(b"0", 0), Some(0));
    assert_eq!(read_decimal(b"1", 0), None);
}

#[test]
fn numerals_are_written_without_leading_zeros() {
    for (n, text) in [
        (0u64, "0"),
        (9, "9"),
        (10, "10"),
        (65535, "65535"),
        (1000000, "1000000"),
        (u64::MAX, "18446744073709551615"),
    ] {
        let mut out = b"x".to_vec();
        push_decimal(&mut out, n);
        assert_eq!(out, format!("x{}", text).into_bytes());
        assert_eq!(read_decimal(&out[1..], u64::MAX), Some(n));
    }
}

#[test]
fn bytes_and_text_are_compared_and_joined() {
    assert!(same_bytes(b"", b""));
    assert!(same_bytes(b"ab", b"ab"));
    assert!(!same_bytes(b"ab", b"abc"));
    assert!(!same_bytes(b"ab", b"aB"));
    assert!(same_text("h\u{e9}", "h\u{e9}"));
    assert!(!same_text("h\u{e9}", "he"));
    let mut out = vec![1u8, 2];
    append(&mut out, &[3, 4]);
    append(&mut out, &[]);
    assert_eq!(out, vec![1, 2, 3, 4]);
    assert_eq!(decode_or_empty(b"h\xc3\xa9"), "h\u{e9}");
    assert_eq!(decode_or_empty(b"h\xc3"), "");
    assert_eq!(decode_or_empty(b""), "");
}

#[test]
fn tokens_are_read_and_written_as_bytes() {
    assert_eq!(RTCPType::from_token(b"heartbeat"), Some(RTCPType::Heartbeat));
    assert_eq!(RTCPType::from_token(b"initialize:1"), Some(RTCPType::Initialize(1)));
    assert_eq!(RTCPType::from_token(b"initialize:"), None);
    assert_eq!(RTCPType::from_token(b"heartbeat "), None);
    let mut out = b">".to_vec();
    RTCPType::Initialize(443).write_token(&mut out);
    RTCPType::NewConnection.write_token(&mut out);
    assert_eq!(out, b">initialize:443new_connection".to_vec());
}
