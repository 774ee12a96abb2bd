use rbit::number::{chars_to_integer, integer_to_digits, nat_to_digits};

#[test]
fn parses_integers_like_str_parse() {
    assert_eq!(chars_to_integer(b"0"), Some(0));
    assert_eq!(chars_to_integer(b"-0"), Some(0));
    assert_eq!(chars_to_integer(b"+15"), Some(15));
    assert_eq!(chars_to_integer(b"-15"), Some(-15));
    assert_eq!(chars_to_integer(b"00012"), Some(12));
    assert_eq!(chars_to_integer(b"9223372036854775807"), Some(i64::MAX));
    assert_eq!(chars_to_integer(b"-9223372036854775808"), Some(i64::MIN));
    assert_eq!(chars_to_integer(b"9223372036854775808"), None);
    assert_eq!(chars_to_integer(b"-9223372036854775809"), None);
    assert_eq!(chars_to_integer(b"99999999999999999999999"), None);
    assert_eq!(chars_to_integer(b""), None);
    assert_eq!(chars_to_integer(b"-"), None);
    assert_eq!(chars_to_integer(b"+"), None);
    assert_eq!(chars_to_integer(b"1a"), None);
    assert_eq!(chars_to_integer(b"+-1"), None);
    for s in ["0", "-0", "+15", "-15", "00012", "1a", "", "-"] {
        assert_eq!(chars_to_integer(s.as_bytes()), s.parse::<i64>().ok());
    }
}

#[test]
fn writes_decimal_text() {
    assert_eq!(nat_to_digits(0), b"0".to_vec());
    assert_eq!(nat_to_digits(1234567890), b"1234567890".to_vec());
    assert_eq!(nat_to_digits(u64::MAX), u64::MAX.to_string().into_bytes());
    assert_eq!(integer_to_digits(-305), b"-305".to_vec());
    assert_eq!(integer_to_digits(i64::MIN), i64::MIN.to_string().into_bytes());
}
