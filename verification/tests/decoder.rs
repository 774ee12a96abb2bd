use rbit::data_type::DataType::ByteString;
use rbit::data_type::DataType::Dictionary;
use rbit::data_type::DataType::Integer;
use rbit::data_type::DataType::List;
use rbit::decoder::{decode, try_decode};
use rbit::encoder::encode;
use rbit::parser::Parser;

#[test]
fn it_decodes_integer() {
    match decode("i0e".as_bytes()) {
        Integer(value) => assert_eq!(value, 0),
        _ => assert_eq!(true, false),
    }
}

#[test]
fn it_decodes_string() {
    match decode("11:Lorem ipsum".as_bytes()) {
        ByteString(value) => assert_eq!(value, "Lorem ipsum".as_bytes().to_vec()),
        _ => assert_eq!(true, false),
    }
}

#[test]
fn it_decodes_list() {
    match decode("li0ee".as_bytes()) {
        List(value) => match value[0] {
            Integer(value) => assert_eq!(value, 0),
            _ => assert_eq!(true, false),
        },
        _ => assert_eq!(true, false),
    }
}

#[test]
fn it_decodes_dictionary() {
    match decode("d3:key11:Lorem ipsume".as_bytes()) {
        Dictionary(value) => match value.get(&"key".as_bytes().to_vec()).unwrap() {
            ByteString(value) => assert_eq!(*value, "Lorem ipsum".as_bytes().to_vec()),
            _ => assert_eq!(true, false),
        },
        _ => assert_eq!(true, false),
    }
}

#[test]
fn decodes_signed_and_extreme_integers() {
    assert!(matches!(decode(b"i-42e"), Integer(-42)));
    assert!(matches!(decode(b"i+7e"), Integer(7)));
    assert!(matches!(decode(b"i007e"), Integer(7)));
    assert!(matches!(decode(b"i9223372036854775807e"), Integer(i64::MAX)));
    assert!(matches!(decode(b"i-9223372036854775808e"), Integer(i64::MIN)));
}

#[test]
fn rejects_what_does_not_decode() {
    assert!(try_decode(b"").is_none());
    assert!(try_decode(b"i9223372036854775808e").is_none());
    assert!(try_decode(b"ie").is_none());
    assert!(try_decode(b"i-e").is_none());
    assert!(try_decode(b"i12").is_none());
    assert!(try_decode(b"5:abc").is_none());
    assert!(try_decode(b"li1e").is_none());
    assert!(try_decode(b"lxe").is_none());
    assert!(try_decode(b"d:e").is_none());
}

#[test]
fn unknown_byte_reads_as_zero() {
    assert!(matches!(try_decode(b"x"), Some(Integer(0))));
}

#[test]
fn string_stops_at_other_byte() {
    match try_decode(b"12x") {
        Some(ByteString(value)) => assert!(value.is_empty()),
        _ => panic!("expected an empty byte string"),
    }
}

#[test]
fn dictionary_key_read_again_replaces_value() {
    match decode(b"d1:ai1e1:ai2ee") {
        Dictionary(d) => {
            assert_eq!(d.len(), 1);
            assert!(matches!(d.get(b"a"), Some(Integer(2))));
        }
        _ => panic!("expected a dictionary"),
    }
}

#[test]
fn dictionary_entry_without_key_uses_empty_key() {
    match decode(b"di5ee") {
        Dictionary(d) => assert!(matches!(d.get(b""), Some(Integer(5)))),
        _ => panic!("expected a dictionary"),
    }
}

#[test]
fn unsorted_dictionary_is_reencoded_sorted() {
    let value = decode(b"d1:bi1e1:ai2ee");
    assert_eq!(encode(&value), b"d1:ai2e1:bi1ee".to_vec());
}

#[test]
fn encoded_values_decode_back() {
    let inputs: Vec<&[u8]> = vec![
        b"i-12e",
        b"0:",
        b"le",
        b"de",
        b"l4:spami42ee",
        b"d3:bar4:spam3:fooi42e4:listli1ei2eee",
    ];
    for input in inputs {
        let value = decode(input);
        assert_eq!(encode(&value), input.to_vec());
        let again = decode(&encode(&value));
        assert_eq!(encode(&again), input.to_vec());
    }
}

#[test]
fn parser_moves_past_each_value() {
    let input = b"i1e3:abcle";
    let mut parser = Parser { position: 0, input };
    assert!(matches!(parser.parse(), Integer(1)));
    assert_eq!(parser.position, 3);
    match parser.parse() {
        ByteString(v) => assert_eq!(v, b"abc".to_vec()),
        _ => panic!("expected a byte string"),
    }
    assert_eq!(parser.position, 8);
    assert!(matches!(parser.parse(), List(ref v) if v.is_empty()));
    assert_eq!(parser.position, 10);
    assert!(parser.try_parse().is_none());
}

#[test]
fn bytes_after_a_value_are_ignored() {
    let mut d = rbit::data_type::Dict::new();
    d.insert(b"".to_vec(), List(vec![Integer(i64::MIN), ByteString(vec![0, 255])]));
    d.insert(b"k".to_vec(), Integer(i64::MAX));
    let value = Dictionary(d);
    let mut bytes = encode(&value);
    let n = bytes.len();
    bytes.extend_from_slice(b"i5etrailing");
    let back = decode(&bytes);
    assert_eq!(encode(&back), encode(&value));
    let mut parser = Parser { position: 3, input: &[b"xyz".as_slice(), &bytes].concat() };
    let again = parser.parse();
    assert_eq!(encode(&again), encode(&value));
    assert_eq!(parser.position, 3 + n);
}
