use rbit::data_type::DataType::ByteString;
use rbit::data_type::DataType::Dictionary;
use rbit::data_type::DataType::Integer;
use rbit::data_type::DataType::List;
use rbit::data_type::Dict;
use rbit::encoder::encode;

#[test]
fn it_encodes_integer() {
    assert_eq!(encode(&Integer(0)), "i0e".as_bytes().to_vec());
    assert_eq!(encode(&Integer(-1)), "i-1e".as_bytes().to_vec());
    assert_eq!(encode(&Integer(1)), "i1e".as_bytes().to_vec());
}

#[test]
fn it_encodes_string() {
    assert_eq!(
        encode(&ByteString("Lorem ipsum".as_bytes().to_vec())),
        "11:Lorem ipsum".as_bytes().to_vec()
    );
    assert_eq!(
        encode(&ByteString("".as_bytes().to_vec())),
        "0:".as_bytes().to_vec()
    );
}

#[test]
fn it_encodes_list() {
    assert_eq!(encode(&List(vec![])), "le".as_bytes().to_vec());
    assert_eq!(encode(&List(vec![Integer(0)])), "li0ee".as_bytes().to_vec());
    assert_eq!(
        encode(&List(vec![
            Integer(0),
            ByteString("Lorem ipsum".as_bytes().to_vec())
        ])),
        "li0e11:Lorem ipsume".as_bytes().to_vec()
    );
}

#[test]
fn it_encodes_dictionary() {
    let dict = Dict::new();
    assert_eq!(encode(&Dictionary(dict)), "de".as_bytes().to_vec());

    let mut dict2 = Dict::new();
    dict2.insert("key1".as_bytes().to_vec(), Integer(0));
    dict2.insert(
        "key2".as_bytes().to_vec(),
        ByteString("Lorem ipsum".as_bytes().to_vec()),
    );
    assert_eq!(
        encode(&Dictionary(dict2)),
        "d4:key1i0e4:key211:Lorem ipsume".as_bytes().to_vec()
    );
}

#[test]
fn encodes_extreme_integers() {
    assert_eq!(encode(&Integer(i64::MIN)), b"i-9223372036854775808e".to_vec());
    assert_eq!(encode(&Integer(i64::MAX)), b"i9223372036854775807e".to_vec());
}

#[test]
fn encodes_dictionary_keys_in_byte_order() {
    let mut dict = Dict::new();
    dict.insert(b"b".to_vec(), Integer(1));
    dict.insert(b"ab".to_vec(), Integer(2));
    dict.insert(b"a".to_vec(), Integer(3));
    assert_eq!(encode(&Dictionary(dict)), b"d1:ai3e2:abi2e1:bi1ee".to_vec());
}
