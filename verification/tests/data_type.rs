use rbit::data_type::DataType::ByteString;
use rbit::data_type::DataType::Dictionary;
use rbit::data_type::DataType::Integer;
use rbit::data_type::DataType::List;
use rbit::data_type::{DataType, Dict};

#[test]
fn it_formats_integer() {
    assert_eq!(Integer(0).to_display_string(), "0");
    assert_eq!(Integer(1).to_display_string(), "1");
    assert_eq!(Integer(-1).to_display_string(), "-1");
}

#[test]
fn it_formats_byte_string() {
    assert_eq!(ByteString("".as_bytes().to_vec()).to_display_string(), "");
    assert_eq!(
        ByteString("Lorem ipsum".as_bytes().to_vec()).to_display_string(),
        "Lorem ipsum"
    );
}

#[test]
fn it_formats_list() {
    assert_eq!(List(vec![Integer(0)]).to_display_string(), "[0, ]");
    assert_eq!(
        List(vec![Integer(0), Integer(0)]).to_display_string(),
        "[0, 0, ]"
    );
    assert_eq!(
        List(vec![ByteString("Lorem ipsum".as_bytes().to_vec())]).to_display_string(),
        "[Lorem ipsum, ]"
    );
    assert_eq!(
        List(vec![ByteString("0".as_bytes().to_vec()), Integer(0)]).to_display_string(),
        "[0, 0, ]"
    );
}

#[test]
fn it_formats_dictionary() {
    let mut dict = Dict::new();
    dict.insert("key1".as_bytes().to_vec(), Integer(18));
    assert_eq!(Dictionary(dict).to_display_string(), "{key1: 18}");
}

#[test]
fn formats_extreme_integers_and_nested_values() {
    assert_eq!(Integer(i64::MIN).to_display_string(), "-9223372036854775808");
    assert_eq!(Integer(i64::MAX).to_display_string(), "9223372036854775807");
    let mut dict = Dict::new();
    dict.insert(b"b".to_vec(), List(vec![]));
    dict.insert(b"a".to_vec(), ByteString(b"x".to_vec()));
    assert_eq!(Dictionary(dict).to_display_string(), "{a: xb: []}");
}

#[test]
fn formats_invalid_utf8_lossily() {
    assert_eq!(ByteString(vec![0x61, 0xff, 0x62]).to_display_string(), "a\u{FFFD}b");
}

#[test]
fn getters_pick_their_variant() {
    let s = ByteString(b"abc".to_vec());
    let i = Integer(-7);
    let l = List(vec![Integer(1)]);
    let mut d = Dict::new();
    d.insert(b"k".to_vec(), Integer(3));
    let d = Dictionary(d);

    assert_eq!(s.get_string_value(), Some(&b"abc".to_vec()));
    assert!(i.get_string_value().is_none());
    assert_eq!(i.get_integer_value(), Some(&-7));
    assert!(s.get_integer_value().is_none());
    assert_eq!(l.get_list_value().map(|v| v.len()), Some(1));
    assert!(d.get_list_value().is_none());
    assert!(matches!(d.get_dict_value(b"k"), Some(Integer(3))));
    assert!(d.get_dict_value(b"missing").is_none());
    assert!(s.get_dict_value(b"k").is_none());
}

#[test]
fn dictionary_insert_replaces_and_keeps_keys_in_order() {
    let mut d = Dict::new();
    d.insert(b"zeta".to_vec(), Integer(1));
    d.insert(b"alpha".to_vec(), Integer(2));
    d.insert(b"mid".to_vec(), Integer(3));
    d.insert(b"alpha".to_vec(), Integer(4));
    assert_eq!(d.len(), 3);
    assert_eq!(d.key_at(0), &b"alpha".to_vec());
    assert_eq!(d.key_at(1), &b"mid".to_vec());
    assert_eq!(d.key_at(2), &b"zeta".to_vec());
    assert!(matches!(d.get(b"alpha"), Some(Integer(4))));
    assert!(matches!(d.value_at(2), Integer(1)));
    assert!(d.get(b"beta").is_none());
}

#[test]
fn clone_copies_deeply() {
    let mut d = Dict::new();
    d.insert(b"list".to_vec(), List(vec![ByteString(b"x".to_vec()), Integer(5)]));
    let source: DataType = Dictionary(d);
    let copy = source.clone();
    assert_eq!(rbit::encoder::encode(&copy), rbit::encoder::encode(&source));
}
