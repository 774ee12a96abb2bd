use rbit::data_type::DataType::{ByteString, Dictionary, Integer, List};
use rbit::data_type::{DataType, Dict};
use rbit::decoder::decode;
use rbit::request_sender::announce_request_url;
use rbit::torrent::{
    collect_peers_info, convert_string_to_list, get_announce_url, get_info, get_peers,
    info_hash, percent_encode, read_file_info,
};

fn sample() -> DataType {
    decode(b"d8:announce23:http://tracker.test/ann4:infod6:lengthi300e4:name4:file12:piece lengthi256e6:pieces3:abcee")
}

#[test]
fn extracts_info_and_its_hash() {
    let t = sample();
    assert_eq!(
        get_info(&t),
        b"d6:lengthi300e4:name4:file12:piece lengthi256e6:pieces3:abce".to_vec()
    );
    assert_eq!(
        info_hash(&t),
        [
            0x17, 0x90, 0x71, 0xb5, 0x25, 0xcc, 0x92, 0x25, 0xee, 0x50, 0x28, 0x96, 0x5e, 0xbc,
            0xb3, 0x15, 0x6b, 0x90, 0xd6, 0x47
        ]
    );
    let small = decode(b"d4:info3:abce");
    assert_eq!(get_info(&small), b"3:abc".to_vec());
    assert_eq!(
        info_hash(&small),
        [
            0x7a, 0xc1, 0xb6, 0x5b, 0xee, 0x71, 0x72, 0x61, 0xfd, 0x2b, 0x94, 0x7f, 0x0c, 0xc5,
            0xef, 0x99, 0xc5, 0x5f, 0x3c, 0x18
        ]
    );
}

#[test]
fn percent_encodes_every_byte() {
    assert_eq!(percent_encode(&[]), "");
    assert_eq!(percent_encode(&[0x00, 0x1f, 0xab, 0xff, b'a']), "%00%1F%AB%FF%61");
}

#[test]
fn reads_announce_url() {
    assert_eq!(get_announce_url(&sample()), "http://tracker.test/ann");
}

#[test]
fn builds_announce_request_url() {
    assert_eq!(
        announce_request_url("http://t/a", "%01"),
        "http://t/a?info_hash=%01&uploaded=0&downloaded=0&left=0&port=6881&peer_id=Rbit-Sn5J5VGM5CkFccE"
    );
}

#[test]
fn converts_compact_peers() {
    let peers = convert_string_to_list(&[192, 168, 0, 1, 0x1a, 0xe1, 10, 0, 0, 255, 0, 80]);
    assert_eq!(peers.len(), 2);
    assert_eq!(
        rbit::encoder::encode(&peers[0]),
        b"d2:ip11:192.168.0.14:porti6881ee".to_vec()
    );
    assert_eq!(
        rbit::encoder::encode(&peers[1]),
        b"d2:ip10:10.0.0.2554:porti80ee".to_vec()
    );
    assert!(convert_string_to_list(&[]).is_empty());
}

#[test]
fn gets_peers_of_each_form() {
    let compact = decode(b"d5:peers6:\x7f\x00\x00\x01\x00\x50e");
    let peers = get_peers(&compact);
    assert_eq!(collect_peers_info(&peers), vec!["127.0.0.1:80".to_string()]);

    let listed = decode(b"d5:peersld2:ip3:::14:porti1eeee");
    let peers = get_peers(&listed);
    assert_eq!(peers.len(), 1);
    assert_eq!(collect_peers_info(&peers), vec!["::1:1".to_string()]);

    let other = decode(b"d5:peersi3ee");
    let peers = get_peers(&other);
    assert!(matches!(peers.as_slice(), [Integer(0)]));
}

#[test]
fn reads_single_file_info() {
    let t = sample();
    let info = t.get_dict_value(b"info").unwrap();
    let file = read_file_info(info);
    assert_eq!(file.piece_length, 256);
    assert_eq!(file.length, 300);
    assert_eq!(file.pieces, b"abc".to_vec());
    assert_eq!(file.name, "file");

    let mut d = Dict::new();
    d.insert(b"piece length".to_vec(), Integer(4294967297));
    d.insert(b"pieces".to_vec(), ByteString(vec![]));
    d.insert(b"name".to_vec(), ByteString(vec![0xff]));
    d.insert(b"length".to_vec(), Integer(-1));
    let file = read_file_info(&Dictionary(d));
    assert_eq!(file.piece_length, 1);
    assert_eq!(file.length, u32::MAX);
    assert_eq!(file.name, "\u{FFFD}");
    let _ = List(vec![]);
}
