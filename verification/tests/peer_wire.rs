use rbit::peer_wire_protocol::{
    be_i32, handshake_message, piece_requests, reads_another_reply, reply_action,
    reply_body_len, reply_message, Msg, Payload, Piece, ReplyAction, SingleFileInfo,
};

#[test]
fn packs_prefix_id_and_payload() {
    let m = Msg { prefix: [0, 0, 0, 3], id: Some(9), payload: Some(Payload { data: vec![1, 2] }) };
    assert_eq!(m.pack(), vec![0, 0, 0, 3, 9, 1, 2]);
    let keep_alive = Msg { prefix: [0, 0, 0, 0], id: None, payload: None };
    assert_eq!(keep_alive.pack(), vec![0, 0, 0, 0]);
}

#[test]
fn builds_request_and_interested() {
    let r = Msg::request(1, 0x0102_0304, 16384);
    assert_eq!(r.pack(), vec![0, 0, 0, 13, 6, 0, 0, 0, 1, 1, 2, 3, 4, 0, 0, 0x40, 0]);
    let i = Msg::interested();
    assert_eq!(i.pack(), vec![0, 0, 0, 1, 2]);
}

#[test]
fn builds_handshake() {
    let hash = [7u8; 20];
    let h = handshake_message(&hash);
    let mut expected = vec![19u8];
    expected.extend_from_slice(b"BitTorrent protocol");
    expected.extend_from_slice(&[0; 8]);
    expected.extend_from_slice(&hash);
    expected.extend_from_slice(b"Rbit-Sn5J5VGM5CkFccE");
    assert_eq!(h, expected);
    assert_eq!(h.len(), 68);
}

#[test]
fn plans_block_requests() {
    assert_eq!(piece_requests(100), Some(vec![(0, 100)]));
    assert_eq!(piece_requests(16383), Some(vec![(0, 16383)]));
    assert_eq!(piece_requests(40000), Some(vec![(0, 16384), (16385, 16384), (32770, 7230)]));
    assert_eq!(piece_requests(16384), None);
    assert_eq!(piece_requests(u32::MAX), None);
}

#[test]
fn reads_length_prefixes() {
    assert_eq!(be_i32([0, 0, 0, 13]), 13);
    assert_eq!(be_i32([0xff, 0xff, 0xff, 0xff]), -1);
    assert_eq!(be_i32([0x80, 0, 0, 0]), i32::MIN);
    assert_eq!(be_i32([1, 2, 3, 4]), i32::from_be_bytes([1, 2, 3, 4]));
    assert_eq!(reply_body_len(5, 5), 4);
    assert_eq!(reply_body_len(16393, 7), 16392);
    assert_eq!(reply_body_len(1, 1), 0);
}

#[test]
fn holds_file_info_and_pieces() {
    let info = SingleFileInfo { piece_length: 1, pieces: vec![1], name: "n".to_string(), length: 2 };
    assert_eq!(info.length, 2);
    let piece = Piece { index: 1, begin: 2, block: vec![3] };
    assert_eq!(piece.block, vec![3]);
}

#[test]
fn chooses_reply_actions() {
    assert!(matches!(reply_action(Some(1)), ReplyAction::RequestBlocks));
    assert!(matches!(reply_action(Some(5)), ReplyAction::BitfieldReceived));
    assert!(matches!(reply_action(Some(7)), ReplyAction::PieceReceived));
    assert!(matches!(reply_action(Some(4)), ReplyAction::Unprocessable(4)));
    assert!(matches!(reply_action(None), ReplyAction::KeepAlive));
    assert!(reads_another_reply(9));
    assert!(!reads_another_reply(10));
}

#[test]
fn forms_reply_messages() {
    let piece = reply_message([0, 0, 0, 9], Some(7), vec![1, 2]);
    assert_eq!(piece.id, Some(7));
    assert_eq!(piece.payload.map(|p| p.data), Some(vec![1, 2]));
    let bitfield = reply_message([0, 0, 0, 2], Some(5), vec![3]);
    assert!(bitfield.payload.is_none());
    let keep_alive = reply_message([0, 0, 0, 0], None, vec![]);
    assert_eq!(keep_alive.id, None);
    assert_eq!(keep_alive.pack(), vec![0, 0, 0, 0]);
}
