use btcore::message::{
    check_handshake_reply, extension_handshake_message, extension_request_message,
    handshake_message, interested_message, parse_extension_handshake, parse_metadata_reply,
    parse_piece_message, piece_request_message, ProtocolError,
};

#[test]
fn handshake_layout() {
    let info_hash = vec![0xABu8; 20];
    let peer_id = vec![0xCDu8; 20];
    let msg = handshake_message(&info_hash, &peer_id, true);
    assert_eq!(msg.len(), 68);
    assert_eq!(msg[0], 19);
    assert_eq!(&msg[1..20], b"BitTorrent protocol");
    // reserved bytes with the extension bit set
    assert_eq!(&msg[20..28], &[0, 0, 0, 0, 0, 0x10, 0, 0]);
    assert_eq!(&msg[28..48], &info_hash[..]);
    assert_eq!(&msg[48..68], &peer_id[..]);
}

#[test]
fn handshake_reserved_clear_without_extension() {
    let msg = handshake_message(&[0u8; 20], &[0u8; 20], false);
    assert_eq!(&msg[20..28], &[0u8; 8]);
}

#[test]
fn handshake_reply_validated() {
    let info_hash = vec![0xABu8; 20];
    let mut reply = handshake_message(&info_hash, &vec![0x42u8; 20], false);
    reply[25] = 0x10;
    let h = check_handshake_reply(&reply, &info_hash).unwrap();
    assert!(h.extensions);
    assert_eq!(h.peer_id, vec![0x42u8; 20]);
    let h = {
        reply[25] = 0;
        check_handshake_reply(&reply, &info_hash).unwrap()
    };
    assert!(!h.extensions);
}

#[test]
fn handshake_reply_mismatch() {
    let info_hash = vec![0xABu8; 20];
    let other_hash = vec![0xACu8; 20];
    let reply = handshake_message(&other_hash, &vec![0u8; 20], false);
    assert_eq!(check_handshake_reply(&reply, &info_hash), Err(ProtocolError::HandshakeMismatch));
    assert_eq!(check_handshake_reply(&reply[..67], &other_hash), Err(ProtocolError::HandshakeMismatch));
    let mut bad = reply.clone();
    bad[1] = b'X';
    assert_eq!(check_handshake_reply(&bad, &other_hash), Err(ProtocolError::HandshakeMismatch));
}

#[test]
fn interested_frame() {
    assert_eq!(interested_message(), vec![0, 0, 0, 1, 2]);
}

#[test]
fn request_frame() {
    let msg = piece_request_message(1, 16384, 9001);
    assert_eq!(msg.len(), 17);
    assert_eq!(&msg[0..5], &[0, 0, 0, 13, 6]);
    assert_eq!(&msg[5..9], &[0, 0, 0, 1]);
    assert_eq!(&msg[9..13], &[0, 0, 0x40, 0]);
    assert_eq!(&msg[13..17], &[0, 0, 0x23, 0x29]);
}

#[test]
fn piece_message_parsed() {
    let mut msg = vec![7u8, 0, 0, 0, 1, 0, 0, 0x40, 0];
    msg.extend_from_slice(b"blockdata");
    let (index, begin, block) = parse_piece_message(&msg).unwrap();
    assert_eq!(index, 1);
    assert_eq!(begin, 16384);
    assert_eq!(block, b"blockdata".to_vec());
}

#[test]
fn piece_message_rejected() {
    assert_eq!(parse_piece_message(&[7, 0, 0]), Err(ProtocolError::BadMessage));
    assert_eq!(
        parse_piece_message(&[6, 0, 0, 0, 1, 0, 0, 0, 0, 1]),
        Err(ProtocolError::BadMessage)
    );
}

#[test]
fn extension_handshake_frame() {
    let msg = extension_handshake_message();
    let payload = b"d1:md11:ut_metadatai1eee";
    assert_eq!(&msg[0..4], &[0, 0, 0, (payload.len() + 2) as u8]);
    assert_eq!(msg[4], 20);
    assert_eq!(msg[5], 0);
    assert_eq!(&msg[6..], payload);
}

#[test]
fn extension_request_frame() {
    let msg = extension_request_message(3);
    let payload = b"d8:msg_typei0e5:piecei0ee";
    assert_eq!(&msg[0..4], &[0, 0, 0, (payload.len() + 2) as u8]);
    assert_eq!(msg[4], 20);
    assert_eq!(msg[5], 3);
    assert_eq!(&msg[6..], payload);
}

#[test]
fn extension_handshake_parsed() {
    let d = parse_extension_handshake(b"d1:md11:ut_metadatai3eee").unwrap();
    assert_eq!(d.m.ut_metadata, 3);
    // unknown extra entries are ignored
    let d = parse_extension_handshake(b"d1:md11:ut_metadatai7ee13:metadata_sizei132ee").unwrap();
    assert_eq!(d.m.ut_metadata, 7);
    assert!(parse_extension_handshake(b"le").is_err());
}

#[test]
fn metadata_reply_split() {
    let mut payload = b"d8:msg_typei1e5:piecei0e10:total_sizei9ee".to_vec();
    payload.extend_from_slice(b"rawmetadata");
    let (header, tail) = parse_metadata_reply(&payload).unwrap();
    assert_eq!(header.msg_type, 1);
    assert_eq!(header.piece, 0);
    assert_eq!(header.total_size, Some(9));
    assert_eq!(tail, b"rawmetadata".to_vec());
}
