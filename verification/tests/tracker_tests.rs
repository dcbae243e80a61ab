use btcore::codec::{encode, Bencode};
use btcore::tracker::{
    encode_percent, parse_compact_peers, parse_tracker_response, PeerAddress, TrackerError,
};

#[test]
fn compact_peers_decoded() {
    let blob = [0x0Au8, 0x00, 0x00, 0x01, 0x1A, 0xE1, 0x0A, 0x00, 0x00, 0x02, 0x1A, 0xE2];
    let peers = parse_compact_peers(&blob).unwrap();
    assert_eq!(peers.len(), 2);
    assert_eq!(peers[0], PeerAddress { ip0: 10, ip1: 0, ip2: 0, ip3: 1, port: 6881 });
    assert_eq!(peers[1], PeerAddress { ip0: 10, ip1: 0, ip2: 0, ip3: 2, port: 6882 });
}

#[test]
fn compact_peers_counts() {
    // a blob of length 6n yields exactly n addresses
    for n in 0..5usize {
        let blob = vec![0u8; 6 * n];
        assert_eq!(parse_compact_peers(&blob).unwrap().len(), n);
    }
}

#[test]
fn compact_peers_bad_length() {
    assert_eq!(parse_compact_peers(&[1, 2, 3]), Err(TrackerError::NotCompact));
    assert_eq!(parse_compact_peers(&[0; 7]), Err(TrackerError::NotCompact));
}

#[test]
fn percent_encoding_uppercase() {
    assert_eq!(encode_percent(&[0x1A, 0xE1]), "%1A%E1");
    assert_eq!(encode_percent(&[]), "");
    assert_eq!(encode_percent(&[0x00, 0x7F, 0xFF]), "%00%7F%FF");
}

#[test]
fn tracker_response_parsed() {
    let peers_blob = vec![0x0Au8, 0x00, 0x00, 0x01, 0x1A, 0xE1];
    let value = Bencode::Dict(vec![
        (b"interval".to_vec(), Bencode::Int(1800)),
        (b"peers".to_vec(), Bencode::Bytes(peers_blob)),
    ]);
    let input = encode(&value);
    let tr = parse_tracker_response(&input).unwrap();
    assert_eq!(tr.interval, 1800);
    assert_eq!(tr.peers.len(), 1);
    assert_eq!(tr.peers[0], PeerAddress { ip0: 10, ip1: 0, ip2: 0, ip3: 1, port: 6881 });
}

#[test]
fn tracker_response_errors() {
    assert!(matches!(parse_tracker_response(b"xyz"), Err(TrackerError::Codec(_))));
    assert!(matches!(parse_tracker_response(b"i1e"), Err(TrackerError::Shape)));
    let value = Bencode::Dict(vec![
        (b"interval".to_vec(), Bencode::Int(1800)),
        (b"peers".to_vec(), Bencode::Bytes(vec![0u8; 5])),
    ]);
    let input = encode(&value);
    assert_eq!(parse_tracker_response(&input), Err(TrackerError::NotCompact));
}
