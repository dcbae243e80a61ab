use btcore::codec::{encode, Bencode};
use btcore::hashing::encode_sha1;
use btcore::codec::CodecError;
use btcore::torrent::{parse_info_bytes, parse_metadata, parse_metainfo, MetaError, TorrentInfo};
use sha1::{Digest, Sha1};

fn sample_info() -> TorrentInfo {
    TorrentInfo {
        length: 92063,
        name: b"sample.txt".to_vec(),
        piece_length: 32768,
        pieces: vec![7u8; 60],
    }
}

fn info_value(info: &TorrentInfo) -> Bencode {
    Bencode::Dict(vec![
        (b"length".to_vec(), Bencode::Int(info.length as i64)),
        (b"name".to_vec(), Bencode::Bytes(info.name.clone())),
        (b"piece length".to_vec(), Bencode::Int(info.piece_length as i64)),
        (b"pieces".to_vec(), Bencode::Bytes(info.pieces.clone())),
    ])
}

fn metainfo_bytes(announce: &[u8], info: &TorrentInfo) -> Vec<u8> {
    encode(&Bencode::Dict(vec![
        (b"announce".to_vec(), Bencode::Bytes(announce.to_vec())),
        (b"info".to_vec(), info_value(info)),
    ]))
}

#[test]
fn piece_geometry() {
    let info = sample_info();
    assert_eq!(info.get_piece_num(), 3);
    assert_eq!(info.get_piece_length_real(0), 32768);
    assert_eq!(info.get_piece_length_real(1), 32768);
    assert_eq!(info.get_piece_length_real(2), 26527);
    let total: u64 = (0..3).map(|p| info.get_piece_length_real(p) as u64).sum();
    assert_eq!(total, 92063);
}

#[test]
fn parse_metainfo_round_trip() {
    let info = sample_info();
    let bytes = metainfo_bytes(b"http://tracker.example/announce", &info);
    let tf = parse_metainfo(&bytes).unwrap();
    assert_eq!(tf.announce, b"http://tracker.example/announce".to_vec());
    assert_eq!(tf.info, info);
    assert_eq!(tf.get_piece_num(), 3);
    assert_eq!(tf.get_piece_length_real(2), 26527);
}

#[test]
fn info_hash_stability() {
    // hashing the re-encoded info dictionary reproduces the SHA-1 of the
    // info bytes embedded in the file
    let info = sample_info();
    let info_bytes = encode(&info_value(&info));
    let expected: Vec<u8> = Sha1::digest(&info_bytes).to_vec();
    assert_eq!(info.get_hash(), expected);
    let tf = parse_metainfo(&metainfo_bytes(b"http://t", &info)).unwrap();
    assert_eq!(tf.get_hash(), expected);
}

#[test]
fn sha1_known_vectors() {
    let empty_digest = encode_sha1(b"");
    assert_eq!(
        empty_digest,
        vec![
            0xda, 0x39, 0xa3, 0xee, 0x5e, 0x6b, 0x4b, 0x0d, 0x32, 0x55, 0xbf, 0xef, 0x95, 0x60,
            0x18, 0x90, 0xaf, 0xd8, 0x07, 0x09,
        ]
    );
    let abc_digest = encode_sha1(b"abc");
    assert_eq!(
        abc_digest,
        vec![
            0xa9, 0x99, 0x3e, 0x36, 0x47, 0x06, 0x81, 0x6a, 0xba, 0x3e, 0x25, 0x71, 0x78, 0x50,
            0xc2, 0x6c, 0x9c, 0xd0, 0xd8, 0x9d,
        ]
    );
}

#[test]
fn metainfo_shape_errors() {
    // a value of the wrong kind is a type mismatch, a missing key a shape error
    assert!(matches!(parse_metainfo(b"i42e"), Err(MetaError::Codec(CodecError::Unexpected))));
    assert!(matches!(parse_metainfo(b"not bencode"), Err(MetaError::Codec(CodecError::Malformed))));
    assert!(matches!(
        parse_metainfo(b"d8:announce3:url4:infoi1ee"),
        Err(MetaError::Codec(CodecError::Unexpected))
    ));
    assert!(matches!(parse_metainfo(b"d8:announce3:urle"), Err(MetaError::Shape)));
}

#[test]
fn metainfo_geometry_errors() {
    let mut info = sample_info();
    info.pieces = vec![7u8; 61];
    let bytes = metainfo_bytes(b"http://t", &info);
    assert!(matches!(parse_metainfo(&bytes), Err(MetaError::Geometry)));
    let mut info = sample_info();
    info.pieces = vec![7u8; 40];
    let bytes = metainfo_bytes(b"http://t", &info);
    assert!(matches!(parse_metainfo(&bytes), Err(MetaError::Geometry)));
}

#[test]
fn metadata_hash_checked() {
    let info = sample_info();
    let bytes = encode(&info_value(&info));
    let good: Vec<u8> = Sha1::digest(&bytes).to_vec();
    let parsed = parse_metadata(&bytes, &good).unwrap();
    assert_eq!(parsed, info);
    let mut bad = good.clone();
    bad[0] ^= 1;
    assert!(matches!(parse_metadata(&bytes, &bad), Err(MetaError::HashMismatch)));
}

#[test]
fn bare_info_dict_parsed() {
    let info = sample_info();
    let bytes = encode(&info_value(&info));
    assert_eq!(parse_info_bytes(&bytes).unwrap(), info);
}

#[test]
fn announce_url_built() {
    let info = sample_info();
    let tf = btcore::torrent::TorrentFile { announce: b"http://t/a".to_vec(), info };
    let peer_id = vec![0x11u8; 20];
    let url = tf.track_request_url(&peer_id, 92063);
    let hash = tf.get_hash();
    let mut expected = b"http://t/a?info_hash=".to_vec();
    for b in &hash {
        expected.extend_from_slice(format!("%{:02X}", b).as_bytes());
    }
    expected.extend_from_slice(b"&peer_id=");
    for _ in 0..20 {
        expected.extend_from_slice(b"%11");
    }
    expected.extend_from_slice(b"&port=6881&uploaded=0&downloaded=0&left=92063&compact=1");
    assert_eq!(url, expected);
}
