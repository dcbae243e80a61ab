use btcore::magnet::{decode_magnet_link, ConfigError};

const SAMPLE: &str = "magnet:?xt=urn:btih:ad42ce8109f54c99613ce38f9b4d87e70f24a165&dn=magnet1.gif&tr=http%3A%2F%2Fbittorrent-test-tracker.codecrafters.io%2Fannounce";

#[test]
fn magnet_parsed() {
    let m = decode_magnet_link(SAMPLE).unwrap();
    assert_eq!(m.xt, "urn:btih:ad42ce8109f54c99613ce38f9b4d87e70f24a165");
    assert_eq!(m.dn, "magnet1.gif");
    assert_eq!(m.tr, "http://bittorrent-test-tracker.codecrafters.io/announce");
}

#[test]
fn magnet_hex_hash() {
    let m = decode_magnet_link(SAMPLE).unwrap();
    assert_eq!(m.get_hex_hash(), "ad42ce8109f54c99613ce38f9b4d87e70f24a165");
    let hash = m.get_hash();
    assert_eq!(hash.len(), 20);
    assert_eq!(hash[0], 0xAD);
    assert_eq!(hash[1], 0x42);
    assert_eq!(hash[19], 0x65);
}

#[test]
fn magnet_prefix_optional() {
    let m = decode_magnet_link(
        "xt=urn:btih:ad42ce8109f54c99613ce38f9b4d87e70f24a165&dn=a&tr=http%3A%2F%2Ft",
    )
    .unwrap();
    assert_eq!(m.dn, "a");
    assert_eq!(m.tr, "http://t");
}

#[test]
fn magnet_first_key_wins() {
    let m = decode_magnet_link(
        "magnet:?xt=urn:btih:ad42ce8109f54c99613ce38f9b4d87e70f24a165&dn=first&dn=second&tr=t",
    )
    .unwrap();
    assert_eq!(m.dn, "first");
}

#[test]
fn magnet_plus_decodes_to_space() {
    let m = decode_magnet_link(
        "magnet:?xt=urn:btih:ad42ce8109f54c99613ce38f9b4d87e70f24a165&dn=two+words&tr=t",
    )
    .unwrap();
    assert_eq!(m.dn, "two words");
}

#[test]
fn magnet_missing_field() {
    assert_eq!(
        decode_magnet_link("magnet:?xt=urn:btih:ad42ce8109f54c99613ce38f9b4d87e70f24a165&dn=a"),
        Err(ConfigError::MissingField)
    );
}

#[test]
fn magnet_bad_hash() {
    assert_eq!(
        decode_magnet_link("magnet:?xt=urn:btih:zz42ce8109f54c99613ce38f9b4d87e70f24a165&dn=a&tr=t"),
        Err(ConfigError::BadHash)
    );
    assert_eq!(
        decode_magnet_link("magnet:?xt=urn:btih:ad42&dn=a&tr=t"),
        Err(ConfigError::BadHash)
    );
}

#[test]
fn magnet_bad_escape() {
    assert_eq!(
        decode_magnet_link(
            "magnet:?xt=urn:btih:ad42ce8109f54c99613ce38f9b4d87e70f24a165&dn=a%2&tr=t"
        ),
        Err(ConfigError::BadEscape)
    );
}

#[test]
fn magnet_announce_url() {
    let m = decode_magnet_link(SAMPLE).unwrap();
    let peer_id = vec![0x20u8; 20];
    let url = m.track_request_url(&peer_id, 999);
    let url_text = String::from_utf8(url).unwrap();
    assert!(url_text.starts_with(
        "http://bittorrent-test-tracker.codecrafters.io/announce?info_hash=%AD%42%CE"
    ));
    assert!(url_text.ends_with("&port=6881&uploaded=0&downloaded=0&left=999&compact=1"));
}
