use btcore::codec::{decode, encode, Bencode, CodecError};

fn bvec(s: &[u8]) -> Vec<u8> {
    s.to_vec()
}

#[test]
fn decode_dict_and_reencode() {
    let input = b"d3:cow3:moo4:spam4:eggse";
    let v = decode(input).unwrap();
    match &v {
        Bencode::Dict(entries) => {
            assert_eq!(entries.len(), 2);
            assert_eq!(entries[0].0, bvec(b"cow"));
            assert_eq!(entries[0].1, Bencode::Bytes(bvec(b"moo")));
            assert_eq!(entries[1].0, bvec(b"spam"));
            assert_eq!(entries[1].1, Bencode::Bytes(bvec(b"eggs")));
        },
        _ => panic!("expected a dictionary"),
    }
    assert_eq!(encode(&v), input.to_vec());
}

#[test]
fn decode_negative_int() {
    let v = decode(b"i-42e").unwrap();
    assert_eq!(v, Bencode::Int(-42));
    assert_eq!(encode(&v), b"i-42e".to_vec());
}

#[test]
fn minus_zero_rejected() {
    assert_eq!(decode(b"i-0e"), Err(CodecError::Malformed));
}

#[test]
fn leading_zeros_rejected() {
    assert_eq!(decode(b"i042e"), Err(CodecError::Malformed));
    assert_eq!(decode(b"i00e"), Err(CodecError::Malformed));
}

#[test]
fn zero_int_round_trip() {
    let v = decode(b"i0e").unwrap();
    assert_eq!(v, Bencode::Int(0));
    assert_eq!(encode(&v), b"i0e".to_vec());
}

#[test]
fn int64_limits_round_trip() {
    let v = decode(b"i9223372036854775807e").unwrap();
    assert_eq!(v, Bencode::Int(i64::MAX));
    let v = decode(b"i-9223372036854775808e").unwrap();
    assert_eq!(v, Bencode::Int(i64::MIN));
    assert_eq!(encode(&v), b"i-9223372036854775808e".to_vec());
    assert_eq!(decode(b"i9223372036854775808e"), Err(CodecError::Malformed));
}

#[test]
fn string_round_trip() {
    let v = decode(b"4:spam").unwrap();
    assert_eq!(v, Bencode::Bytes(bvec(b"spam")));
    assert_eq!(encode(&v), b"4:spam".to_vec());
    let v = decode(b"0:").unwrap();
    assert_eq!(v, Bencode::Bytes(Vec::new()));
}

#[test]
fn nested_list_round_trip() {
    let input = b"ll4:spami-3eed3:key5:valueei7ee";
    let v = decode(input).unwrap();
    assert_eq!(encode(&v), input.to_vec());
}

#[test]
fn trailing_bytes_reported() {
    assert_eq!(decode(b"i1ee"), Err(CodecError::TrailingBytes));
    assert_eq!(decode(b"4:spamx"), Err(CodecError::TrailingBytes));
}

#[test]
fn duplicate_keys_rejected() {
    assert_eq!(decode(b"d3:cow3:moo3:cow4:eggse"), Err(CodecError::Malformed));
}

#[test]
fn unterminated_rejected() {
    assert_eq!(decode(b"l4:spam"), Err(CodecError::Malformed));
    assert_eq!(decode(b"i42"), Err(CodecError::Malformed));
    assert_eq!(decode(b"5:spam"), Err(CodecError::Malformed));
    assert_eq!(decode(b""), Err(CodecError::Malformed));
}

#[test]
fn unsorted_dict_keys_tolerated() {
    // the decoder accepts unsorted keys; the encoder re-emits them sorted
    let input = b"d4:spam4:eggs3:cow3:mooe";
    let v = decode(input).unwrap();
    assert_eq!(encode(&v), b"d3:cow3:moo4:spam4:eggse".to_vec());
}

#[test]
fn nested_dicts_canonicalized() {
    let input = b"ld1:bi1e1:ai2eee";
    let v = decode(input).unwrap();
    assert_eq!(encode(&v), b"ld1:ai2e1:bi1eee".to_vec());
}

#[test]
fn encode_built_value() {
    let v = Bencode::Dict(vec![
        (bvec(b"a"), Bencode::Int(1)),
        (bvec(b"b"), Bencode::List(vec![Bencode::Bytes(bvec(b"x"))])),
    ]);
    assert_eq!(encode(&v), b"d1:ai1e1:bl1:xee".to_vec());
}

#[test]
fn u32_big_endian_round_trip() {
    let b = btcore::u32_to_be(0x01_02_03_04);
    assert_eq!(b, vec![1, 2, 3, 4]);
    assert_eq!(btcore::u32_from_be(b[0], b[1], b[2], b[3]), 0x01_02_03_04);
    assert_eq!(btcore::u32_from_be(0, 0, 64, 0), 16384);
}
