//! Peer wire messages: the 68-byte handshake, length-prefixed frames for
//! interest and block requests, incoming `piece` messages, and the
//! `ut_metadata` extension handshake and request.
use vstd::prelude::*;

use crate::spec_u32_from_be;
use crate::spec_u32_to_be;
use crate::u32_to_be;
use crate::codec;
use crate::codec::{
    Bencode, CodecError, encoding, spec_dict_get, same_shape, keys_unique, input_in_reach,
};

verus! {

broadcast use vstd::std_specs::vec::group_vec_axioms, vstd::seq::group_seq_axioms;

/// A frame that breaks the protocol: a reply that fails handshake
/// validation, or a message whose id or lengths are not what the wire
/// format requires.
#[derive(Debug, Clone, Copy, PartialEq, Eq, Structural)]
pub enum ProtocolError {
    HandshakeMismatch,
    BadMessage,
    Codec(CodecError),
}

/// The 19 ASCII bytes of the protocol string.
pub open spec fn protocol_bytes() -> Seq<u8> {
    seq![66u8, 105u8, 116u8, 84u8, 111u8, 114u8, 114u8, 101u8, 110u8, 116u8, 32u8, 112u8, 114u8, 111u8, 116u8, 111u8, 99u8, 111u8, 108u8]
}

/// The reserved bytes: all zero, except byte five carrying `0x10` when the
/// extension protocol is offered.
pub open spec fn reserved_bytes(enable_extension: bool) -> Seq<u8> {
    if enable_extension {
        seq![0u8, 0u8, 0u8, 0u8, 0u8, 16u8, 0u8, 0u8]
    } else {
        seq![0u8, 0u8, 0u8, 0u8, 0u8, 0u8, 0u8, 0u8]
    }
}

/// The 68-byte handshake frame: length 19, the protocol string, the
/// reserved bytes, the info-hash, and the peer id.
pub open spec fn spec_handshake(
    info_hash: Seq<u8>,
    peer_id: Seq<u8>,
    enable_extension: bool,
) -> Seq<u8> {
    seq![19u8] + protocol_bytes() + reserved_bytes(enable_extension) + info_hash + peer_id
}

/// Builds the handshake frame for `info_hash` and `peer_id`, offering the
/// extension protocol when asked to.
pub fn handshake_message(info_hash: &[u8], peer_id: &[u8], enable_extension: bool) -> (r: Vec<u8>)
    requires
        info_hash@.len() == 20,
        peer_id@.len() == 20,
    ensures
        r@ == spec_handshake(info_hash@, peer_id@, enable_extension),
        r@.len() == 68,
{
    let mut out: Vec<u8> = Vec::new();
    out.push(19);
    out.push(66);
    out.push(105);
    out.push(116);
    out.push(84);
    out.push(111);
    out.push(114);
    out.push(114);
    out.push(101);
    out.push(110);
    out.push(116);
    out.push(32);
    out.push(112);
    out.push(114);
    out.push(111);
    out.push(116);
    out.push(111);
    out.push(99);
    out.push(111);
    out.push(108);
    if enable_extension {
        out.push(0);
        out.push(0);
        out.push(0);
        out.push(0);
        out.push(0);
        out.push(16);
        out.push(0);
        out.push(0);
    } else {
        let mut i: usize = 0;
        while i < 8
            invariant
                i <= 8,
                out@ == seq![19u8] + protocol_bytes() + reserved_bytes(false).take(i as int),
            decreases 8 - i,
        {
            out.push(0);
            i += 1;
            assert(out@ =~= seq![19u8] + protocol_bytes() + reserved_bytes(false).take(i as int));
        }
        assert(reserved_bytes(false).take(8) =~= reserved_bytes(false));
    }
    proof {
        assert(out@ =~= seq![19u8] + protocol_bytes() + reserved_bytes(enable_extension));
    }
    push_all(info_hash, &mut out);
    push_all(peer_id, &mut out);
    proof {
        assert(out@ =~= spec_handshake(info_hash@, peer_id@, enable_extension));
    }
    out
}

/// Appends a whole slice to `out`.
fn push_all(src: &[u8], out: &mut Vec<u8>)
    ensures
        final(out)@ == old(out)@ + src@,
{
    let mut i: usize = 0;
    while i < src.len()
        invariant
            i <= src@.len(),
            out@ == old(out)@ + src@.subrange(0, i as int),
        decreases src@.len() - i,
    {
        out.push(src[i]);
        i += 1;
        assert(out@ =~= old(out)@ + src@.subrange(0, i as int));
    }
    assert(src@.subrange(0, src@.len() as int) =~= src@);
}

/// What a valid handshake reply to `info_hash` looks like: 68 bytes, the
/// protocol preamble, and the same info-hash echoed back.
pub open spec fn valid_handshake_reply(reply: Seq<u8>, info_hash: Seq<u8>) -> bool {
    &&& reply.len() == 68
    &&& reply[0] == 19
    &&& reply.subrange(1, 20) == protocol_bytes()
    &&& reply.subrange(28, 48) == info_hash
}

/// What the remote answered in its handshake: its peer id, and whether it
/// offers the extension protocol (bit `0x10` of reserved byte five).
#[derive(Debug, PartialEq, Eq)]
pub struct HandshakeReply {
    pub peer_id: Vec<u8>,
    pub extensions: bool,
}

/// Validates a handshake reply: the protocol preamble must match and the
/// echoed info-hash must equal the one sent, else `HandshakeMismatch`.
pub fn check_handshake_reply(reply: &[u8], info_hash: &[u8]) -> (r: Result<
    HandshakeReply,
    ProtocolError,
>)
    requires
        info_hash@.len() == 20,
    ensures
        r is Ok <==> valid_handshake_reply(reply@, info_hash@),
        r matches Ok(h) ==> h.peer_id@ == reply@.subrange(48, 68) && h.extensions == (reply@[25]
            & 16 != 0),
        r matches Err(e) ==> e == ProtocolError::HandshakeMismatch,
{
    if reply.len() != 68 {
        return Err(ProtocolError::HandshakeMismatch);
    }
    if reply[0] != 19 {
        return Err(ProtocolError::HandshakeMismatch);
    }
    let mut proto: Vec<u8> = Vec::new();
    proto.push(66);
    proto.push(105);
    proto.push(116);
    proto.push(84);
    proto.push(111);
    proto.push(114);
    proto.push(114);
    proto.push(101);
    proto.push(110);
    proto.push(116);
    proto.push(32);
    proto.push(112);
    proto.push(114);
    proto.push(111);
    proto.push(116);
    proto.push(111);
    proto.push(99);
    proto.push(111);
    proto.push(108);
    proof {
        assert(proto@ =~= protocol_bytes());
    }
    let mut i: usize = 0;
    while i < 19
        invariant
            i <= 19,
            reply@.len() == 68,
            proto@ == protocol_bytes(),
            forall|j: int| 0 <= j < i ==> reply@[1 + j] == protocol_bytes()[j],
        decreases 19 - i,
    {
        if reply[1 + i] != proto[i] {
            proof {
                assert(reply@.subrange(1, 20)[i as int] != protocol_bytes()[i as int]);
            }
            return Err(ProtocolError::HandshakeMismatch);
        }
        i += 1;
    }
    proof {
        assert(reply@.subrange(1, 20) =~= protocol_bytes());
    }
    let mut k: usize = 0;
    while k < 20
        invariant
            k <= 20,
            reply@.len() == 68,
            info_hash@.len() == 20,
            forall|j: int| 0 <= j < k ==> reply@[28 + j] == info_hash@[j],
        decreases 20 - k,
    {
        if reply[28 + k] != info_hash[k] {
            proof {
                assert(reply@.subrange(28, 48)[k as int] != info_hash@[k as int]);
            }
            return Err(ProtocolError::HandshakeMismatch);
        }
        k += 1;
    }
    proof {
        assert(reply@.subrange(28, 48) =~= info_hash@);
    }
    let mut peer_id: Vec<u8> = Vec::new();
    let mut m: usize = 0;
    while m < 20
        invariant
            m <= 20,
            reply@.len() == 68,
            peer_id@ == reply@.subrange(48, 48 + m),
        decreases 20 - m,
    {
        peer_id.push(reply[48 + m]);
        m += 1;
        assert(peer_id@ =~= reply@.subrange(48, 48 + m));
    }
    let extensions = reply[25] & 16 != 0;
    Ok(HandshakeReply { peer_id, extensions })
}

/// The `interested` message: length one, id two.
pub fn interested_message() -> (r: Vec<u8>)
    ensures
        r@ == seq![0u8, 0u8, 0u8, 1u8, 2u8],
{
    let mut out: Vec<u8> = Vec::new();
    out.push(0);
    out.push(0);
    out.push(0);
    out.push(1);
    out.push(2);
    proof {
        assert(out@ =~= seq![0u8, 0u8, 0u8, 1u8, 2u8]);
    }
    out
}

/// A block request frame: length 13, id 6, then piece index, block offset
/// and block length, each big-endian.
pub open spec fn spec_piece_request(piece_index: u32, begin: u32, length: u32) -> Seq<u8> {
    seq![0u8, 0u8, 0u8, 13u8, 6u8] + spec_u32_to_be(piece_index) + spec_u32_to_be(begin)
        + spec_u32_to_be(length)
}

/// Builds the `request` frame for one block of one piece.
pub fn piece_request_message(piece_index: u32, begin: u32, length: u32) -> (r: Vec<u8>)
    ensures
        r@ == spec_piece_request(piece_index, begin, length),
        r@.len() == 17,
{
    let mut out: Vec<u8> = Vec::new();
    out.push(0);
    out.push(0);
    out.push(0);
    out.push(13);
    out.push(6);
    let mut a = u32_to_be(piece_index);
    out.append(&mut a);
    let mut b = u32_to_be(begin);
    out.append(&mut b);
    let mut c = u32_to_be(length);
    out.append(&mut c);
    proof {
        assert(out@ =~= spec_piece_request(piece_index, begin, length));
    }
    out
}

/// Reads a `piece` message body (id, piece index, block offset, block
/// bytes). Succeeds exactly on id seven with a body long enough to hold
/// the two fields.
pub fn parse_piece_message(msg: &[u8]) -> (r: Result<(u32, u32, Vec<u8>), ProtocolError>)
    ensures
        r is Ok <==> msg@.len() >= 9 && msg@[0] == 7,
        r matches Ok(p) ==> p.0 == spec_u32_from_be(msg@.subrange(1, 5)) && p.1
            == spec_u32_from_be(msg@.subrange(5, 9)) && p.2@ == msg@.skip(9),
        r matches Err(e) ==> e == ProtocolError::BadMessage,
{
    if msg.len() < 9 || msg[0] != 7 {
        return Err(ProtocolError::BadMessage);
    }
    let index = crate::u32_from_be(msg[1], msg[2], msg[3], msg[4]);
    let begin = crate::u32_from_be(msg[5], msg[6], msg[7], msg[8]);
    proof {
        assert(seq![msg@[1], msg@[2], msg@[3], msg@[4]] =~= msg@.subrange(1, 5));
        assert(seq![msg@[5], msg@[6], msg@[7], msg@[8]] =~= msg@.subrange(5, 9));
    }
    let mut block: Vec<u8> = Vec::new();
    let mut i: usize = 9;
    while i < msg.len()
        invariant
            9 <= i <= msg@.len(),
            block@ == msg@.subrange(9, i as int),
        decreases msg@.len() - i,
    {
        block.push(msg[i]);
        i += 1;
        assert(block@ =~= msg@.subrange(9, i as int));
    }
    proof {
        assert(block@ =~= msg@.skip(9));
    }
    Ok((index, begin, block))
}

/// The handshake dictionary of the extension protocol, with the local
/// `ut_metadata` message id under `m`.
pub struct ExtensionHandshakeDict {
    pub m: MDict,
}

/// The `m` dictionary of an extension handshake.
pub struct MDict {
    pub ut_metadata: u8,
}

/// The bencoded payload of the extension handshake this client sends:
/// `{m: {ut_metadata: 1}}`.
pub open spec fn ext_handshake_payload() -> Seq<u8> {
    seq![100u8, 49u8, 58u8, 109u8, 100u8, 49u8, 49u8, 58u8, 117u8, 116u8, 95u8, 109u8, 101u8, 116u8, 97u8, 100u8, 97u8, 116u8, 97u8, 105u8, 49u8, 101u8, 101u8, 101u8]
}

/// An extended frame: the payload length plus the two id bytes, big
/// endian, then id 20, then the extension id, then the payload.
pub open spec fn spec_extended_frame(ext_id: u8, payload: Seq<u8>) -> Seq<u8> {
    spec_u32_to_be((payload.len() + 2) as u32) + seq![20u8, ext_id] + payload
}

/// Builds the extension handshake frame, advertising local `ut_metadata`
/// id one.
pub fn extension_handshake_message() -> (r: Vec<u8>)
    ensures
        r@ == spec_extended_frame(0, ext_handshake_payload()),
{
    let mut out = u32_to_be(24 + 2);
    out.push(20);
    out.push(0);
    out.push(100);
    out.push(49);
    out.push(58);
    out.push(109);
    out.push(100);
    out.push(49);
    out.push(49);
    out.push(58);
    out.push(117);
    out.push(116);
    out.push(95);
    out.push(109);
    out.push(101);
    out.push(116);
    out.push(97);
    out.push(100);
    out.push(97);
    out.push(116);
    out.push(97);
    out.push(105);
    out.push(49);
    out.push(101);
    out.push(101);
    out.push(101);
    proof {
        assert(out@ =~= spec_extended_frame(0, ext_handshake_payload()));
    }
    out
}

/// A `ut_metadata` request or data header: message type, piece number,
/// and for data messages the total metadata size.
pub struct ExtensionRequestDict {
    pub msg_type: u32,
    pub piece: u32,
    pub total_size: Option<u32>,
}

/// The bencoded payload of a metadata request for piece zero:
/// `{msg_type: 0, piece: 0}`.
pub open spec fn ext_request_payload() -> Seq<u8> {
    seq![100u8, 56u8, 58u8, 109u8, 115u8, 103u8, 95u8, 116u8, 121u8, 112u8, 101u8, 105u8, 48u8, 101u8, 53u8, 58u8, 112u8, 105u8, 101u8, 99u8, 101u8, 105u8, 48u8, 101u8, 101u8]
}

/// Builds the metadata request frame, addressed to the remote peer's
/// advertised `ut_metadata` id.
pub fn extension_request_message(metadata_id: u8) -> (r: Vec<u8>)
    ensures
        r@ == spec_extended_frame(metadata_id, ext_request_payload()),
{
    let mut out = u32_to_be(25 + 2);
    out.push(20);
    out.push(metadata_id);
    out.push(100);
    out.push(56);
    out.push(58);
    out.push(109);
    out.push(115);
    out.push(103);
    out.push(95);
    out.push(116);
    out.push(121);
    out.push(112);
    out.push(101);
    out.push(105);
    out.push(48);
    out.push(101);
    out.push(53);
    out.push(58);
    out.push(112);
    out.push(105);
    out.push(101);
    out.push(99);
    out.push(101);
    out.push(105);
    out.push(48);
    out.push(101);
    out.push(101);
    proof {
        assert(out@ =~= spec_extended_frame(metadata_id, ext_request_payload()));
    }
    out
}

pub open spec fn key_m() -> Seq<u8> {
    seq![109u8]
}

pub open spec fn key_ut_metadata() -> Seq<u8> {
    seq![117u8, 116u8, 95u8, 109u8, 101u8, 116u8, 97u8, 100u8, 97u8, 116u8, 97u8]
}

/// A decoded extension handshake carries `d`: a dictionary `m` whose
/// `ut_metadata` entry is the remote message id.
pub open spec fn binds_ext_handshake(v: Bencode, d: ExtensionHandshakeDict) -> bool {
    &&& v matches Bencode::Dict(es)
    &&& spec_dict_get(v->Dict_0@, key_m()) matches Some(Bencode::Dict(md)) && spec_dict_get(
        md@,
        key_ut_metadata(),
    ) matches Some(Bencode::Int(n)) && n == d.m.ut_metadata
}

/// The payload is the encoding of some duplicate-free value carrying `d`.
pub open spec fn ext_handshake_parse_ok(payload: Seq<u8>, d: ExtensionHandshakeDict) -> bool {
    exists|v: Bencode|
        encoding(v) == payload && keys_unique(v) && #[trigger] binds_ext_handshake(v, d)
}

/// Values with the same observable structure bind the same handshake.
proof fn lemma_binds_ext_shape(a: Bencode, b: Bencode, d: ExtensionHandshakeDict)
    requires
        same_shape(a, b),
        binds_ext_handshake(a, d),
    ensures
        binds_ext_handshake(b, d),
{
    let x = a->Dict_0@;
    let y = b->Dict_0@;
    assert(b is Dict);
    assert forall|i: int| 0 <= i < x.len() implies (#[trigger] x[i].0@) == y[i].0@ by {}
    assert forall|i: int| 0 <= i < x.len() implies same_shape(#[trigger] x[i].1, y[i].1) by {
        assert(x[i].0@ == y[i].0@);
    }
    codec::lemma_dict_get_shape(x, y, key_m());
    match (spec_dict_get(x, key_m()), spec_dict_get(y, key_m())) {
        (Some(ma), Some(mb)) => {
            assert(same_shape(ma, mb));
            assert(mb is Dict);
            let mx = ma->Dict_0@;
            let my = mb->Dict_0@;
            assert forall|i: int| 0 <= i < mx.len() implies (#[trigger] mx[i].0@)
                == my[i].0@ by {}
            assert forall|i: int| 0 <= i < mx.len() implies same_shape(
                #[trigger] mx[i].1,
                my[i].1,
            ) by {
                assert(mx[i].0@ == my[i].0@);
            }
            codec::lemma_dict_get_shape(mx, my, key_ut_metadata());
        },
        _ => {
            assert(false);
        },
    }
}

/// Reads the remote `ut_metadata` id out of an extension handshake
/// payload (the bencoded dictionary after the two id bytes).
pub fn parse_extension_handshake(payload: &[u8]) -> (r: Result<
    ExtensionHandshakeDict,
    ProtocolError,
>)
    ensures
        r matches Ok(d) ==> ext_handshake_parse_ok(payload@, d),
        input_in_reach(payload@) && (exists|d: ExtensionHandshakeDict|
            #[trigger] ext_handshake_parse_ok(payload@, d)) ==> r is Ok,
{
    let ghost owed = input_in_reach(payload@) && (exists|d: ExtensionHandshakeDict|
        #[trigger] ext_handshake_parse_ok(payload@, d));
    let v = match codec::decode(payload) {
        Ok(v) => v,
        Err(e) => {
            proof {
                if owed {
                    let d0 = choose|d: ExtensionHandshakeDict|
                        #[trigger] ext_handshake_parse_ok(payload@, d);
                    let w = choose|w: Bencode|
                        encoding(w) == payload@ && keys_unique(w)
                            && #[trigger] binds_ext_handshake(w, d0);
                    assert(keys_unique(w) && encoding(w) == payload@);
                }
            }
            return Err(ProtocolError::Codec(e));
        },
    };
    proof {
        if owed {
            let d0 = choose|d: ExtensionHandshakeDict|
                #[trigger] ext_handshake_parse_ok(payload@, d);
            let w = choose|w: Bencode|
                encoding(w) == payload@ && keys_unique(w) && #[trigger] binds_ext_handshake(
                    w,
                    d0,
                );
            assert(payload@.subrange(0, encoding(w).len() as int) =~= encoding(w));
            assert(payload@.subrange(0, encoding(v).len() as int) =~= encoding(v));
            codec::lemma_encoding_inj(payload@, 0, w, v);
            lemma_binds_ext_shape(w, v, d0);
            assert(binds_ext_handshake(v, d0));
        }
    }
    let es = match &v {
        Bencode::Dict(es) => es,
        _ => {
            return Err(ProtocolError::BadMessage);
        },
    };
    let k_m: Vec<u8> = vec![109];
    let k_ut: Vec<u8> = vec![117, 116, 95, 109, 101, 116, 97, 100, 97, 116, 97];
    proof {
        assert(k_m@ =~= key_m());
        assert(k_ut@ =~= key_ut_metadata());
    }
    let md = match codec::dict_get(es, &k_m) {
        Some(Bencode::Dict(md)) => md,
        _ => {
            return Err(ProtocolError::BadMessage);
        },
    };
    let ut: u8 = match codec::dict_get(md, &k_ut) {
        Some(Bencode::Int(n)) => {
            if *n < 0 || *n > 255 {
                return Err(ProtocolError::BadMessage);
            }
            *n as u8
        },
        _ => {
            return Err(ProtocolError::BadMessage);
        },
    };
    let d = ExtensionHandshakeDict { m: MDict { ut_metadata: ut } };
    proof {
        assert(binds_ext_handshake(v, d));
        assert(ext_handshake_parse_ok(payload@, d));
    }
    Ok(d)
}


pub open spec fn key_msg_type() -> Seq<u8> {
    seq![109u8, 115u8, 103u8, 95u8, 116u8, 121u8, 112u8, 101u8]
}

pub open spec fn key_piece() -> Seq<u8> {
    seq![112u8, 105u8, 101u8, 99u8, 101u8]
}

pub open spec fn key_total_size() -> Seq<u8> {
    seq![116u8, 111u8, 116u8, 97u8, 108u8, 95u8, 115u8, 105u8, 122u8, 101u8]
}

/// A decoded metadata header carries `d`: its `msg_type` and `piece`
/// entries, and `total_size` exactly when the dictionary has one.
pub open spec fn binds_metadata_header(v: Bencode, d: ExtensionRequestDict) -> bool {
    &&& v matches Bencode::Dict(es)
    &&& spec_dict_get(v->Dict_0@, key_msg_type()) matches Some(Bencode::Int(n)) && n == d.msg_type
    &&& spec_dict_get(v->Dict_0@, key_piece()) matches Some(Bencode::Int(n)) && n == d.piece
    &&& match d.total_size {
        Some(t) => spec_dict_get(v->Dict_0@, key_total_size()) matches Some(Bencode::Int(n)) && n
            == t,
        None => !(spec_dict_get(v->Dict_0@, key_total_size()) matches Some(Bencode::Int(_))),
    }
}

/// The payload starts with the encoding of a duplicate-free value
/// carrying `d`, and the rest of it is `tail`.
pub open spec fn metadata_reply_ok(payload: Seq<u8>, d: ExtensionRequestDict, tail: Seq<u8>) -> bool {
    exists|v: Bencode, n: int|
        #![trigger binds_metadata_header(v, d), payload.subrange(0, n)]
        0 < n <= payload.len() && encoding(v) == payload.subrange(0, n) && keys_unique(v)
            && payload.skip(n) == tail && binds_metadata_header(v, d)
}

/// Values with the same observable structure bind the same header.
proof fn lemma_binds_meta_shape(a: Bencode, b: Bencode, d: ExtensionRequestDict)
    requires
        same_shape(a, b),
        binds_metadata_header(a, d),
    ensures
        binds_metadata_header(b, d),
{
    let x = a->Dict_0@;
    let y = b->Dict_0@;
    assert(b is Dict);
    assert forall|i: int| 0 <= i < x.len() implies (#[trigger] x[i].0@) == y[i].0@ by {}
    assert forall|i: int| 0 <= i < x.len() implies same_shape(#[trigger] x[i].1, y[i].1) by {
        assert(x[i].0@ == y[i].0@);
    }
    codec::lemma_dict_get_shape(x, y, key_msg_type());
    codec::lemma_dict_get_shape(x, y, key_piece());
    codec::lemma_dict_get_shape(x, y, key_total_size());
    if d.total_size is None {
        match (spec_dict_get(x, key_total_size()), spec_dict_get(y, key_total_size())) {
            (Some(ax), Some(ay)) => {
                assert(same_shape(ax, ay));
                if ay is Int {
                    assert(ax is Int);
                }
            },
            _ => {},
        }
    }
}

/// Splits a `ut_metadata` data payload (after the two id bytes) into its
/// bencoded header and the raw metadata chunk appended after it.
pub fn parse_metadata_reply(payload: &[u8]) -> (r: Result<(ExtensionRequestDict, Vec<u8>), ProtocolError>)
    ensures
        r matches Ok(p) ==> metadata_reply_ok(payload@, p.0, p.1@),
        input_in_reach(payload@) && (exists|d: ExtensionRequestDict, t: Seq<u8>|
            #[trigger] metadata_reply_ok(payload@, d, t)) ==> r is Ok,
{
    let ghost owed = input_in_reach(payload@) && (exists|d: ExtensionRequestDict, t: Seq<u8>|
        #[trigger] metadata_reply_ok(payload@, d, t));
    proof {
        if owed {
            let (d0, t0) = choose|d: ExtensionRequestDict, t: Seq<u8>|
                #[trigger] metadata_reply_ok(payload@, d, t);
            let (w, n0) = choose|v: Bencode, n: int|
                #![trigger binds_metadata_header(v, d0), payload@.subrange(0, n)]
                0 < n <= payload@.len() && encoding(v) == payload@.subrange(0, n)
                    && keys_unique(v) && payload@.skip(n) == t0 && binds_metadata_header(v, d0);
            assert(0 < n0 <= payload@.len() && encoding(w) == payload@.subrange(0, n0)
                && keys_unique(w));
        }
    }
    let (v, used) = match codec::decode_prefix(payload) {
        Ok(p) => p,
        Err(e) => {
            return Err(ProtocolError::Codec(e));
        },
    };
    proof {
        if owed {
            let (d0, t0) = choose|d: ExtensionRequestDict, t: Seq<u8>|
                #[trigger] metadata_reply_ok(payload@, d, t);
            let (w, n0) = choose|v2: Bencode, n: int|
                #![trigger binds_metadata_header(v2, d0), payload@.subrange(0, n)]
                0 < n <= payload@.len() && encoding(v2) == payload@.subrange(0, n)
                    && keys_unique(v2) && payload@.skip(n) == t0 && binds_metadata_header(v2, d0);
            assert(encoding(w).len() == n0);
            assert(payload@.subrange(0, encoding(w).len() as int) =~= encoding(w));
            assert(payload@.subrange(0, encoding(v).len() as int) =~= encoding(v));
            codec::lemma_encoding_inj(payload@, 0, w, v);
            lemma_binds_meta_shape(w, v, d0);
            assert(binds_metadata_header(v, d0));
        }
    }
    let es = match &v {
        Bencode::Dict(es) => es,
        _ => {
            return Err(ProtocolError::BadMessage);
        },
    };
    let k_msg_type: Vec<u8> = vec![109, 115, 103, 95, 116, 121, 112, 101];
    let k_piece: Vec<u8> = vec![112, 105, 101, 99, 101];
    let k_total_size: Vec<u8> = vec![116, 111, 116, 97, 108, 95, 115, 105, 122, 101];
    proof {
        assert(k_msg_type@ =~= key_msg_type());
        assert(k_piece@ =~= key_piece());
        assert(k_total_size@ =~= key_total_size());
    }
    let msg_type: u32 = match codec::dict_get(es, &k_msg_type) {
        Some(Bencode::Int(n)) => {
            if *n < 0 || *n > 0xFFFF_FFFF {
                return Err(ProtocolError::BadMessage);
            }
            *n as u32
        },
        _ => {
            return Err(ProtocolError::BadMessage);
        },
    };
    let piece: u32 = match codec::dict_get(es, &k_piece) {
        Some(Bencode::Int(n)) => {
            if *n < 0 || *n > 0xFFFF_FFFF {
                return Err(ProtocolError::BadMessage);
            }
            *n as u32
        },
        _ => {
            return Err(ProtocolError::BadMessage);
        },
    };
    let total_size: Option<u32> = match codec::dict_get(es, &k_total_size) {
        Some(Bencode::Int(n)) => {
            if *n < 0 || *n > 0xFFFF_FFFF {
                return Err(ProtocolError::BadMessage);
            }
            Some(*n as u32)
        },
        _ => None,
    };
    let mut tail: Vec<u8> = Vec::new();
    let mut i: usize = used;
    while i < payload.len()
        invariant
            used <= i <= payload@.len(),
            tail@ == payload@.subrange(used as int, i as int),
        decreases payload@.len() - i,
    {
        tail.push(payload[i]);
        i += 1;
        assert(tail@ =~= payload@.subrange(used as int, i as int));
    }
    let d = ExtensionRequestDict { msg_type, piece, total_size };
    proof {
        assert(tail@ =~= payload@.skip(used as int));
        assert(binds_metadata_header(v, d));
        assert(metadata_reply_ok(payload@, d, tail@));
    }
    Ok((d, tail))
}

} // verus!
