//! Tracker client helpers: percent-encoding of binary query values, the
//! announce URL, and the compact peer list.
use vstd::prelude::*;

use crate::ascii;
use crate::ascii::{all_ascii, ascii_chars_of};
use crate::codec;
use crate::codec::{
    Bencode, CodecError, encoding, spec_dict_get, spec_dec_digits, same_shape, keys_unique,
    input_in_reach,
};

verus! {

broadcast use vstd::std_specs::vec::group_vec_axioms, vstd::seq::group_seq_axioms;

/// A tracker response that cannot be used: not bencoded (`Codec`), not the
/// expected dictionary (`Shape`), or a compact peer blob whose length is
/// not a multiple of six (`NotCompact`).
#[derive(Debug, Clone, Copy, PartialEq, Eq, Structural)]
pub enum TrackerError {
    Codec(CodecError),
    Shape,
    NotCompact,
}

/// An IPv4 peer endpoint from the tracker's compact peer list.
#[derive(Debug, Clone, Copy, PartialEq, Eq, Structural)]
pub struct PeerAddress {
    pub ip0: u8,
    pub ip1: u8,
    pub ip2: u8,
    pub ip3: u8,
    pub port: u16,
}

/// What a tracker answered: the poll interval and the peer list.
#[derive(Debug, Clone, PartialEq, Eq)]
pub struct TrackerResponse {
    pub interval: i64,
    pub peers: Vec<PeerAddress>,
}

/// The address encoded by the `i`-th six-byte record of a compact blob:
/// four IP octets, then a big-endian port.
pub open spec fn spec_peer_at(b: Seq<u8>, i: int) -> PeerAddress {
    PeerAddress {
        ip0: b[6 * i],
        ip1: b[6 * i + 1],
        ip2: b[6 * i + 2],
        ip3: b[6 * i + 3],
        port: (b[6 * i + 4] as u16 * 256 + b[6 * i + 5] as u16) as u16,
    }
}

/// Decodes a compact peer blob. Succeeds exactly when the length is a
/// multiple of six, and then yields one address per six-byte record.
pub fn parse_compact_peers(b: &[u8]) -> (r: Result<Vec<PeerAddress>, TrackerError>)
    ensures
        r is Ok <==> b@.len() % 6 == 0,
        r matches Ok(v) ==> v@.len() == b@.len() / 6 && forall|i: int|
            0 <= i < v@.len() ==> v@[i] == spec_peer_at(b@, i),
        r is Err ==> r == Err::<Vec<PeerAddress>, TrackerError>(TrackerError::NotCompact),
{
    if b.len() % 6 != 0 {
        return Err(TrackerError::NotCompact);
    }
    let n = b.len() / 6;
    proof {
        vstd::arithmetic::div_mod::lemma_fundamental_div_mod(b@.len() as int, 6);
    }
    let mut peers: Vec<PeerAddress> = Vec::new();
    let mut i: usize = 0;
    while i < n
        invariant
            i <= n,
            n == b@.len() / 6,
            b@.len() % 6 == 0,
            peers@.len() == i,
            b@.len() == 6 * n,
            b@.len() <= usize::MAX,
            forall|j: int| 0 <= j < i ==> peers@[j] == spec_peer_at(b@, j),
        decreases n - i,
    {
        let base = 6 * i;
        let p = PeerAddress {
            ip0: b[base],
            ip1: b[base + 1],
            ip2: b[base + 2],
            ip3: b[base + 3],
            port: b[base + 4] as u16 * 256 + b[base + 5] as u16,
        };
        peers.push(p);
        i += 1;
    }
    Ok(peers)
}

/// The upper-case hexadecimal digit of a value below sixteen, as ASCII.
pub open spec fn hex_upper(n: u8) -> u8 {
    if n < 10 {
        (48 + n) as u8
    } else {
        (55 + n) as u8
    }
}

/// `%HH` percent-encoding of every byte, upper-case hex, as ASCII bytes.
pub open spec fn spec_percent_bytes(s: Seq<u8>) -> Seq<u8>
    decreases s.len(),
{
    if s.len() == 0 {
        Seq::empty()
    } else {
        spec_percent_bytes(s.drop_last()) + seq![37u8, hex_upper(s.last() / 16), hex_upper(
            s.last() % 16,
        )]
    }
}

/// Appends the `%HH` escape of every byte of `data` to `out`.
fn push_percent(data: &[u8], out: &mut Vec<u8>)
    ensures
        final(out)@ == old(out)@ + spec_percent_bytes(data@),
{
    let mut i: usize = 0;
    proof {
        assert(data@.take(0) =~= Seq::<u8>::empty());
    }
    while i < data.len()
        invariant
            i <= data@.len(),
            out@ == old(out)@ + spec_percent_bytes(data@.take(i as int)),
        decreases data@.len() - i,
    {
        let b = data[i];
        out.push(37);
        let hi = b / 16;
        let lo = b % 16;
        out.push(if hi < 10 { 48 + hi } else { 55 + hi });
        out.push(if lo < 10 { 48 + lo } else { 55 + lo });
        i += 1;
        proof {
            assert(data@.take(i as int).drop_last() =~= data@.take(i - 1));
            assert(data@.take(i as int).last() == data@[i - 1]);
            assert(out@ =~= old(out)@ + spec_percent_bytes(data@.take(i as int)));
        }
    }
    proof {
        assert(data@.take(data@.len() as int) =~= data@);
    }
}

/// Every byte of a tracker request is escaped, byte by byte, as `%HH` with
/// upper-case hex digits.
pub fn encode_percent(data: &[u8]) -> (r: String)
    ensures
        r@ == ascii_chars_of(spec_percent_bytes(data@)),
{
    let mut out: Vec<u8> = Vec::new();
    push_percent(data, &mut out);
    proof {
        lemma_percent_bytes_ascii(data@);
    }
    ascii::ascii_to_string(out)
}

/// Percent-encoded bytes are ASCII.
proof fn lemma_percent_bytes_ascii(s: Seq<u8>)
    ensures
        all_ascii(spec_percent_bytes(s)),
    decreases s.len(),
{
    if s.len() > 0 {
        lemma_percent_bytes_ascii(s.drop_last());
    }
}

pub open spec fn lit_info_hash() -> Seq<u8> {
    seq![63u8, 105u8, 110u8, 102u8, 111u8, 95u8, 104u8, 97u8, 115u8, 104u8, 61u8]
}

pub open spec fn lit_peer_id() -> Seq<u8> {
    seq![38u8, 112u8, 101u8, 101u8, 114u8, 95u8, 105u8, 100u8, 61u8]
}

pub open spec fn lit_fixed_params() -> Seq<u8> {
    seq![38u8, 112u8, 111u8, 114u8, 116u8, 61u8, 54u8, 56u8, 56u8, 49u8, 38u8, 117u8, 112u8, 108u8, 111u8, 97u8, 100u8, 101u8, 100u8, 61u8, 48u8, 38u8, 100u8, 111u8, 119u8, 110u8, 108u8, 111u8, 97u8, 100u8, 101u8, 100u8, 61u8, 48u8, 38u8, 108u8, 101u8, 102u8, 116u8, 61u8]
}

pub open spec fn lit_compact() -> Seq<u8> {
    seq![38u8, 99u8, 111u8, 109u8, 112u8, 97u8, 99u8, 116u8, 61u8, 49u8]
}

/// The whole announce request: the tracker URL, then `info_hash` and
/// `peer_id` percent-encoded byte by byte, the fixed parameters
/// `port=6881`, `uploaded=0`, `downloaded=0`, the remaining byte count,
/// and `compact=1`.
pub open spec fn spec_track_request(
    announce: Seq<u8>,
    info_hash: Seq<u8>,
    peer_id: Seq<u8>,
    left: u64,
) -> Seq<u8> {
    announce + lit_info_hash() + spec_percent_bytes(info_hash) + lit_peer_id()
        + spec_percent_bytes(peer_id) + lit_fixed_params() + spec_dec_digits(left as nat)
        + lit_compact()
}

/// Builds the GET request line for a tracker announce, as ASCII bytes.
#[verifier::rlimit(90)]
pub fn track_request_url(
    announce: &[u8],
    info_hash: &[u8],
    peer_id: &[u8],
    left: u64,
) -> (r: Vec<u8>)
    ensures
        r@ == spec_track_request(announce@, info_hash@, peer_id@, left),
{
    let mut out: Vec<u8> = Vec::new();
    let mut i: usize = 0;
    while i < announce.len()
        invariant
            i <= announce@.len(),
            out@ == announce@.subrange(0, i as int),
        decreases announce@.len() - i,
    {
        out.push(announce[i]);
        i += 1;
        assert(out@ =~= announce@.subrange(0, i as int));
    }
    proof {
        assert(announce@.subrange(0, announce@.len() as int) =~= announce@);
    }
    out.push(63);
    out.push(105);
    out.push(110);
    out.push(102);
    out.push(111);
    out.push(95);
    out.push(104);
    out.push(97);
    out.push(115);
    out.push(104);
    out.push(61);
    proof {
        assert(out@ =~= announce@ + lit_info_hash());
    }
    push_percent(info_hash, &mut out);
    out.push(38);
    out.push(112);
    out.push(101);
    out.push(101);
    out.push(114);
    out.push(95);
    out.push(105);
    out.push(100);
    out.push(61);
    proof {
        assert(out@ =~= announce@ + lit_info_hash() + spec_percent_bytes(info_hash@)
            + lit_peer_id());
    }
    push_percent(peer_id, &mut out);
    out.push(38);
    out.push(112);
    out.push(111);
    out.push(114);
    out.push(116);
    out.push(61);
    out.push(54);
    out.push(56);
    out.push(56);
    out.push(49);
    out.push(38);
    out.push(117);
    out.push(112);
    out.push(108);
    out.push(111);
    out.push(97);
    out.push(100);
    out.push(101);
    out.push(100);
    out.push(61);
    out.push(48);
    out.push(38);
    out.push(100);
    out.push(111);
    out.push(119);
    out.push(110);
    out.push(108);
    out.push(111);
    out.push(97);
    out.push(100);
    out.push(101);
    out.push(100);
    out.push(61);
    out.push(48);
    out.push(38);
    out.push(108);
    out.push(101);
    out.push(102);
    out.push(116);
    out.push(61);
    proof {
        assert(out@ =~= announce@ + lit_info_hash() + spec_percent_bytes(info_hash@)
            + lit_peer_id() + spec_percent_bytes(peer_id@) + lit_fixed_params());
    }
    codec::push_decimal(left, &mut out);
    out.push(38);
    out.push(99);
    out.push(111);
    out.push(109);
    out.push(112);
    out.push(97);
    out.push(99);
    out.push(116);
    out.push(61);
    out.push(49);
    proof {
        assert(out@ =~= spec_track_request(announce@, info_hash@, peer_id@, left));
    }
    out
}

/// A decoded tracker answer carries `tr`: the poll interval under
/// `interval` and the compact peer records under `peers`.
pub open spec fn binds_tracker(v: Bencode, tr: TrackerResponse) -> bool {
    &&& v matches Bencode::Dict(es)
    &&& spec_dict_get(v->Dict_0@, key_interval()) matches Some(Bencode::Int(n)) && n == tr.interval
    &&& spec_dict_get(v->Dict_0@, key_peers()) matches Some(Bencode::Bytes(pb)) && pb@.len() % 6
        == 0 && tr.peers@.len() == pb@.len() / 6 && forall|i: int|
        0 <= i < tr.peers@.len() ==> tr.peers@[i] == spec_peer_at(pb@, i)
}

pub open spec fn key_interval() -> Seq<u8> {
    seq![105u8, 110u8, 116u8, 101u8, 114u8, 118u8, 97u8, 108u8]
}

pub open spec fn key_peers() -> Seq<u8> {
    seq![112u8, 101u8, 101u8, 114u8, 115u8]
}

/// The input is the encoding of some duplicate-free value carrying `tr`.
pub open spec fn tracker_parse_ok(input: Seq<u8>, tr: TrackerResponse) -> bool {
    exists|v: Bencode| encoding(v) == input && keys_unique(v) && #[trigger] binds_tracker(v, tr)
}

/// Values with the same observable structure bind the same response.
proof fn lemma_binds_tracker_shape(a: Bencode, b: Bencode, tr: TrackerResponse)
    requires
        same_shape(a, b),
        binds_tracker(a, tr),
    ensures
        binds_tracker(b, tr),
{
    let x = a->Dict_0@;
    let y = b->Dict_0@;
    assert(b is Dict);
    assert forall|i: int| 0 <= i < x.len() implies (#[trigger] x[i].0@) == y[i].0@ by {}
    assert forall|i: int| 0 <= i < x.len() implies same_shape(#[trigger] x[i].1, y[i].1) by {
        assert(x[i].0@ == y[i].0@);
    }
    codec::lemma_dict_get_shape(x, y, key_interval());
    codec::lemma_dict_get_shape(x, y, key_peers());
}

/// Parses a bencoded tracker response: a dictionary with an integer
/// `interval` and a compact `peers` byte string.
pub fn parse_tracker_response(input: &[u8]) -> (r: Result<TrackerResponse, TrackerError>)
    ensures
        r matches Ok(tr) ==> tracker_parse_ok(input@, tr),
        input_in_reach(input@) && (exists|tr: TrackerResponse|
            #[trigger] tracker_parse_ok(input@, tr)) ==> r is Ok,
{
    let ghost owed = input_in_reach(input@) && (exists|tr: TrackerResponse|
        #[trigger] tracker_parse_ok(input@, tr));
    let v = match codec::decode(input) {
        Ok(v) => v,
        Err(e) => {
            proof {
                if owed {
                    let tr0 = choose|tr: TrackerResponse| #[trigger] tracker_parse_ok(input@, tr);
                    let w = choose|w: Bencode|
                        encoding(w) == input@ && keys_unique(w) && #[trigger] binds_tracker(
                            w,
                            tr0,
                        );
                    assert(keys_unique(w) && encoding(w) == input@);
                }
            }
            return Err(TrackerError::Codec(e));
        },
    };
    proof {
        if owed {
            let tr0 = choose|tr: TrackerResponse| #[trigger] tracker_parse_ok(input@, tr);
            let w = choose|w: Bencode|
                encoding(w) == input@ && keys_unique(w) && #[trigger] binds_tracker(w, tr0);
            assert(input@.subrange(0, encoding(w).len() as int) =~= encoding(w));
            assert(input@.subrange(0, encoding(v).len() as int) =~= encoding(v));
            codec::lemma_encoding_inj(input@, 0, w, v);
            lemma_binds_tracker_shape(w, v, tr0);
            assert(binds_tracker(v, tr0));
        }
    }
    let es = match &v {
        Bencode::Dict(es) => es,
        _ => {
            return Err(TrackerError::Shape);
        },
    };
    let k_interval: Vec<u8> = vec![105, 110, 116, 101, 114, 118, 97, 108];
    let k_peers: Vec<u8> = vec![112, 101, 101, 114, 115];
    proof {
        assert(k_interval@ =~= key_interval());
        assert(k_peers@ =~= key_peers());
    }
    let interval: i64 = match codec::dict_get(es, &k_interval) {
        Some(Bencode::Int(n)) => *n,
        _ => {
            return Err(TrackerError::Shape);
        },
    };
    let peers = match codec::dict_get(es, &k_peers) {
        Some(Bencode::Bytes(pb)) => match parse_compact_peers(pb.as_slice()) {
            Ok(peers) => peers,
            Err(e) => {
                return Err(e);
            },
        },
        _ => {
            return Err(TrackerError::Shape);
        },
    };
    let tr = TrackerResponse { interval, peers };
    proof {
        assert(binds_tracker(v, tr));
        assert(tracker_parse_ok(input@, tr));
    }
    Ok(tr)
}

} // verus!
