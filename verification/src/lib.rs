//! Core of a BitTorrent client: bencode codec, metainfo and magnet models,
//! tracker helpers, peer-wire message framing, piece assembly and the
//! download planner. All logic is verified; network and file I/O live in
//! the surrounding application.
use vstd::prelude::*;

pub mod ascii;
pub mod codec;
pub mod hashing;
pub mod magnet;
pub mod message;
pub mod peer;
pub mod planner;
pub mod session;
pub mod torrent;
pub mod tracker;

verus! {

/// Big-endian reading of four bytes, the byte order of the peer wire protocol.
pub open spec fn spec_u32_from_be(b: Seq<u8>) -> u32
    recommends
        b.len() == 4,
{
    ((b[0] as u32) << 24u32) | ((b[1] as u32) << 16u32) | ((b[2] as u32) << 8u32) | (b[3] as u32)
}

/// The four big-endian bytes of `x`, most significant first.
pub open spec fn spec_u32_to_be(x: u32) -> Seq<u8> {
    seq![
        (x >> 24u32) as u8,
        ((x >> 16u32) & 0xFF) as u8,
        ((x >> 8u32) & 0xFF) as u8,
        (x & 0xFF) as u8,
    ]
}

pub fn u32_from_be(b0: u8, b1: u8, b2: u8, b3: u8) -> (x: u32)
    ensures
        x == spec_u32_from_be(seq![b0, b1, b2, b3]),
{
    ((b0 as u32) << 24u32) | ((b1 as u32) << 16u32) | ((b2 as u32) << 8u32) | (b3 as u32)
}

pub fn u32_to_be(x: u32) -> (b: Vec<u8>)
    ensures
        b@ == spec_u32_to_be(x),
        b@.len() == 4,
{
    let mut v: Vec<u8> = Vec::new();
    v.push((x >> 24u32) as u8);
    v.push(((x >> 16u32) & 0xFF) as u8);
    v.push(((x >> 8u32) & 0xFF) as u8);
    v.push((x & 0xFF) as u8);
    proof {
        assert(v@ =~= spec_u32_to_be(x));
    }
    v
}

/// Writing the four big-endian bytes of `x` and reading them back gives `x`.
pub proof fn lemma_u32_be_round_trip(x: u32)
    ensures
        spec_u32_from_be(spec_u32_to_be(x)) == x,
{
    assert((((x >> 24u32) as u8 as u32) << 24u32) | ((((x >> 16u32) & 0xFF) as u8 as u32)
        << 16u32) | ((((x >> 8u32) & 0xFF) as u8 as u32) << 8u32) | ((x & 0xFF) as u8 as u32)
        == x) by (bit_vector);
}

} // verus!
