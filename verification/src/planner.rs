//! Download planning: partitioning the pieces of a torrent into
//! contiguous ranges, one per peer, and the file offset each piece is
//! written at.
use vstd::prelude::*;

use crate::torrent::TorrentInfo;

verus! {

/// Pieces per peer: `ceil(piece_num / peer_num)`.
pub open spec fn spec_per_peer(piece_num: int, peer_num: int) -> int {
    (piece_num + peer_num - 1) / peer_num
}

/// The piece range of peer `k`: `[k * per_peer, (k + 1) * per_peer)`,
/// clamped to the piece count.
pub open spec fn spec_peer_range(piece_num: int, peer_num: int, k: int) -> (int, int) {
    let per = spec_per_peer(piece_num, peer_num);
    (
        if k * per < piece_num {
            k * per
        } else {
            piece_num
        },
        if (k + 1) * per < piece_num {
            (k + 1) * per
        } else {
            piece_num
        },
    )
}

pub fn per_peer_count(piece_num: usize, peer_num: usize) -> (r: usize)
    requires
        0 < peer_num,
        piece_num + peer_num <= usize::MAX,
    ensures
        r == spec_per_peer(piece_num as int, peer_num as int),
{
    (piece_num + peer_num - 1) / peer_num
}

/// The contiguous piece range assigned to peer `k`.
pub fn peer_piece_range(piece_num: usize, peer_num: usize, k: usize) -> (r: (usize, usize))
    requires
        0 < peer_num,
        k < peer_num,
        piece_num + peer_num <= usize::MAX,
    ensures
        (r.0 as int, r.1 as int) == spec_peer_range(piece_num as int, peer_num as int, k as int),
        r.0 <= r.1 <= piece_num,
{
    let per = per_peer_count(piece_num, peer_num);
    proof {
        lemma_per_peer_covers(piece_num as int, peer_num as int);
        let p = per as int;
        let ki = k as int;
        assert(ki * p <= (ki + 1) * p && (ki + 1) * p <= peer_num as int * p) by (nonlinear_arith)
            requires
                0 <= ki < peer_num as int,
                0 <= p,
        ;
    }
    let start = if k * per < piece_num {
        k * per
    } else {
        piece_num
    };
    let end = if (k + 1) * per < piece_num {
        (k + 1) * per
    } else {
        piece_num
    };
    (start, end)
}

/// `peer_num * per_peer` reaches every piece, and is below
/// `piece_num + peer_num`.
proof fn lemma_per_peer_covers(piece_num: int, peer_num: int)
    requires
        0 < peer_num,
        0 <= piece_num,
    ensures
        piece_num <= peer_num * spec_per_peer(piece_num, peer_num),
        peer_num * spec_per_peer(piece_num, peer_num) < piece_num + peer_num,
        0 <= spec_per_peer(piece_num, peer_num),
{
    let per = spec_per_peer(piece_num, peer_num);
    assert(piece_num <= peer_num * per && peer_num * per < piece_num + peer_num && 0 <= per)
        by (nonlinear_arith)
        requires
            0 < peer_num,
            0 <= piece_num,
            per == (piece_num + peer_num - 1) / peer_num,
    ;
}

/// Every piece falls in the range of exactly one peer: peer `p / per_peer`
/// holds it, and the ranges of two different peers never share a piece.
pub proof fn lemma_partition(piece_num: int, peer_num: int, p: int)
    requires
        0 < peer_num,
        0 <= p < piece_num,
    ensures
        ({
            let k = p / spec_per_peer(piece_num, peer_num);
            &&& 0 <= k < peer_num
            &&& spec_peer_range(piece_num, peer_num, k).0 <= p < spec_peer_range(
                piece_num,
                peer_num,
                k,
            ).1
        }),
{
    let per = spec_per_peer(piece_num, peer_num);
    lemma_per_peer_covers(piece_num, peer_num);
    assert(0 < per) by (nonlinear_arith)
        requires
            0 < peer_num,
            0 < piece_num,
            per == (piece_num + peer_num - 1) / peer_num,
    ;
    let k = p / per;
    assert(k * per <= p < (k + 1) * per && 0 <= k) by (nonlinear_arith)
        requires
            0 < per,
            0 <= p,
            k == p / per,
    ;
    assert(k < peer_num) by (nonlinear_arith)
        requires
            0 < per,
            0 < peer_num,
            k * per <= p,
            p < piece_num,
            piece_num <= peer_num * per,
            0 <= k,
    ;
}

/// Two different peers are never assigned the same piece.
pub proof fn lemma_partition_disjoint(piece_num: int, peer_num: int, k1: int, k2: int, p: int)
    requires
        0 < peer_num,
        0 <= piece_num,
        0 <= k1 < peer_num,
        0 <= k2 < peer_num,
        spec_peer_range(piece_num, peer_num, k1).0 <= p < spec_peer_range(piece_num, peer_num, k1).1,
        spec_peer_range(piece_num, peer_num, k2).0 <= p < spec_peer_range(piece_num, peer_num, k2).1,
    ensures
        k1 == k2,
{
    let per = spec_per_peer(piece_num, peer_num);
    assert(0 <= per) by (nonlinear_arith)
        requires
            0 < peer_num,
            0 <= piece_num,
            per == (piece_num + peer_num - 1) / peer_num,
    ;
    assert(p < piece_num);
    assert(k1 * per <= p < (k1 + 1) * per);
    assert(k2 * per <= p < (k2 + 1) * per);
    assert(k1 == k2) by (nonlinear_arith)
        requires
            0 <= per,
            k1 * per <= p < (k1 + 1) * per,
            k2 * per <= p < (k2 + 1) * per,
    ;
}

/// The file offset a piece is written at: `piece_index * piece_length`.
pub fn piece_offset(piece_index: u32, piece_length: u32) -> (r: u64)
    ensures
        r == piece_index as int * piece_length as int,
{
    proof {
        assert(piece_index as int * piece_length as int <= 0xFFFF_FFFFi64 * 0xFFFF_FFFFi64)
            by (nonlinear_arith)
            requires
                piece_index <= 0xFFFF_FFFFu32,
                piece_length <= 0xFFFF_FFFFu32,
        ;
    }
    piece_index as u64 * piece_length as u64
}

/// Consecutive pieces tile the file: each piece ends where the next one
/// begins, and the last ends exactly at the file length.
pub proof fn lemma_piece_tiling(info: TorrentInfo, p: int)
    requires
        info.wf(),
        0 <= p < info.spec_piece_count(),
    ensures
        p < info.spec_piece_count() - 1 ==> p * (info.piece_length as int) + info.spec_piece_len(p)
            == (p + 1) * (info.piece_length as int),
        p == info.spec_piece_count() - 1 ==> p * (info.piece_length as int) + info.spec_piece_len(
            p,
        ) == info.length as int,
{
    let pl = info.piece_length as int;
    assert((p + 1) * pl == p * pl + pl) by (nonlinear_arith);
}

} // verus!
