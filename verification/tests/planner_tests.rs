use btcore::planner::{peer_piece_range, per_peer_count, piece_offset};

#[test]
fn pieces_partitioned_across_peers() {
    // three pieces over two peers: peer zero gets {0, 1}, peer one gets {2}
    assert_eq!(per_peer_count(3, 2), 2);
    assert_eq!(peer_piece_range(3, 2, 0), (0, 2));
    assert_eq!(peer_piece_range(3, 2, 1), (2, 3));
}

#[test]
fn partition_covers_every_piece_once() {
    for (pieces, peers) in [(1usize, 1usize), (3, 2), (10, 3), (5, 8), (7, 7)] {
        let mut seen = vec![0u32; pieces];
        for k in 0..peers {
            let (start, end) = peer_piece_range(pieces, peers, k);
            for p in start..end {
                seen[p] += 1;
            }
        }
        assert!(seen.iter().all(|&c| c == 1));
    }
}

#[test]
fn more_peers_than_pieces() {
    assert_eq!(per_peer_count(1, 4), 1);
    assert_eq!(peer_piece_range(1, 4, 0), (0, 1));
    assert_eq!(peer_piece_range(1, 4, 1), (1, 1));
    assert_eq!(peer_piece_range(1, 4, 3), (1, 1));
}

#[test]
fn piece_offsets() {
    assert_eq!(piece_offset(0, 32768), 0);
    assert_eq!(piece_offset(2, 32768), 65536);
    assert_eq!(piece_offset(0xFFFF_FFFF, 0xFFFF_FFFF), 0xFFFF_FFFFu64 * 0xFFFF_FFFFu64);
}
