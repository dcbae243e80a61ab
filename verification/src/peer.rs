//! A peer to download from: its address, the torrent it serves, and the
//! randomly drawn local peer id.
use vstd::prelude::*;

use crate::torrent::TorrentFile;
use crate::tracker::PeerAddress;

verus! {

/// One remote peer together with the torrent being fetched from it.
pub struct Peer {
    pub peer_addr: PeerAddress,
    pub torrent: TorrentFile,
}

/// Relies on rand::random: one random byte; nothing is promised of its
/// value.
#[verifier::external_body]
fn random_byte() -> u8 {
    rand::random::<u8>()
}

impl Peer {
    pub fn new(peer_addr: PeerAddress, torrent: TorrentFile) -> (p: Self)
        ensures
            p.peer_addr == peer_addr,
            p.torrent == torrent,
    {
        Peer { peer_addr, torrent }
    }

    /// Draws a fresh 20-byte peer id. Each session uses its own.
    pub fn gen_peer_id() -> (r: Vec<u8>)
        ensures
            r@.len() == 20,
    {
        let mut id: Vec<u8> = Vec::new();
        let mut i: usize = 0;
        while i < 20
            invariant
                id@.len() == i <= 20,
            decreases 20 - i,
        {
            id.push(random_byte());
            i += 1;
        }
        id
    }
}

} // verus!
