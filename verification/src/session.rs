//! One peer session's verified core: block accounting for a piece being
//! assembled, and the protocol state machine that decides what to do on
//! each incoming message. The surrounding application performs the socket
//! reads and writes and feeds events back in.
use vstd::prelude::*;

use crate::hashing;
use crate::hashing::sha1_of;
use crate::message::ProtocolError;

verus! {

broadcast use vstd::std_specs::vec::group_vec_axioms, vstd::seq::group_seq_axioms;

/// An assembled piece whose SHA-1 does not match the pieces table.
#[derive(Debug, Clone, Copy, PartialEq, Eq, Structural)]
pub enum ValidationError {
    HashMismatch,
}

/// Blocks are requested and delivered in 16 KiB units.
pub const BLOCK_SIZE: u32 = 16384;

/// Number of blocks of a piece of real length `piece_len`.
pub open spec fn spec_block_count(piece_len: u32) -> int {
    (piece_len as int + 16383) / 16384
}

/// Real length of block `b`: the block size for all but the last block,
/// the remainder for the last.
pub open spec fn spec_block_len(piece_len: u32, b: int) -> int {
    if piece_len as int - b * 16384 < 16384 {
        piece_len as int - b * 16384
    } else {
        16384
    }
}

pub fn block_count(piece_len: u32) -> (n: u32)
    ensures
        n == spec_block_count(piece_len),
{
    ((piece_len as u64 + 16383) / 16384) as u32
}

/// Offset and length of block `b` of a piece of real length `piece_len`.
pub fn block_request(piece_len: u32, b: u32) -> (r: (u32, u32))
    requires
        b < spec_block_count(piece_len),
    ensures
        r.0 == b * 16384,
        r.1 == spec_block_len(piece_len, b as int),
        0 < r.1 <= 16384,
{
    proof {
        lemma_block_bounds(piece_len, b as int);
    }
    let offset = b * 16384;
    let rest = piece_len - offset;
    if rest < 16384 {
        (offset, rest)
    } else {
        (offset, 16384)
    }
}

/// Every block of a piece starts inside it and has a positive length of
/// at most the block size.
proof fn lemma_block_bounds(piece_len: u32, b: int)
    requires
        0 <= b < spec_block_count(piece_len),
    ensures
        b * 16384 < piece_len,
        0 < spec_block_len(piece_len, b) <= 16384,
        b * 16384 + spec_block_len(piece_len, b) <= piece_len,
{
    let c = spec_block_count(piece_len);
    let len = piece_len as int;
    assert(b * 16384 < len && (len - b * 16384 < 16384 ==> b == c - 1)) by (nonlinear_arith)
        requires
            0 <= b < c,
            c == (len + 16383) / 16384,
            0 <= len < 0x1_0000_0000,
    ;
}

/// A piece being assembled out of blocks. The buffer always has the
/// piece's real length; `got` records which blocks have been stored, and
/// a block can be stored only once, at its declared offset, with exactly
/// its real length.
pub struct PieceAssembly {
    buf: Vec<u8>,
    got: Vec<bool>,
}

impl PieceAssembly {
    /// The piece's real length.
    pub closed spec fn piece_len(self) -> int {
        self.buf@.len() as int
    }

    /// The bytes assembled so far.
    pub closed spec fn bytes(self) -> Seq<u8> {
        self.buf@
    }

    /// Which blocks have been stored.
    pub closed spec fn blocks_got(self) -> Seq<bool> {
        self.got@
    }

    pub closed spec fn wf(self) -> bool {
        &&& self.buf@.len() <= u32::MAX
        &&& self.got@.len() == spec_block_count(self.buf@.len() as u32)
    }

    /// A fresh, zero-filled assembly for a piece of length `piece_len`.
    pub fn new(piece_len: u32) -> (s: Self)
        ensures
            s.wf(),
            s.piece_len() == piece_len,
            forall|i: int| 0 <= i < s.blocks_got().len() ==> !s.blocks_got()[i],
    {
        let mut buf: Vec<u8> = Vec::new();
        let mut i: usize = 0;
        while i < piece_len as usize
            invariant
                i <= piece_len,
                buf@.len() == i,
            decreases piece_len - i,
        {
            buf.push(0);
            i += 1;
        }
        let n = block_count(piece_len);
        let mut got: Vec<bool> = Vec::new();
        let mut k: usize = 0;
        while k < n as usize
            invariant
                k <= n,
                got@.len() == k,
                forall|j: int| 0 <= j < k ==> !got@[j],
            decreases n - k,
        {
            got.push(false);
            k += 1;
        }
        PieceAssembly { buf, got }
    }

    /// Whether every block has been stored.
    pub fn complete(&self) -> (r: bool)
        ensures
            r == forall|i: int| 0 <= i < self.blocks_got().len() ==> self.blocks_got()[i],
    {
        let mut i: usize = 0;
        while i < self.got.len()
            invariant
                i <= self.got@.len(),
                forall|j: int| 0 <= j < i ==> self.got@[j],
            decreases self.got@.len() - i,
        {
            if !self.got[i] {
                proof {
                    assert(!self.blocks_got()[i as int]);
                }
                return false;
            }
            i += 1;
        }
        true
    }

    /// Stores one incoming block. The offset must be block-aligned and
    /// inside the piece, the data must have the block's real length, and
    /// the block must not have been stored before; anything else is
    /// rejected and leaves the piece untouched.
    pub fn place_block(&mut self, begin: u32, data: &[u8]) -> (r: Result<(), ProtocolError>)
        requires
            old(self).wf(),
        ensures
            final(self).wf(),
            final(self).piece_len() == old(self).piece_len(),
            r is Ok <==> begin % 16384 == 0 && begin / 16384 < spec_block_count(
                old(self).piece_len() as u32,
            ) && !old(self).blocks_got()[begin as int / 16384] && data@.len() == spec_block_len(
                old(self).piece_len() as u32,
                begin as int / 16384,
            ),
            r is Ok ==> final(self).bytes() == old(self).bytes().subrange(0, begin as int)
                + data@ + old(self).bytes().skip(begin as int + data@.len())
                && final(self).blocks_got() == old(self).blocks_got().update(
                begin as int / 16384,
                true,
            ),
            r is Err ==> *final(self) == *old(self) && r == Err::<(), ProtocolError>(
                ProtocolError::BadMessage,
            ),
    {
        if begin % 16384 != 0 {
            return Err(ProtocolError::BadMessage);
        }
        let b = begin / 16384;
        let n = block_count(self.buf.len() as u32);
        if b >= n {
            return Err(ProtocolError::BadMessage);
        }
        if self.got[b as usize] {
            return Err(ProtocolError::BadMessage);
        }
        proof {
            lemma_block_bounds(self.buf@.len() as u32, b as int);
            vstd::arithmetic::div_mod::lemma_fundamental_div_mod(begin as int, 16384);
        }
        let blen = block_request(self.buf.len() as u32, b).1;
        if data.len() != blen as usize {
            return Err(ProtocolError::BadMessage);
        }
        let ghost pre = self.buf@;
        let ghost pre_got = self.got@;
        let mut i: usize = 0;
        while i < data.len()
            invariant
                i <= data@.len(),
                begin + data@.len() <= pre.len() <= u32::MAX,
                self.buf@.len() == pre.len(),
                self.got@ == pre_got,
                b == begin / 16384,
                begin % 16384 == 0,
                b < pre_got.len(),
                pre_got.len() == spec_block_count(pre.len() as u32),
                !pre_got[b as int],
                data@.len() == spec_block_len(pre.len() as u32, b as int),
                self.buf@ == pre.subrange(0, begin as int) + data@.subrange(0, i as int)
                    + pre.skip(begin as int + i),
            decreases data@.len() - i,
        {
            self.buf.set(begin as usize + i, data[i]);
            i += 1;
            proof {
                assert(self.buf@ =~= pre.subrange(0, begin as int) + data@.subrange(0, i as int)
                    + pre.skip(begin as int + i));
            }
        }
        self.got.set(b as usize, true);
        proof {
            assert(data@.subrange(0, data@.len() as int) =~= data@);
            assert(self.buf@ =~= pre.subrange(0, begin as int) + data@ + pre.skip(
                begin as int + data@.len(),
            ));
        }
        Ok(())
    }

    /// Hands the assembled bytes out, but only if their SHA-1 equals the
    /// expected digest from the pieces table; a mismatched piece is
    /// discarded.
    pub fn finalize(self, expected: &[u8]) -> (r: Result<Vec<u8>, ValidationError>)
        requires
            expected@.len() == 20,
        ensures
            r is Ok <==> sha1_of(self.bytes()) == expected@,
            r matches Ok(v) ==> v@ == self.bytes(),
            r matches Err(e) ==> e == ValidationError::HashMismatch,
    {
        let digest = hashing::encode_sha1(self.buf.as_slice());
        let mut i: usize = 0;
        while i < 20
            invariant
                i <= 20,
                digest@ == sha1_of(self.buf@),
                digest@.len() == 20,
                expected@.len() == 20,
                forall|j: int| 0 <= j < i ==> digest@[j] == expected@[j],
            decreases 20 - i,
        {
            if digest[i] != expected[i] {
                proof {
                    assert(sha1_of(self.buf@)[i as int] != expected@[i as int]);
                }
                return Err(ValidationError::HashMismatch);
            }
            i += 1;
        }
        proof {
            assert(sha1_of(self.buf@) =~= expected@);
        }
        Ok(self.buf)
    }
}

/// Where a download session stands with one peer: waiting for its
/// bitfield, waiting to be unchoked, or cleared to request blocks.
#[derive(Debug, Clone, Copy, PartialEq, Eq, Structural)]
pub enum SessionPhase {
    PostHandshake,
    AwaitUnchoke,
    Unchoked,
}

/// What the session should do next: nothing yet, declare interest, send
/// the block requests, or store an arriving block.
#[derive(Debug, Clone, Copy, PartialEq, Eq, Structural)]
pub enum SessionAction {
    Wait,
    SendInterested,
    RequestBlocks,
    StoreBlock,
}

/// The protocol table: a bitfield moves a fresh session to interest, an
/// unchoke clears it to request, a piece message carries a block; a choke
/// while unchoked sends it back to waiting, and any other id breaks the
/// protocol.
pub open spec fn spec_session_step(phase: SessionPhase, msg_id: u8) -> Result<
    (SessionPhase, SessionAction),
    ProtocolError,
> {
    match phase {
        SessionPhase::PostHandshake => {
            if msg_id == 5 {
                Ok((SessionPhase::AwaitUnchoke, SessionAction::SendInterested))
            } else {
                Err(ProtocolError::BadMessage)
            }
        },
        SessionPhase::AwaitUnchoke => {
            if msg_id == 1 {
                Ok((SessionPhase::Unchoked, SessionAction::RequestBlocks))
            } else if msg_id == 0 {
                Ok((SessionPhase::AwaitUnchoke, SessionAction::Wait))
            } else {
                Err(ProtocolError::BadMessage)
            }
        },
        SessionPhase::Unchoked => {
            if msg_id == 7 {
                Ok((SessionPhase::Unchoked, SessionAction::StoreBlock))
            } else if msg_id == 0 {
                Ok((SessionPhase::AwaitUnchoke, SessionAction::Wait))
            } else {
                Err(ProtocolError::BadMessage)
            }
        },
    }
}

/// Advances the session on one incoming message id.
pub fn session_step(phase: SessionPhase, msg_id: u8) -> (r: Result<
    (SessionPhase, SessionAction),
    ProtocolError,
>)
    ensures
        r == spec_session_step(phase, msg_id),
{
    match phase {
        SessionPhase::PostHandshake => {
            if msg_id == 5 {
                Ok((SessionPhase::AwaitUnchoke, SessionAction::SendInterested))
            } else {
                Err(ProtocolError::BadMessage)
            }
        },
        SessionPhase::AwaitUnchoke => {
            if msg_id == 1 {
                Ok((SessionPhase::Unchoked, SessionAction::RequestBlocks))
            } else if msg_id == 0 {
                Ok((SessionPhase::AwaitUnchoke, SessionAction::Wait))
            } else {
                Err(ProtocolError::BadMessage)
            }
        },
        SessionPhase::Unchoked => {
            if msg_id == 7 {
                Ok((SessionPhase::Unchoked, SessionAction::StoreBlock))
            } else if msg_id == 0 {
                Ok((SessionPhase::AwaitUnchoke, SessionAction::Wait))
            } else {
                Err(ProtocolError::BadMessage)
            }
        },
    }
}

} // verus!
