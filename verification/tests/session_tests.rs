use btcore::session::{
    block_count, block_request, session_step, PieceAssembly, SessionAction, SessionPhase,
    ValidationError,
};
use sha1::{Digest, Sha1};

#[test]
fn block_accounting() {
    assert_eq!(block_count(32768), 2);
    assert_eq!(block_count(26527), 2);
    assert_eq!(block_count(16384), 1);
    assert_eq!(block_count(1), 1);
    assert_eq!(block_request(32768, 0), (0, 16384));
    assert_eq!(block_request(32768, 1), (16384, 16384));
    assert_eq!(block_request(26527, 1), (16384, 10143));
}

#[test]
fn assembly_out_of_order() {
    let mut piece = PieceAssembly::new(20000);
    assert!(!piece.complete());
    let tail = vec![2u8; 20000 - 16384];
    assert!(piece.place_block(16384, &tail).is_ok());
    assert!(!piece.complete());
    let head = vec![1u8; 16384];
    assert!(piece.place_block(0, &head).is_ok());
    assert!(piece.complete());
    let mut expected = vec![1u8; 16384];
    expected.extend_from_slice(&vec![2u8; 20000 - 16384]);
    let digest: Vec<u8> = Sha1::digest(&expected).to_vec();
    let bytes = piece.finalize(&digest).unwrap();
    assert_eq!(bytes, expected);
}

#[test]
fn assembly_rejects_bad_blocks() {
    let mut piece = PieceAssembly::new(20000);
    // misaligned offset
    assert!(piece.place_block(1, &vec![0u8; 16384]).is_err());
    // offset beyond the piece
    assert!(piece.place_block(32768, &vec![0u8; 100]).is_err());
    // wrong length for the block
    assert!(piece.place_block(0, &vec![0u8; 100]).is_err());
    // overlapping write: the same block twice
    assert!(piece.place_block(0, &vec![0u8; 16384]).is_ok());
    assert!(piece.place_block(0, &vec![0u8; 16384]).is_err());
}

#[test]
fn assembly_rejects_bad_hash() {
    let mut piece = PieceAssembly::new(4);
    assert!(piece.place_block(0, &[9, 9, 9, 9]).is_ok());
    let wrong = vec![0u8; 20];
    assert_eq!(piece.finalize(&wrong), Err(ValidationError::HashMismatch));
}

#[test]
fn session_transitions() {
    let (phase, action) = session_step(SessionPhase::PostHandshake, 5).unwrap();
    assert_eq!(phase, SessionPhase::AwaitUnchoke);
    assert_eq!(action, SessionAction::SendInterested);
    let (phase, action) = session_step(phase, 1).unwrap();
    assert_eq!(phase, SessionPhase::Unchoked);
    assert_eq!(action, SessionAction::RequestBlocks);
    let (phase, action) = session_step(phase, 7).unwrap();
    assert_eq!(phase, SessionPhase::Unchoked);
    assert_eq!(action, SessionAction::StoreBlock);
    // a choke sends the session back to waiting
    let (phase, action) = session_step(phase, 0).unwrap();
    assert_eq!(phase, SessionPhase::AwaitUnchoke);
    assert_eq!(action, SessionAction::Wait);
    // an unexpected id breaks the protocol
    assert!(session_step(SessionPhase::PostHandshake, 7).is_err());
}

#[test]
fn peer_id_is_twenty_bytes() {
    let id = btcore::peer::Peer::gen_peer_id();
    assert_eq!(id.len(), 20);
}
