//! Unit tests for the crypto oracle, block validation, payload packing, the
//! voting rules and the quorum boundary.

use streamlet::blockchain::{
    hash_vec_contains, signed_payload, Block, BlockMessage, MessageType, VoteMessage, VoteRecord,
    MAXLENGTH_SINGLE_TX, MAXLENGTH_TXS,
};
use streamlet::node::Node;
use streamlet::utils::Crypto;

#[test]
fn test_sha256_known_vectors() {
    let empty = Crypto::hash(&[]);
    let expected =
        hex::decode("e3b0c44298fc1c149afbf4c8996fb92427ae41e4649b934ca495991b7852b855").unwrap();
    assert_eq!(empty.to_vec(), expected);
    let abc = Crypto::hash(b"abc");
    let expected_abc =
        hex::decode("ba7816bf8f01cfea414140de5dae2223b00361a396177a9cb410ff61f20015ad").unwrap();
    assert_eq!(abc.to_vec(), expected_abc);
}

#[test]
fn test_hash_deterministic() {
    let a = Crypto::hash(b"same input");
    let b = Crypto::hash(b"same input");
    assert_eq!(a, b);
    let c = Crypto::hash(b"other input");
    assert_ne!(a, c);
}

#[test]
fn test_var_to_bytes_little_endian() {
    assert_eq!(Crypto::var_to_bytes(0x0102), vec![2, 1, 0, 0, 0, 0, 0, 0]);
    assert_eq!(Crypto::var_to_bytes(0), vec![0; 8]);
}

#[test]
fn test_short_hash_little_endian() {
    let bytes = [1u8, 2, 0, 0, 0, 0, 0, 0, 0xff];
    assert_eq!(Crypto::short_hash(&bytes), 1 + 2 * 256);
}

#[test]
fn test_sign_verify_roundtrip() {
    let payload = b"a payload";
    let signature = Crypto::sign(7, payload);
    assert!(Crypto::check_signature(7, payload, &signature));
    assert!(!Crypto::check_signature(8, payload, &signature));
    assert!(!Crypto::check_signature(7, b"another payload", &signature));
}

#[test]
fn test_signed_payload_encoding() {
    let h = [0xabu8; 32];
    let proposal = signed_payload(&MessageType::BlockProposal, &h);
    let mut expected = vec![0u8, 0, 0, 0];
    expected.extend_from_slice(&h);
    assert_eq!(proposal, expected);
    let vote = signed_payload(&MessageType::Vote, &h);
    let mut expected_vote = vec![1u8, 0, 0, 0];
    expected_vote.extend_from_slice(&h);
    assert_eq!(vote, expected_vote);
}

#[test]
fn test_block_hash_matches_manual_preimage() {
    let parent = [3u8; 32];
    let txs = b"payload".to_vec();
    let block = Block::new(Some(parent), 5, txs.clone(), vec![], 1);
    let mut preimage = Vec::new();
    preimage.extend_from_slice(&parent);
    preimage.extend_from_slice(&Crypto::var_to_bytes(5));
    preimage.extend_from_slice(&txs);
    assert_eq!(block.hash, Crypto::hash(&preimage));
}

#[test]
fn test_block_validation_epoch_boundary() {
    let parent = [0u8; 32];
    let zero_epoch = Block::new(Some(parent), 0, vec![], vec![], 1);
    assert!(!zero_epoch.validate_block());
    let one_epoch = Block::new(Some(parent), 1, vec![], vec![], 1);
    assert!(one_epoch.validate_block());
}

#[test]
fn test_block_validation_payload_boundary() {
    let parent = [0u8; 32];
    let too_long = Block::new(Some(parent), 1, vec![0u8; MAXLENGTH_TXS], vec![], 1);
    assert!(!too_long.validate_block());
    let just_under = Block::new(Some(parent), 1, vec![0u8; MAXLENGTH_TXS - 1], vec![], 1);
    assert!(just_under.validate_block());
}

#[test]
fn test_transaction_length_boundary() {
    let mut node = Node::new(0, 4);
    node.send_transaction(vec![0u8; MAXLENGTH_SINGLE_TX]);
    assert_eq!(node.tx_pool.len(), 1);
    node.send_transaction(vec![0u8; MAXLENGTH_SINGLE_TX + 1]);
    assert_eq!(node.tx_pool.len(), 1);
}

#[test]
fn test_proposer_stops_packing_before_payload_cap() {
    let mut node = Node::new(0, 1);
    for _ in 0..6 {
        node.send_transaction(vec![0u8; 2000]);
    }
    let block = node.propose_block(1);
    // the payload starts with the id "0" (one byte) and then packs greedily:
    // four transactions fit (8001 bytes), the fifth would reach the cap
    assert_eq!(block.txs.len(), 8001);
    assert!(block.txs.len() < MAXLENGTH_TXS);
    assert_eq!(node.tx_pool.len(), 2);
}

#[test]
fn test_quorum_boundary_votes() {
    // n = 6: ceil(2n/3) = 4 votes do not notarize, 5 do
    let mut node = Node::new(0, 6);
    let genesis = node.chain.genesis;
    let block = Block::new(Some(genesis), 1, vec![], vec![], 1);
    let hash = block.hash;
    node.chain.validate_and_extend(block, genesis);
    node.chain.votes.push(VoteRecord { hash, voters: vec![0, 1, 2, 3] });
    node.notarize(hash);
    assert!(!hash_vec_contains(&node.chain.notarized, &hash));
    node.chain.votes[0].voters.push(4);
    node.notarize(hash);
    assert!(hash_vec_contains(&node.chain.notarized, &hash));
}

#[test]
fn test_no_vote_with_two_proposals_in_epoch() {
    let mut node = Node::new(0, 4);
    let genesis = node.chain.genesis;
    let b1 = Block::new(Some(genesis), 1, vec![1], vec![], 1);
    let b2 = Block::new(Some(genesis), 1, vec![2], vec![], 1);
    let h1 = b1.hash;
    node.chain.validate_and_extend(b1.dup(), genesis);
    node.chain.validate_and_extend(b2, genesis);
    node.vote(b1);
    assert!(!node.chain.has_voted(&h1, 0));
}

#[test]
fn test_votes_have_set_semantics() {
    let mut node = Node::new(0, 4);
    let h = [9u8; 32];
    node.chain.add_vote(&h, 3);
    node.chain.add_vote(&h, 3);
    assert_eq!(node.chain.voters_count(&h), 1);
    node.chain.add_vote(&h, 2);
    assert_eq!(node.chain.voters_count(&h), 2);
}

#[test]
fn test_leader_is_agreed_by_all_validators() {
    let a = Node::new(0, 7);
    let b = Node::new(3, 7);
    for e in 1..20 {
        assert_eq!(a.leader(e), b.leader(e));
        assert!(a.leader(e) < 7);
    }
}

#[test]
fn test_receive_block_from_leader_is_recorded() {
    let mut node = Node::new(0, 4);
    let mut e = 1;
    while node.leader(e) == 0 {
        e += 1;
    }
    let leader = node.leader(e);
    assert_ne!(leader, 0);
    let genesis = node.chain.genesis;
    let block = Block::new(Some(genesis), e, vec![120], vec![], 1);
    let payload = signed_payload(&MessageType::BlockProposal, &block.hash);
    let signature = Crypto::sign(leader as u64, &payload);
    let message = BlockMessage::new(
        leader,
        Some(genesis),
        e,
        vec![120],
        vec![],
        leader,
        signature,
    );
    node.receive_block(message);
    assert!(node.chain.contains_block(block.hash));
    assert!(node.chain.has_voted(&block.hash, leader));
    // the receiver voted for it too: it extends the highest notarized block
    assert!(node.chain.has_voted(&block.hash, 0));
}

#[test]
fn test_receive_block_with_bad_signature_is_dropped() {
    let mut node = Node::new(0, 4);
    let mut e = 1;
    while node.leader(e) == 0 {
        e += 1;
    }
    let leader = node.leader(e);
    let genesis = node.chain.genesis;
    let block = Block::new(Some(genesis), e, vec![120], vec![], 1);
    let message = BlockMessage::new(
        leader,
        Some(genesis),
        e,
        vec![120],
        vec![],
        leader,
        (0, Vec::new()),
    );
    node.receive_block(message);
    assert!(!node.chain.contains_block(block.hash));
}

#[test]
fn test_receive_block_from_non_leader_is_dropped() {
    let mut node = Node::new(0, 4);
    let mut e = 1;
    while node.leader(e) == 0 {
        e += 1;
    }
    let leader = node.leader(e);
    let not_leader = (leader + 1) % 4;
    let genesis = node.chain.genesis;
    let block = Block::new(Some(genesis), e, vec![120], vec![], 1);
    let payload = signed_payload(&MessageType::BlockProposal, &block.hash);
    let signature = Crypto::sign(not_leader as u64, &payload);
    let message = BlockMessage::new(
        not_leader,
        Some(genesis),
        e,
        vec![120],
        vec![],
        not_leader,
        signature,
    );
    node.receive_block(message);
    assert!(!node.chain.contains_block(block.hash));
}

#[test]
fn test_block_with_unknown_parent_is_queued_then_processed() {
    let mut node = Node::new(0, 4);
    let l1 = node.leader(1);
    let l2 = node.leader(2);
    let genesis = node.chain.genesis;
    let parent = Block::new(Some(genesis), 1, vec![1], vec![], 1);
    let child = Block::new(Some(parent.hash), 2, vec![2], vec![], 2);
    let child_payload = signed_payload(&MessageType::BlockProposal, &child.hash);
    let child_sig = Crypto::sign(l2 as u64, &child_payload);
    let child_msg = BlockMessage::new(l2, Some(parent.hash), 2, vec![2], vec![], l2, child_sig);
    // the child arrives first: its parent is unknown, so it is deferred
    node.receive_block(child_msg);
    assert!(!node.chain.contains_block(child.hash));
    // the parent arrives; the deferred child is processed on the next drain
    let parent_payload = signed_payload(&MessageType::BlockProposal, &parent.hash);
    let parent_sig = Crypto::sign(l1 as u64, &parent_payload);
    let parent_msg = BlockMessage::new(l1, Some(genesis), 1, vec![1], vec![], l1, parent_sig);
    node.receive_block(parent_msg);
    assert!(node.chain.contains_block(parent.hash));
    node.process_unprocessed_pool();
    assert!(node.chain.contains_block(child.hash));
}

#[test]
fn test_vote_without_parent_hash_is_dropped() {
    let mut node = Node::new(0, 4);
    let vote = VoteMessage::new(1, None, 1, vec![], vec![], 1, (1, Vec::new()));
    node.receive_vote(vote);
    assert_eq!(node.chain.votes.len(), 0);
}

#[test]
fn test_vote_with_out_of_range_signer_is_dropped() {
    let mut node = Node::new(0, 4);
    let genesis = node.chain.genesis;
    let block = Block::new(Some(genesis), 1, vec![], vec![], 1);
    let payload = signed_payload(&MessageType::Vote, &block.hash);
    let signature = Crypto::sign(9, &payload);
    let vote = VoteMessage::new(9, Some(genesis), 1, vec![], vec![], 9, signature);
    node.receive_vote(vote);
    assert_eq!(node.chain.votes.len(), 0);
}

#[test]
fn test_valid_vote_is_recorded_and_counted() {
    let mut node = Node::new(0, 4);
    let genesis = node.chain.genesis;
    let block = Block::new(Some(genesis), 1, vec![], vec![], 1);
    let payload = signed_payload(&MessageType::Vote, &block.hash);
    for signer in 1..4u64 {
        let signature = Crypto::sign(signer, &payload);
        let vote = VoteMessage::new(
            signer as usize,
            Some(genesis),
            1,
            vec![],
            vec![],
            signer as usize,
            signature,
        );
        node.receive_vote(vote);
    }
    assert_eq!(node.chain.voters_count(&block.hash), 3);
    // a repeated vote is ignored
    let signature = Crypto::sign(1, &payload);
    let vote = VoteMessage::new(1, Some(genesis), 1, vec![], vec![], 1, signature);
    node.receive_vote(vote);
    assert_eq!(node.chain.voters_count(&block.hash), 3);
}
