//! Gossip behavior: the registry, handshake transitions, loop
//! suppression by content hash, and the two-node scenario carried over
//! the library's own frames.

use edblock::chain::Chain;
use edblock::codec::parse_frame_len;
use edblock::node::{HandshakeReply, Node};
use edblock::store::KvStore;

#[test]
fn register_peer_is_idempotent() {
    let mut n = Node::new(9000, b"127.0.0.1:9000".to_vec());
    assert!(n.register_peer(b"peer-1".to_vec(), b"127.0.0.1:9001".to_vec()));
    assert!(!n.register_peer(b"peer-1".to_vec(), b"127.0.0.1:9001".to_vec()));
    assert_eq!(n.peer_count(), 1);
    assert!(n.has_peer(b"peer-1"));
    assert_eq!(n.peer_address(0), b"127.0.0.1:9001".to_vec());
}

#[test]
fn prune_peer_drops_id_and_address_together() {
    let mut n = Node::new(9000, b"127.0.0.1:9000".to_vec());
    assert!(n.register_peer(b"peer-1".to_vec(), b"addr-1".to_vec()));
    assert!(n.register_peer(b"peer-2".to_vec(), b"addr-2".to_vec()));
    n.prune_peer(b"peer-1");
    assert_eq!(n.peer_count(), 1);
    assert!(!n.has_peer(b"peer-1"));
    assert!(n.has_peer(b"peer-2"));
    assert_eq!(n.peer_address(0), b"addr-2".to_vec());
    n.prune_peer(b"peer-unknown");
    assert_eq!(n.peer_count(), 1);
}

#[test]
fn malformed_handshakes_draw_a_rejection() {
    let mut n = Node::new(9000, b"127.0.0.1:9000".to_vec());
    match n.handle_handshake(b"HNDSHK 77 peer addr") {
        HandshakeReply::Rejected(f) => {
            assert!(f.starts_with(b"HNDSHK 00 "));
        },
        _ => panic!("expected a rejection"),
    }
    assert_eq!(n.peer_count(), 0);
}

#[test]
fn duplicate_payload_changes_state_once() {
    let mut a = Node::new(9000, b"127.0.0.1:9000".to_vec());
    let mut chain = Chain::new(b"m".to_vec(), 2, a.get_id(), KvStore::new());
    assert!(chain.new_transaction(b"alice".to_vec(), b"bob".to_vec(), 1));
    let msgs = chain.drain_outgoing();
    let payload = edblock::envelope::encode_message(&msgs[0]);

    let mut b = Node::new(9001, b"127.0.0.1:9001".to_vec());
    let first = b.receive_frame(&payload);
    assert!(first.is_some());
    let second = b.receive_frame(&payload);
    assert!(second.is_none());
}

#[test]
fn broadcast_suppresses_the_gossiped_echo() {
    let mut a = Node::new(9000, b"127.0.0.1:9000".to_vec());
    let mut chain = Chain::new(b"m".to_vec(), 2, a.get_id(), KvStore::new());
    assert!(chain.new_transaction(b"alice".to_vec(), b"bob".to_vec(), 1));
    let msgs = chain.drain_outgoing();
    let frame = a.prepare_broadcast(&msgs[0]);
    // the same envelope coming back from a peer is not handed on again
    let echo = a.receive_frame(&frame[8..]);
    assert!(echo.is_none());
}

#[test]
fn two_nodes_exchange_transactions_and_blocks() {
    // node A on port 9000, node B on port 9001
    let mut node_a = Node::new(9000, b"127.0.0.1:9000".to_vec());
    let mut node_b = Node::new(9001, b"127.0.0.1:9001".to_vec());
    let mut chain_a = Chain::new(b"miner-a".to_vec(), 2, node_a.get_id(), KvStore::new());
    let mut chain_b = Chain::new(b"miner-b".to_vec(), 2, node_b.get_id(), KvStore::new());

    // A dials B: request, acceptance, and both registries hold the other
    let request = node_a.handshake_request();
    let response = match node_b.handle_handshake(&request) {
        HandshakeReply::Accepted(f) => f,
        _ => panic!("expected acceptance"),
    };
    assert!(node_a.handle_handshake_response(&response));
    assert!(node_a.has_peer(&node_b.get_id()));
    assert!(node_b.has_peer(&node_a.get_id()));
    assert_eq!(node_a.peer_address(0), b"127.0.0.1:9001".to_vec());

    // A creates a transaction and fans it out; B's pool picks it up
    assert!(chain_a.new_transaction(b"alice".to_vec(), b"bob".to_vec(), 42));
    let out = chain_a.drain_outgoing();
    let frame = node_a.prepare_broadcast(&out[0]);
    let n = parse_frame_len(&frame[..8]).unwrap();
    assert_eq!(n, frame.len() - 8);
    let delivered = node_b.receive_frame(&frame[8..]).expect("first delivery passes");
    let tx = delivered.transaction.expect("carries the transaction");
    let txid = tx.transaction_id.clone();
    chain_b.add_transaction(tx);
    assert!(chain_b.has_pending(&txid));

    // A mines; B applies the block envelope and drops the mined
    // transaction from its pool
    assert!(chain_a.generate_new_block());
    let out = chain_a.drain_outgoing();
    let frame = node_a.prepare_broadcast(&out[0]);
    let delivered = node_b.receive_frame(&frame[8..]).expect("block delivery passes");
    let block = delivered.block.expect("carries the block");
    assert!(chain_b.add_block(block));
    assert_eq!(chain_b.get_height(), 1);
    assert!(!chain_b.has_pending(&txid));
    assert_eq!(chain_b.get_hash_by_index(0).unwrap(), chain_a.get_hash_by_index(0).unwrap());

    // the same block frame again is suppressed by the seen set
    assert!(node_b.receive_frame(&frame[8..]).is_none());
}
