//! Ledger behavior: genesis, mining, merkle commitment, proof-of-work,
//! persistence round trips, linkage, and the failure cases that must
//! leave the state untouched.

use edblock::block::{hash_header, Blockheader};
use edblock::chain::{Chain, ChainError};
use edblock::merkle::merkle_root_of_transactions;
use edblock::store::KvStore;

fn fresh_chain(difficulty: u32) -> Chain {
    Chain::new(b"miner-1".to_vec(), difficulty, b"node-1".to_vec(), KvStore::new())
}

#[test]
fn fresh_chain_is_empty() {
    let c = fresh_chain(2);
    assert_eq!(c.get_height(), 0);
    assert_eq!(c.last_hash().unwrap(), vec![48u8; 64]);
    assert_eq!(c.get_hash_by_index(0), Err(ChainError::BlockNotFound));
    assert!(matches!(c.get_block_by_index(0), Err(ChainError::BlockNotFound)));
    assert!(matches!(c.get_block_by_hash(b"no-such-key"), Err(ChainError::BlockNotFound)));
}

#[test]
fn genesis_extends_the_zero_hash() {
    let mut c = fresh_chain(2);
    assert!(c.generate_new_block());
    assert_eq!(c.get_height(), 1);
    let b = c.get_block_by_index(0).unwrap();
    assert_eq!(b.header.pre_hash, vec![48u8; 64]);
    assert_eq!(b.transactions.len(), 1);
    assert_eq!(b.transactions[0].sender, b"Root".to_vec());
    assert_eq!(b.transactions[0].receiver, b"miner-1".to_vec());
    assert_eq!(b.transactions[0].amount, 100);
}

#[test]
fn stored_merkle_root_matches_recomputation() {
    let mut c = fresh_chain(2);
    assert!(c.new_transaction(b"alice".to_vec(), b"bob".to_vec(), 10));
    assert!(c.new_transaction(b"bob".to_vec(), b"carol".to_vec(), 20));
    assert!(c.generate_new_block());
    let b = c.get_block_by_index(0).unwrap();
    assert_eq!(b.transactions.len(), 3);
    let recomputed = merkle_root_of_transactions(&b.transactions);
    assert_eq!(b.header.merkle, recomputed);
}

#[test]
fn accepted_blocks_satisfy_the_difficulty() {
    let mut c = fresh_chain(2);
    assert!(c.generate_new_block());
    assert!(c.new_transaction(b"a".to_vec(), b"b".to_vec(), 1));
    assert!(c.generate_new_block());
    for i in 0..2 {
        let b = c.get_block_by_index(i).unwrap();
        let h = hash_header(&b.header);
        let prefix = std::str::from_utf8(&h[..2]).unwrap();
        assert_eq!(prefix.parse::<u32>().unwrap(), 0);
    }
}

#[test]
fn empty_pool_at_nonzero_height_fails_without_mutation() {
    let mut c = fresh_chain(2);
    assert!(c.generate_new_block());
    let h1 = c.get_hash_by_index(0).unwrap();
    assert!(!c.generate_new_block());
    assert_eq!(c.get_height(), 1);
    assert_eq!(c.get_hash_by_index(0).unwrap(), h1);
    assert_eq!(c.get_hash_by_index(1), Err(ChainError::BlockNotFound));
}

#[test]
fn blocks_link_by_previous_hash() {
    let mut c = fresh_chain(2);
    assert!(c.generate_new_block());
    for _ in 0..2 {
        assert!(c.new_transaction(b"a".to_vec(), b"b".to_vec(), 1));
        assert!(c.generate_new_block());
    }
    assert_eq!(c.get_height(), 3);
    for n in 1..3 {
        let b = c.get_block_by_index(n).unwrap();
        let prev = c.get_block_by_index(n - 1).unwrap();
        assert_eq!(b.header.pre_hash, hash_header(&prev.header));
    }
}

#[test]
fn persisted_block_reads_back_by_hash_and_index() {
    let mut c = fresh_chain(2);
    assert!(c.new_transaction(b"alice".to_vec(), b"bob".to_vec(), 7));
    assert!(c.generate_new_block());
    let by_index = c.get_block_by_index(0).unwrap();
    let h = c.get_hash_by_index(0).unwrap();
    assert_eq!(h, hash_header(&by_index.header));
    let by_hash = c.get_block_by_hash(&h).unwrap();
    assert_eq!(by_hash.header.timestamp, by_index.header.timestamp);
    assert_eq!(by_hash.header.nonce, by_index.header.nonce);
    assert_eq!(by_hash.header.pre_hash, by_index.header.pre_hash);
    assert_eq!(by_hash.header.merkle, by_index.header.merkle);
    assert_eq!(by_hash.header.difficulty, by_index.header.difficulty);
    assert_eq!(by_hash.count, by_index.count);
    assert_eq!(by_hash.transactions.len(), by_index.transactions.len());
    for k in 0..by_hash.transactions.len() {
        assert_eq!(by_hash.transactions[k].sender, by_index.transactions[k].sender);
        assert_eq!(by_hash.transactions[k].receiver, by_index.transactions[k].receiver);
        assert_eq!(by_hash.transactions[k].amount, by_index.transactions[k].amount);
        assert_eq!(
            by_hash.transactions[k].transaction_id,
            by_index.transactions[k].transaction_id
        );
    }
    assert_eq!(c.reveal_chain().len(), 1);
}

#[test]
fn add_block_accepts_only_the_next_link() {
    let mut a = fresh_chain(2);
    assert!(a.generate_new_block());
    assert!(a.new_transaction(b"alice".to_vec(), b"bob".to_vec(), 5));
    assert!(a.generate_new_block());

    let mut b = fresh_chain(2);
    let g = a.get_block_by_index(0).unwrap();
    let second = a.get_block_by_index(1).unwrap();
    // out of order: the second block does not extend b's empty tip
    assert!(!b.add_block(second));
    assert_eq!(b.get_height(), 0);
    assert!(b.add_block(g));
    assert_eq!(b.get_height(), 1);
    let second = a.get_block_by_index(1).unwrap();
    assert!(b.add_block(second));
    assert_eq!(b.get_height(), 2);
    assert_eq!(b.get_hash_by_index(1).unwrap(), a.get_hash_by_index(1).unwrap());
}

#[test]
fn configuration_updates_apply_in_place() {
    let mut c = fresh_chain(2);
    assert!(!c.update_difficulty(0));
    assert!(!c.update_difficulty(65));
    assert!(c.update_difficulty(1));
    assert!(c.update_reward(250));
    c.update_miner_address(b"miner-2".to_vec());
    assert!(c.generate_new_block());
    let b = c.get_block_by_index(0).unwrap();
    assert_eq!(b.header.difficulty, 1);
    assert_eq!(b.transactions[0].amount, 250);
    assert_eq!(b.transactions[0].receiver, b"miner-2".to_vec());
}

#[test]
fn new_transaction_queues_a_gossip_envelope() {
    let mut c = fresh_chain(2);
    assert!(c.new_transaction(b"alice".to_vec(), b"bob".to_vec(), 9));
    assert_eq!(c.pending_count(), 1);
    let out = c.drain_outgoing();
    assert_eq!(out.len(), 1);
    let m = &out[0];
    assert_eq!(m.uuid, b"node-1".to_vec());
    assert!(m.block.is_none());
    let t = m.transaction.as_ref().unwrap();
    assert_eq!(t.sender, b"alice".to_vec());
    assert_eq!(t.receiver, b"bob".to_vec());
    assert_eq!(t.amount, 9);
    assert_eq!(t.transaction_id.len(), 36);
    assert!(c.has_pending(&t.transaction_id));
    assert_eq!(
        m.message_hash,
        edblock::tx::hash_transaction(t)
    );
    assert_eq!(c.drain_outgoing().len(), 0);
}

#[test]
fn mining_drains_the_pool_and_queues_the_block() {
    let mut c = fresh_chain(2);
    assert!(c.new_transaction(b"alice".to_vec(), b"bob".to_vec(), 3));
    let _ = c.drain_outgoing();
    assert!(c.generate_new_block());
    assert_eq!(c.pending_count(), 0);
    let out = c.drain_outgoing();
    assert_eq!(out.len(), 1);
    let m = &out[0];
    assert!(m.transaction.is_none());
    let blk = m.block.as_ref().unwrap();
    assert_eq!(m.message_hash, hash_header(&blk.header));
    assert_eq!(blk.transactions.len(), 2);
}

#[test]
fn backup_restores_to_the_same_chain() {
    let mut c = fresh_chain(2);
    assert!(c.generate_new_block());
    let backup = c.copy_db_backup();
    let restored = Chain::new(b"miner-1".to_vec(), 2, b"node-9".to_vec(), backup);
    assert_eq!(restored.get_height(), 1);
    assert_eq!(restored.get_hash_by_index(0).unwrap(), c.get_hash_by_index(0).unwrap());
}

#[test]
fn non_block_records_surface_a_store_error() {
    let mut c = fresh_chain(2);
    assert!(c.generate_new_block());
    // the reserved height key holds a counter, not a block record
    assert_eq!(c.get_block_by_hash(b"height").err(), Some(ChainError::StoreError));
}

#[test]
fn mined_nonce_is_the_least_satisfying() {
    let mut c = fresh_chain(2);
    assert!(c.generate_new_block());
    let b = c.get_block_by_index(0).unwrap();
    let parses_to_zero = |h: &Blockheader| {
        let digest = hash_header(h);
        let prefix = std::str::from_utf8(&digest[..2]).unwrap().to_string();
        prefix.parse::<u32>() == Ok(0)
    };
    assert!(parses_to_zero(&b.header));
    // the search increments by one on failure, so every smaller nonce fails
    for n in 0..b.header.nonce {
        let candidate = Blockheader {
            timestamp: b.header.timestamp,
            nonce: n,
            pre_hash: b.header.pre_hash.clone(),
            merkle: b.header.merkle.clone(),
            difficulty: b.header.difficulty,
        };
        assert!(!parses_to_zero(&candidate));
    }
}
