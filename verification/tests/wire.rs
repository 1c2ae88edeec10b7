//! Wire-level behavior: hexadecimal rendering, decimal parsing,
//! big-endian fields, and the canonical codecs round-tripping.

use edblock::block::{Block, Blockheader, encode_block, parse_block_full, hash_header};
use edblock::chain::Chain;
use edblock::codec::parse_frame_len;
use edblock::endian::{u32_to_be, u32_from_be, u64_to_be, u64_from_be};
use edblock::envelope::{Message, encode_message, parse_message};
use edblock::handshake::{
    HandshakeCode, Protocol, handshake_frame, parse_handshake, detect_protocol,
};
use edblock::hex::{hex_encode, parse_ascii_u32};
use edblock::tx::{Transaction, encode_transaction, parse_transaction, hash_transaction};
use sha2::Digest;

fn sample_tx() -> Transaction {
    Transaction {
        sender: b"alice".to_vec(),
        receiver: b"bob".to_vec(),
        amount: 42,
        transaction_id: b"11111111-2222-3333-4444-555555555555".to_vec(),
    }
}

fn sample_block() -> Block {
    let txs = vec![sample_tx()];
    Block {
        header: Blockheader {
            timestamp: 1700000000123,
            nonce: 7,
            pre_hash: vec![48u8; 64],
            merkle: b"abc123".to_vec(),
            difficulty: 2,
        },
        count: txs.len() as u32,
        transactions: txs,
    }
}

#[test]
fn hex_encode_renders_padded_lowercase() {
    assert_eq!(hex_encode(&[0x00, 0x0f, 0xa5, 0xff]), b"000fa5ff".to_vec());
    assert_eq!(hex_encode(&[]), Vec::<u8>::new());
}

#[test]
fn decimal_parse_accepts_exactly_u32_numbers() {
    assert_eq!(parse_ascii_u32(b"0"), Some(0));
    assert_eq!(parse_ascii_u32(b"00"), Some(0));
    assert_eq!(parse_ascii_u32(b"0012"), Some(12));
    assert_eq!(parse_ascii_u32(b"4294967295"), Some(u32::MAX));
    assert_eq!(parse_ascii_u32(b"4294967296"), None);
    assert_eq!(parse_ascii_u32(b""), None);
    assert_eq!(parse_ascii_u32(b"1a"), None);
    assert_eq!(parse_ascii_u32(b"0a"), None);
}

#[test]
fn big_endian_round_trips() {
    for x in [0u32, 1, 255, 256, 0xdead_beef, u32::MAX] {
        let b = u32_to_be(x);
        assert_eq!(b.len(), 4);
        assert_eq!(u32_from_be(&b), x);
    }
    let b = u64_to_be(0x0102_0304_0506_0708);
    assert_eq!(b, vec![1, 2, 3, 4, 5, 6, 7, 8]);
    assert_eq!(u64_from_be(&b), 0x0102_0304_0506_0708);
    assert_eq!(parse_frame_len(&b), Some(0x0102_0304_0506_0708usize));
}

#[test]
fn content_hash_matches_independent_digest() {
    let h = Chain::hash(b"abc");
    let mut hasher = sha2::Sha256::new();
    hasher.update(b"abc");
    let expected: String = hasher.finalize().iter().map(|b| format!("{:02x}", b)).collect();
    assert_eq!(h, expected.as_bytes().to_vec());
    assert_eq!(Chain::hex_to_string(&[0xde, 0xad]), "dead".to_string());
}

#[test]
fn transaction_round_trips() {
    let t = sample_tx();
    let e = encode_transaction(&t);
    let (t2, used) = parse_transaction(&e, 0).expect("decodes");
    assert_eq!(used, e.len());
    assert_eq!(t2.sender, t.sender);
    assert_eq!(t2.receiver, t.receiver);
    assert_eq!(t2.amount, t.amount);
    assert_eq!(t2.transaction_id, t.transaction_id);
    assert_eq!(hash_transaction(&t), Chain::hash(&e));
}

#[test]
fn block_round_trips() {
    let b = sample_block();
    let e = encode_block(&b);
    let b2 = parse_block_full(&e).expect("decodes");
    assert_eq!(b2.header.timestamp, b.header.timestamp);
    assert_eq!(b2.header.nonce, b.header.nonce);
    assert_eq!(b2.header.pre_hash, b.header.pre_hash);
    assert_eq!(b2.header.merkle, b.header.merkle);
    assert_eq!(b2.header.difficulty, b.header.difficulty);
    assert_eq!(b2.count, b.count);
    assert_eq!(b2.transactions.len(), 1);
    assert_eq!(b2.transactions[0].sender, b.transactions[0].sender);
    assert_eq!(hash_header(&b2.header), hash_header(&b.header));
    assert!(parse_block_full(&e[..e.len() - 1]).is_none());
}

#[test]
fn envelope_round_trips() {
    let m = Message {
        uuid: b"node-1".to_vec(),
        block: Some(sample_block()),
        transaction: None,
        message_hash: b"feed".to_vec(),
    };
    let e = encode_message(&m);
    let m2 = parse_message(&e).expect("decodes");
    assert_eq!(m2.uuid, m.uuid);
    assert!(m2.transaction.is_none());
    assert_eq!(m2.message_hash, m.message_hash);
    let b2 = m2.block.expect("carries the block");
    assert_eq!(b2.header.nonce, 7);
    assert!(parse_message(&e[1..]).is_none());
}

#[test]
fn handshake_round_trips() {
    let f = handshake_frame(HandshakeCode::Request, b"node-a", b"127.0.0.1:9000");
    assert_eq!(f, b"HNDSHK 01 node-a 127.0.0.1:9000".to_vec());
    let (c, id, addr) = parse_handshake(&f).expect("parses");
    assert_eq!(c, HandshakeCode::Request);
    assert_eq!(id, b"node-a".to_vec());
    assert_eq!(addr, b"127.0.0.1:9000".to_vec());
    let acc = handshake_frame(HandshakeCode::Accept, b"node-b", b"127.0.0.1:9001");
    assert_eq!(parse_handshake(&acc).unwrap().0, HandshakeCode::Accept);
    let rej = handshake_frame(HandshakeCode::Reject, b"node-b", b"127.0.0.1:9001");
    assert_eq!(parse_handshake(&rej).unwrap().0, HandshakeCode::Reject);
}

#[test]
fn handshake_rejects_malformed_frames() {
    assert!(parse_handshake(b"HELLO 01 node addr").is_none());
    assert!(parse_handshake(b"HNDSHK 99 node addr").is_none());
    assert!(parse_handshake(b"HNDSHK 01 nodeaddr").is_none());
    assert!(parse_handshake(b"HNDSHK 01  addr").is_none());
    assert!(parse_handshake(b"HNDSHK 01 node ").is_none());
    assert!(parse_handshake(b"HNDSHK 01 node two words").is_none());
    assert!(parse_handshake(b"").is_none());
}

#[test]
fn protocol_detection_needs_the_marker() {
    assert!(matches!(detect_protocol(b"HNDSHK 01 a b"), Protocol::Handshake));
    assert!(matches!(detect_protocol(b"HNDSHK "), Protocol::Handshake));
    assert!(matches!(detect_protocol(b"HNDSHK"), Protocol::Unknown));
    assert!(matches!(detect_protocol(b"GET / HTTP/1.1"), Protocol::Unknown));
    assert!(matches!(detect_protocol(b""), Protocol::Unknown));
}

#[test]
fn merkle_root_follows_the_pairing_formula() {
    let l1 = Chain::hash(b"one");
    let l2 = Chain::hash(b"two");
    let l3 = Chain::hash(b"three");
    let cat = |a: &Vec<u8>, b: &Vec<u8>| {
        let mut v = a.clone();
        v.extend_from_slice(b);
        v
    };
    // a single leaf is duplicated, then paired with itself
    let root1 = edblock::merkle::merkle_root(vec![l1.clone()]);
    assert_eq!(root1, Chain::hash(&cat(&l1, &l1)));
    // two leaves pair directly
    let root2 = edblock::merkle::merkle_root(vec![l1.clone(), l2.clone()]);
    assert_eq!(root2, Chain::hash(&cat(&l1, &l2)));
    // three leaves: duplicate the last, fold the queue to one hash
    let root3 = edblock::merkle::merkle_root(vec![l1.clone(), l2.clone(), l3.clone()]);
    let h12 = Chain::hash(&cat(&l1, &l2));
    let h33 = Chain::hash(&cat(&l3, &l3));
    assert_eq!(root3, Chain::hash(&cat(&h12, &h33)));
}
