//! The smaller components: catch-up donor selection, the dispatch
//! table, and the grid-game state.

use std::collections::VecDeque;
use edblock::chain::Chain;
use edblock::menu::MenuBuilder;
use edblock::snake::{Direction, Snake};
use edblock::store::KvStore;
use edblock::sync::{Len, Msg, PeerHeight, select_sync_peer, archive_ok};

#[test]
fn donor_selection_takes_the_first_maximum_ahead() {
    let reports = vec![
        PeerHeight { addr: b"127.0.0.1:8001".to_vec(), len: 3 },
        PeerHeight { addr: b"127.0.0.1:8002".to_vec(), len: 5 },
        PeerHeight { addr: b"127.0.0.1:8003".to_vec(), len: 5 },
        PeerHeight { addr: b"127.0.0.1:8004".to_vec(), len: 1 },
    ];
    assert_eq!(select_sync_peer(0, &reports), Some(1));
    assert_eq!(select_sync_peer(4, &reports), Some(1));
    assert_eq!(select_sync_peer(5, &reports), None);
    assert_eq!(select_sync_peer(0, &Vec::new()), None);
}

#[test]
fn archive_answers_gate_the_download() {
    assert!(archive_ok(&Msg { uuid: "d".to_string(), status: 200 }));
    assert!(!archive_ok(&Msg { uuid: "d".to_string(), status: 400 }));
    assert!(!archive_ok(&Msg { uuid: "d".to_string(), status: 500 }));
    let l = Len { uuid: "d".to_string(), len: 5 };
    assert_eq!(l.len, 5);
}

#[test]
fn catching_up_node_reaches_the_donor_height() {
    // node D at height 5; node C at height 0 restores D's snapshot
    let mut d = Chain::new(b"miner-d".to_vec(), 1, b"node-d".to_vec(), KvStore::new());
    assert!(d.generate_new_block());
    for _ in 0..4 {
        assert!(d.new_transaction(b"x".to_vec(), b"y".to_vec(), 1));
        assert!(d.generate_new_block());
    }
    assert_eq!(d.get_height(), 5);

    let reports = vec![PeerHeight { addr: b"127.0.0.1:8005".to_vec(), len: d.get_height() }];
    assert_eq!(select_sync_peer(0, &reports), Some(0));
    assert!(archive_ok(&Msg { uuid: "node-d".to_string(), status: 200 }));

    let snapshot = d.copy_db_backup();
    let c = Chain::new(b"miner-c".to_vec(), 1, b"node-c".to_vec(), snapshot);
    assert_eq!(c.get_height(), 5);
    for i in 0..5 {
        assert_eq!(c.get_hash_by_index(i).unwrap(), d.get_hash_by_index(i).unwrap());
    }
}

#[test]
fn menu_keys_replace_and_look_up() {
    let mut m = MenuBuilder::new();
    m.set_header("Welcome".to_string());
    m.add("1".to_string(), "New Transaction".to_string());
    m.add("2".to_string(), "Mine block".to_string());
    m.add("1".to_string(), "Create transaction".to_string());
    assert_eq!(m.len(), 2);
    assert_eq!(m.header(), "Welcome");
    let i = m.find(&"1".to_string()).unwrap();
    assert_eq!(m.key(i), "1");
    assert_eq!(m.description(i), "Create transaction");
    assert!(m.find(&"9".to_string()).is_none());
}

#[test]
fn snake_moves_and_grows() {
    let mut s = Snake::new(VecDeque::from(vec![(4, 3), (3, 3), (2, 3)]));
    assert!(s.direction == Direction::RIGHT);
    assert_eq!(s.new_head(), (5, 3));
    s.move_snake();
    assert_eq!(Vec::from(s.body.clone()), vec![(5, 3), (4, 3), (3, 3)]);
    s.is_eaten = true;
    s.move_snake();
    assert_eq!(Vec::from(s.body.clone()), vec![(6, 3), (5, 3), (4, 3), (3, 3)]);
    assert!(!s.is_eaten);
    s.direction = Direction::UP;
    assert_eq!(s.new_head(), (6, 2));
    assert!(s.is_block_in_body((4, 3)));
    assert!(!s.is_block_in_body((9, 9)));
}
