use distributed_block_builder::hex::encode;
use distributed_block_builder::merging::{
    assemble_block, density_of, merge_ordered, order_by_profit_density, MergingState,
};
use distributed_block_builder::partial::{assemble_partial_block, BlockError};
use distributed_block_builder::routing::{broadcast_target, route};
use distributed_block_builder::simulation::{nearby_mergers, SimulationState};
use distributed_block_builder::{
    Bundle, CancellationRequest, ConflictSet, Message, NodeConfig, NodeId, NodeInfo, NodeRole,
    PartialBlock, SignedTransaction, Transaction, MAX_MERGER_CONNECTIONS,
};

fn tx(nonce: u64, from: u8, to: u8, gas_limit: u64, gas_price: u128) -> Transaction {
    Transaction { nonce, from: [from; 20], to: [to; 20], value: 0, gas_limit, gas_price, data: vec![] }
}

fn signed(t: Transaction, ls: bool) -> SignedTransaction {
    SignedTransaction { tx: t, signature: vec![1, 2], received_at: 7, is_latency_sensitive: ls }
}

fn merger(id: u8, region: &str) -> NodeInfo {
    NodeInfo { id: [id; 32], role: NodeRole::Merging, region: region.to_string() }
}

fn partial(id: u8, gas: u64, profit: u128, accounts: &[u8]) -> PartialBlock {
    let mut c = ConflictSet::new();
    for a in accounts {
        c.touch_account([*a; 20]);
    }
    PartialBlock {
        builder_id: [id; 32],
        transactions: vec![tx(id as u64, id, id, 1, 1)],
        bundles: vec![],
        total_gas_used: gas,
        estimated_profit: profit,
        conflicts: c,
    }
}

#[test]
fn hash_layout_is_nonce_then_sender_then_zeros() {
    let t = tx(0x0102030405060708, 0xaa, 0xbb, 1, 1);
    let h = t.hash();
    assert_eq!(&h[0..8], &[1, 2, 3, 4, 5, 6, 7, 8]);
    assert_eq!(&h[8..28], &[0xaa; 20]);
    assert_eq!(&h[28..32], &[0, 0, 0, 0]);
}

#[test]
fn hash_depends_only_on_nonce_and_sender() {
    let a = tx(3, 1, 2, 10, 10);
    let b = tx(3, 1, 9, 99, 5);
    let c = tx(4, 1, 2, 10, 10);
    let d = tx(3, 2, 2, 10, 10);
    assert_eq!(a.hash(), b.hash());
    assert_ne!(a.hash(), c.hash());
    assert_ne!(a.hash(), d.hash());
}

#[test]
fn empty_set_conflicts_with_nothing() {
    let empty = ConflictSet::new();
    let t = ConflictSet::for_transaction(&tx(1, 1, 2, 1, 1));
    assert!(!empty.conflicts_with(&t));
    assert!(!t.conflicts_with(&empty));
    assert!(!empty.conflicts_with(&empty));
}

#[test]
fn nonce_conflict_is_directional() {
    let mut a = ConflictSet::new();
    a.consume_nonce([5; 20], 5);
    let mut b = ConflictSet::new();
    b.consume_nonce([5; 20], 6);
    // a's nonce is lower than b's: a does not conflict with b, b does with a
    assert!(!a.conflicts_with(&b));
    assert!(b.conflicts_with(&a));
    // equal nonces conflict both ways
    let mut c = ConflictSet::new();
    c.consume_nonce([5; 20], 5);
    assert!(a.conflicts_with(&c) && c.conflicts_with(&a));
    // nonces for different addresses never conflict
    let mut d = ConflictSet::new();
    d.consume_nonce([6; 20], 1);
    assert!(!d.conflicts_with(&b) && !b.conflicts_with(&d));
}

#[test]
fn consume_nonce_replaces_previous_nonce() {
    let mut a = ConflictSet::new();
    a.consume_nonce([1; 20], 9);
    a.consume_nonce([1; 20], 2);
    assert_eq!(a.nonce_of(&[1; 20]), Some(2));
    assert_eq!(a.nonce_of(&[2; 20]), None);
}

#[test]
fn merge_takes_union_and_higher_nonce() {
    let mut a = ConflictSet::new();
    a.touch_account([1; 20]);
    a.consume_nonce([1; 20], 3);
    a.consume_nonce([2; 20], 10);
    let mut b = ConflictSet::new();
    b.touch_account([3; 20]);
    b.consume_nonce([1; 20], 7);
    b.consume_nonce([2; 20], 4);
    b.consume_nonce([4; 20], 1);
    a.merge(&b);
    assert!(a.touches(&[1; 20]) && a.touches(&[3; 20]) && !a.touches(&[2; 20]));
    assert_eq!(a.nonce_of(&[1; 20]), Some(7));
    assert_eq!(a.nonce_of(&[2; 20]), Some(10));
    assert_eq!(a.nonce_of(&[4; 20]), Some(1));
    // once merged, the part conflicts with the whole
    assert!(a.conflicts_with(&b));
}

#[test]
fn merge_with_itself_changes_nothing() {
    let mut a = ConflictSet::for_transaction(&tx(4, 1, 2, 1, 1));
    let b = a.clone();
    a.merge(&b);
    assert!(a.touches(&[1; 20]) && a.touches(&[2; 20]));
    assert_eq!(a.nonce_of(&[1; 20]), Some(4));
    assert_eq!(a.nonce_of(&[2; 20]), None);
}

#[test]
fn transaction_and_bundle_conflict_sets() {
    let t = ConflictSet::for_transaction(&tx(8, 1, 2, 1, 1));
    assert!(t.touches(&[1; 20]) && t.touches(&[2; 20]) && !t.touches(&[3; 20]));
    assert_eq!(t.nonce_of(&[1; 20]), Some(8));
    let b = ConflictSet::for_bundle(&Bundle {
        id: [0; 32],
        transactions: vec![tx(1, 3, 4, 1, 1), tx(2, 5, 3, 1, 1)],
        is_latency_sensitive: false,
    });
    assert!(b.touches(&[3; 20]) && b.touches(&[4; 20]) && b.touches(&[5; 20]));
    assert_eq!(b.nonce_of(&[3; 20]), None);
}

#[test]
fn partial_block_keeps_first_fit_items() {
    let txs = vec![
        signed(tx(0, 1, 2, 100, 3), false),
        signed(tx(1, 1, 3, 200, 5), false), // sender 1 already touched
        signed(tx(0, 4, 5, 300, 7), false),
    ];
    let bundles = vec![
        Bundle { id: [1; 32], transactions: vec![tx(0, 5, 6, 10, 1)], is_latency_sensitive: false },
        Bundle {
            id: [2; 32],
            transactions: vec![tx(0, 7, 8, 10, 2), tx(0, 9, 10, 20, 3)],
            is_latency_sensitive: false,
        },
    ];
    let pb = assemble_partial_block([42; 32], txs, bundles).unwrap();
    assert_eq!(pb.builder_id, [42; 32]);
    assert_eq!(pb.transactions.len(), 2);
    assert_eq!(pb.transactions[0].to, [2; 20]);
    assert_eq!(pb.transactions[1].from, [4; 20]);
    assert_eq!(pb.bundles.len(), 1);
    assert_eq!(pb.bundles[0].id, [2; 32]);
    assert_eq!(pb.total_gas_used, 100 + 300 + 10 + 20);
    assert_eq!(pb.estimated_profit, 300 + 2100 + 20 + 60);
    assert!(pb.conflicts.touches(&[9; 20]) && !pb.conflicts.touches(&[6; 20]));
    assert_eq!(pb.conflicts.nonce_of(&[4; 20]), Some(0));
}

#[test]
fn partial_block_gas_overflow_is_reported() {
    let txs = vec![
        signed(tx(0, 1, 2, u64::MAX, 0), false),
        signed(tx(0, 3, 4, 1, 0), false),
    ];
    assert!(matches!(
        assemble_partial_block([0; 32], txs, vec![]),
        Err(BlockError::ArithmeticOverflow)
    ));
}

#[test]
fn partial_block_profit_overflow_is_reported() {
    let txs = vec![signed(tx(0, 1, 2, 2, u128::MAX), false)];
    assert!(matches!(
        assemble_partial_block([0; 32], txs, vec![]),
        Err(BlockError::ArithmeticOverflow)
    ));
}

#[test]
fn nearby_mergers_prefer_own_region_and_cap() {
    let ms = vec![
        merger(1, "eu-west"),
        merger(2, "us-east"),
        merger(3, "eu-west"),
        merger(4, "us-east"),
    ];
    let r = nearby_mergers(&ms, &"us-east".to_string());
    assert_eq!(r, vec![[2; 32], [4; 32], [1; 32], [3; 32]]);

    let many: Vec<NodeInfo> = (1..=7u8).map(|i| merger(i, if i % 2 == 0 { "eu" } else { "us" })).collect();
    let r = nearby_mergers(&many, &"us".to_string());
    assert_eq!(r.len(), MAX_MERGER_CONNECTIONS);
    assert_eq!(r, vec![[1; 32], [3; 32], [5; 32], [7; 32], [2; 32]]);

    let local: Vec<NodeInfo> = (1..=6u8).map(|i| merger(i, "us")).collect();
    let r = nearby_mergers(&local, &"us".to_string());
    assert_eq!(r, vec![[1; 32], [2; 32], [3; 32], [4; 32], [5; 32]]);
}

fn sim(id: u8, region: &str) -> SimulationState {
    SimulationState::new(NodeConfig { id: [id; 32], role: NodeRole::Simulation, region: region.to_string() })
}

#[test]
fn simulation_node_cancellation() {
    let mut s = sim(1, "us");
    let t1 = tx(1, 1, 2, 10, 1);
    let t2 = tx(2, 3, 4, 10, 1);
    let h1 = t1.hash();
    assert!(s.on_message(Message::Transaction(signed(t1.clone(), false))).is_none());
    assert!(s.on_message(Message::Transaction(signed(t2, false))).is_none());
    assert!(s
        .on_message(Message::Bundle(Bundle { id: [5; 32], transactions: vec![], is_latency_sensitive: false }))
        .is_none());
    let gossip = s.on_message(Message::Cancellation(CancellationRequest {
        tx_hash: Some(h1),
        bundle_id: Some([5; 32]),
    }));
    match gossip {
        Some(Message::Cancellation(c)) => {
            assert_eq!(c.tx_hash, Some(h1));
            assert_eq!(c.bundle_id, Some([5; 32]));
        }
        _ => panic!("cancellation must be gossiped"),
    }
    // a cancelled transaction arriving again is dropped
    assert!(s.on_message(Message::Transaction(signed(t1, false))).is_none());
    s.on_message(Message::NodeAnnouncement(merger(9, "us")));
    let out = s.take_partial_block().unwrap().unwrap();
    assert_eq!(out.block.transactions.len(), 1);
    assert_eq!(out.block.transactions[0].nonce, 2);
    assert_eq!(out.block.bundles.len(), 0);
    assert_eq!(out.mergers, vec![[9u8; 32]]);
    // everything pending was taken
    assert!(s.take_partial_block().unwrap().is_none());
}

#[test]
fn simulation_node_ignores_simulation_announcements_and_replaces_mergers() {
    let mut s = sim(1, "us");
    s.on_message(Message::NodeAnnouncement(NodeInfo {
        id: [2; 32],
        role: NodeRole::Simulation,
        region: "us".to_string(),
    }));
    s.on_message(Message::NodeAnnouncement(merger(3, "eu")));
    s.on_message(Message::NodeAnnouncement(merger(4, "us")));
    s.on_message(Message::NodeAnnouncement(merger(3, "us")));
    s.on_message(Message::Transaction(signed(tx(0, 1, 2, 1, 1), false)));
    let out = s.take_partial_block().unwrap().unwrap();
    assert_eq!(out.mergers, vec![[3u8; 32], [4u8; 32]]);
    let a = s.announcement();
    assert_eq!(a.id, [1; 32]);
    assert_eq!(a.role, NodeRole::Simulation);
    assert_eq!(a.region, "us");
}

#[test]
fn density_order_is_descending_with_later_ties_first() {
    let ps = vec![
        partial(1, 10, 100, &[1]), // 10
        partial(2, 0, 500, &[2]),  // 0
        partial(3, 5, 50, &[3]),   // 10
        partial(4, 1, 30, &[4]),   // 30
    ];
    assert_eq!(density_of(&ps[0]), 10);
    assert_eq!(density_of(&ps[1]), 0);
    let out = order_by_profit_density(ps);
    let order: Vec<u8> = out.iter().map(|p| p.builder_id[0]).collect();
    assert_eq!(order, vec![4, 3, 1, 2]);
}

#[test]
fn huge_density_is_considered_first() {
    let p = partial(1, 1, u128::MAX, &[1]);
    assert_eq!(density_of(&p), u128::MAX);
    let out = order_by_profit_density(vec![partial(2, 1, 5, &[2]), p]);
    let order: Vec<u8> = out.iter().map(|p| p.builder_id[0]).collect();
    assert_eq!(order, vec![1, 2]);
}

#[test]
fn final_block_skips_conflicting_partials() {
    let ps = vec![
        partial(1, 10, 100, &[1, 2]), // density 10
        partial(2, 10, 300, &[2]),    // density 30, conflicts with block 1
        partial(3, 10, 200, &[3]),    // density 20
    ];
    let ls = vec![signed(tx(0, 3, 9, 2, 5), true), signed(tx(0, 7, 8, 2, 5), true)];
    let b = assemble_block(ps, ls, vec![]).unwrap();
    let froms: Vec<u8> = b.transactions.iter().map(|t| t.from[0]).collect();
    // the latency-sensitive transactions come first; then block 2 (highest
    // density); block 3 touches account 3, taken by the first
    // latency-sensitive transaction, and block 1 shares account 2 with block 2
    assert_eq!(froms, vec![3, 7, 2]);
    assert_eq!(b.total_profit, 10 + 10 + 300);
}

#[test]
fn final_block_profit_overflow_is_reported() {
    let ps = vec![partial(1, 1, u128::MAX, &[1]), partial(2, 1, 1, &[2])];
    assert!(matches!(merge_ordered(ps, vec![], vec![]), Err(BlockError::ArithmeticOverflow)));
}

#[test]
fn merging_node_keeps_only_latency_sensitive_orderflow() {
    let mut m = MergingState::new(NodeConfig { id: [1; 32], role: NodeRole::Merging, region: "us".to_string() });
    assert!(m.take_block().unwrap().is_none());
    m.on_message(Message::Transaction(signed(tx(0, 1, 2, 1, 4), false)));
    assert!(m.take_block().unwrap().is_none());
    m.on_message(Message::Transaction(signed(tx(0, 3, 4, 1, 4), true)));
    m.on_message(Message::PartialBlock(partial(5, 2, 8, &[5])));
    m.on_message(Message::Cancellation(CancellationRequest { tx_hash: None, bundle_id: None }));
    let b = m.take_block().unwrap().unwrap();
    let froms: Vec<u8> = b.transactions.iter().map(|t| t.from[0]).collect();
    assert_eq!(froms, vec![3, 5]);
    assert_eq!(b.total_profit, 8 + 4);
    // a latency-sensitive bundle goes into the block
    m.on_message(Message::Bundle(Bundle { id: [1; 32], transactions: vec![tx(0, 1, 2, 1, 1)], is_latency_sensitive: true }));
    let b = m.take_block().unwrap().unwrap();
    assert_eq!(b.transactions.len(), 1);
    assert_eq!(b.transactions[0].from, [1; 20]);
    assert_eq!(b.total_profit, 1);
    let a = m.announcement();
    assert_eq!(a.role, NodeRole::Merging);
}

#[test]
fn routing_broadcast_and_direct() {
    let ids: Vec<NodeId> = vec![[1; 32], [2; 32], [3; 32]];
    assert_eq!(route(&ids, &[2; 32], &broadcast_target()), vec![[1u8; 32], [3u8; 32]]);
    assert_eq!(route(&ids, &[2; 32], &[3; 32]), vec![[3u8; 32]]);
    assert_eq!(route(&ids, &[2; 32], &[9; 32]), Vec::<NodeId>::new());
    assert_eq!(broadcast_target(), [0u8; 32]);
}

#[test]
fn hex_encoding_is_lowercase_two_digits_per_byte() {
    assert_eq!(encode(&[0x00, 0x0f, 0xa5, 0xff]), "000fa5ff");
    assert_eq!(encode(&[]), "");
    let id = [0xabu8; 32];
    assert_eq!(encode(&id[0..4]), "abababab");
}

#[test]
fn merge_order_does_not_matter() {
    let mut a = ConflictSet::for_transaction(&tx(3, 1, 2, 1, 1));
    let mut b = ConflictSet::for_transaction(&tx(9, 1, 4, 1, 1));
    let a0 = a.clone();
    a.merge(&b);
    b.merge(&a0);
    for k in [1u8, 2, 4, 5] {
        assert_eq!(a.touches(&[k; 20]), b.touches(&[k; 20]));
        assert_eq!(a.nonce_of(&[k; 20]), b.nonce_of(&[k; 20]));
    }
    assert_eq!(a.nonce_of(&[1; 20]), Some(9));
}

#[test]
fn transaction_conflicts_are_symmetric() {
    let a = ConflictSet::for_transaction(&tx(3, 1, 2, 1, 1));
    let b = ConflictSet::for_transaction(&tx(9, 1, 4, 1, 1));
    let c = ConflictSet::for_transaction(&tx(9, 5, 6, 1, 1));
    assert!(a.conflicts_with(&b) && b.conflicts_with(&a));
    assert!(!a.conflicts_with(&c) && !c.conflicts_with(&a));
}

#[test]
fn merged_partial_block_keeps_its_bundles() {
    let mut p = partial(1, 10, 50, &[1, 3, 4]);
    p.bundles = vec![Bundle {
        id: [7; 32],
        transactions: vec![tx(0, 3, 4, 5, 2), tx(1, 4, 3, 5, 2)],
        is_latency_sensitive: false,
    }];
    let b = assemble_block(vec![p], vec![], vec![]).unwrap();
    let froms: Vec<u8> = b.transactions.iter().map(|t| t.from[0]).collect();
    assert_eq!(froms, vec![1, 3, 4]);
    assert_eq!(b.total_profit, 50);
}

#[test]
fn latency_sensitive_bundles_come_after_transactions_and_before_partials() {
    let ls_txs = vec![signed(tx(0, 1, 2, 1, 3), true)];
    let ls_bundles = vec![
        Bundle { id: [1; 32], transactions: vec![tx(0, 2, 5, 1, 100)], is_latency_sensitive: true },
        Bundle { id: [2; 32], transactions: vec![tx(0, 6, 7, 2, 4)], is_latency_sensitive: true },
    ];
    let ps = vec![partial(9, 1, 1000, &[7]), partial(8, 1, 10, &[8])];
    let b = assemble_block(ps, ls_txs, ls_bundles).unwrap();
    let froms: Vec<u8> = b.transactions.iter().map(|t| t.from[0]).collect();
    // bundle 1 shares account 2 with the transaction; partial 9 shares
    // account 7 with bundle 2
    assert_eq!(froms, vec![1, 6, 8]);
    assert_eq!(b.total_profit, 3 + 8 + 10);
}

#[test]
fn merging_node_applies_cancellations() {
    let mut m = MergingState::new(NodeConfig { id: [1; 32], role: NodeRole::Merging, region: "us".to_string() });
    let t = tx(0, 3, 4, 1, 4);
    let h = t.hash();
    m.on_message(Message::Transaction(signed(t.clone(), true)));
    m.on_message(Message::Bundle(Bundle { id: [6; 32], transactions: vec![tx(0, 5, 6, 1, 1)], is_latency_sensitive: true }));
    m.on_message(Message::Cancellation(CancellationRequest { tx_hash: Some(h), bundle_id: Some([6; 32]) }));
    assert!(m.take_block().unwrap().is_none());
    // they are refused when they arrive again
    m.on_message(Message::Transaction(signed(t, true)));
    m.on_message(Message::Bundle(Bundle { id: [6; 32], transactions: vec![tx(0, 5, 6, 1, 1)], is_latency_sensitive: true }));
    assert!(m.take_block().unwrap().is_none());
}

#[test]
fn known_cancellation_is_not_gossiped_again() {
    let mut s = sim(1, "us");
    let c = CancellationRequest { tx_hash: Some([3; 32]), bundle_id: None };
    assert!(s.on_message(Message::Cancellation(c.clone())).is_some());
    assert!(s.on_message(Message::Cancellation(c)).is_none());
    // a request naming one new identifier is passed on
    let c2 = CancellationRequest { tx_hash: Some([3; 32]), bundle_id: Some([4; 32]) };
    assert!(s.on_message(Message::Cancellation(c2.clone())).is_some());
    assert!(s.on_message(Message::Cancellation(c2)).is_none());
    // a request naming nothing is not passed on
    let empty = CancellationRequest { tx_hash: None, bundle_id: None };
    assert!(s.on_message(Message::Cancellation(empty)).is_none());
}
