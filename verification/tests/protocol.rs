use distributed_block_builder::merging::MergingState;
use distributed_block_builder::routing::{broadcast_target, route};
use distributed_block_builder::simulation::SimulationState;
use distributed_block_builder::{
    Bundle, CancellationRequest, ConflictSet, Message, NodeConfig, NodeId, NodeRole,
    SignedTransaction, Transaction,
};

fn message_type(msg: &Message) -> &'static str {
    match msg {
        Message::Transaction(_) => "Transaction",
        Message::Bundle(_) => "Bundle",
        Message::PartialBlock(_) => "PartialBlock",
        Message::NodeAnnouncement(_) => "NodeAnnouncement",
        Message::Cancellation(_) => "Cancellation",
    }
}

fn signed(nonce: u64, from: u8, to: u8) -> SignedTransaction {
    SignedTransaction {
        tx: Transaction {
            nonce,
            from: [from; 20],
            to: [to; 20],
            value: 1,
            gas_limit: 21_000,
            gas_price: 2,
            data: vec![],
        },
        signature: vec![],
        received_at: 0,
        is_latency_sensitive: false,
    }
}

enum Node {
    Sim(SimulationState),
    Merger(MergingState),
}

/// A synchronous run of one merger and three simulation nodes over the
/// hub's relay rule: every message handed to the network is logged as
/// (sender, target, type), then delivered to the recipients `route` names.
#[test]
fn test_basic_protocol() {
    let merger_id: NodeId = [1u8; 32];
    let sim_ids: Vec<NodeId> = vec![[2u8; 32], [3u8; 32], [4u8; 32]];

    let mut ids: Vec<NodeId> = vec![merger_id];
    let mut nodes: Vec<Node> = vec![Node::Merger(MergingState::new(NodeConfig {
        id: merger_id,
        role: NodeRole::Merging,
        region: "us-east".to_string(),
    }))];
    for id in &sim_ids {
        ids.push(*id);
        nodes.push(Node::Sim(SimulationState::new(NodeConfig {
            id: *id,
            role: NodeRole::Simulation,
            region: "us-east".to_string(),
        })));
    }

    let mut log: Vec<(NodeId, NodeId, String)> = Vec::new();
    let mut outbox: Vec<(NodeId, NodeId, Message)> = Vec::new();

    // every node announces itself
    for (k, node) in nodes.iter().enumerate() {
        let info = match node {
            Node::Sim(s) => s.announcement(),
            Node::Merger(m) => m.announcement(),
        };
        outbox.push((ids[k], broadcast_target(), Message::NodeAnnouncement(info)));
    }

    // orderflow arrives from users, plus a cancellation
    let mut inbox: Vec<(usize, Message)> = vec![
        (1, Message::Transaction(signed(0, 10, 11))),
        (2, Message::Transaction(signed(0, 12, 13))),
        (3, Message::Bundle(Bundle {
            id: [9u8; 32],
            transactions: vec![signed(0, 14, 15).tx],
            is_latency_sensitive: false,
        })),
        (1, Message::Cancellation(CancellationRequest { tx_hash: Some([7u8; 32]), bundle_id: None })),
    ];

    for round in 0..3 {
        // relay
        while let Some((sender, target, msg)) = outbox.pop() {
            log.push((sender, target, message_type(&msg).to_string()));
            for r in route(&ids, &sender, &target) {
                let k = ids.iter().position(|id| *id == r).unwrap();
                inbox.push((k, msg.clone()));
            }
        }
        // deliver
        for (k, msg) in inbox.drain(..) {
            match &mut nodes[k] {
                Node::Sim(s) => {
                    if let Some(g) = s.on_message(msg) {
                        outbox.push((ids[k], broadcast_target(), g));
                    }
                }
                Node::Merger(m) => m.on_message(msg),
            }
        }
        // timers
        if round >= 1 {
            for k in 0..nodes.len() {
                match &mut nodes[k] {
                    Node::Sim(s) => {
                        if let Some(out) = s.take_partial_block().unwrap() {
                            for m in out.mergers {
                                outbox.push((ids[k], m, Message::PartialBlock(out.block.clone())));
                            }
                        }
                    }
                    Node::Merger(_) => {}
                }
            }
        }
    }
    while let Some((sender, target, msg)) = outbox.pop() {
        log.push((sender, target, message_type(&msg).to_string()));
    }

    // Test 1: no orderflow gossip between simulation nodes
    let tx_between_sims = log
        .iter()
        .filter(|(from, to, msg_type)| {
            sim_ids.contains(from)
                && sim_ids.contains(to)
                && (msg_type == "Transaction" || msg_type == "Bundle")
        })
        .count();
    assert_eq!(tx_between_sims, 0, "Found orderflow gossip between simulation nodes!");

    // Test 2: partial blocks are sent to the merger
    let partial_blocks_to_merger = log
        .iter()
        .filter(|(from, to, msg_type)| {
            sim_ids.contains(from) && *to == merger_id && msg_type == "PartialBlock"
        })
        .count();
    assert_eq!(partial_blocks_to_merger, 3);

    // Test 3: the cancellation is gossiped
    let cancellation_msgs = log.iter().filter(|(_, _, t)| t == "Cancellation").count();
    assert!(cancellation_msgs >= 1);

    // the merger builds one block from the three partial blocks
    if let Node::Merger(m) = &mut nodes[0] {
        let block = m.take_block().unwrap().unwrap();
        // each partial block is submitted whole, the bundle's transaction included
        assert_eq!(block.transactions.len(), 3);
        assert_eq!(block.total_profit, 3 * 42_000);
    } else {
        panic!("node 0 is the merger");
    }
}

#[test]
fn test_role_separation() {
    let sim_config = NodeConfig {
        id: [1u8; 32],
        role: NodeRole::Simulation,
        region: "us-east".to_string(),
    };

    let merge_config = NodeConfig {
        id: [2u8; 32],
        role: NodeRole::Merging,
        region: "us-east".to_string(),
    };

    assert!(matches!(sim_config.role, NodeRole::Simulation));
    assert!(matches!(merge_config.role, NodeRole::Merging));
}

#[test]
fn test_conflict_detection() {
    let mut conflicts1 = ConflictSet::new();
    let mut conflicts2 = ConflictSet::new();

    let addr1 = [1u8; 20];
    let addr2 = [2u8; 20];

    // Set 1: touches addr1
    conflicts1.touch_account(addr1);
    conflicts1.consume_nonce(addr1, 5);

    // Set 2: touches addr1 - should conflict
    conflicts2.touch_account(addr1);

    assert!(conflicts1.conflicts_with(&conflicts2));

    // Non-conflicting sets
    let mut conflicts3 = ConflictSet::new();
    conflicts3.touch_account(addr2);

    assert!(!conflicts1.conflicts_with(&conflicts3));
}
