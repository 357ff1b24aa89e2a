//! The protocol's data model: identifiers, transactions, bundles, partial
//! blocks and the messages that nodes exchange.

use vstd::prelude::*;

use crate::conflict::ConflictSet;

verus! {

/// Identifier of a node.
pub type NodeId = [u8; 32];

/// Identifier of a transaction or a bundle.
pub type Hash = [u8; 32];

/// An account address.
pub type Address = [u8; 20];

pub type BlockNumber = u64;

pub type Timestamp = u64;

/// Each simulation node sends its partial blocks to at most this many mergers.
pub const MAX_MERGER_CONNECTIONS: usize = 5;

/// A transaction as it travels through the network.
#[derive(Clone, Debug)]
pub struct Transaction {
    pub nonce: u64,
    pub from: Address,
    pub to: Address,
    pub value: u128,
    pub gas_limit: u64,
    pub gas_price: u128,
    pub data: Vec<u8>,
}

/// The eight bytes of `n`, most significant first.
pub open spec fn be_bytes(n: u64) -> Seq<u8> {
    seq![
        (n >> 56u64) as u8,
        (n >> 48u64) as u8,
        (n >> 40u64) as u8,
        (n >> 32u64) as u8,
        (n >> 24u64) as u8,
        (n >> 16u64) as u8,
        (n >> 8u64) as u8,
        n as u8,
    ]
}

/// The identifier of a transaction with this nonce and sender: the nonce in
/// big-endian order, then the sender's twenty bytes, then four zero bytes.
pub open spec fn tx_hash_of(nonce: u64, from: Seq<u8>) -> Seq<u8> {
    be_bytes(nonce) + from + seq![0u8, 0u8, 0u8, 0u8]
}

/// The identifier of a transaction, as a byte sequence.
pub open spec fn spec_tx_hash(tx: Transaction) -> Seq<u8> {
    tx_hash_of(tx.nonce, tx.from@)
}

/// What a transaction adds to a block's profit estimate.
pub open spec fn tx_profit(tx: Transaction) -> int {
    tx.gas_price * tx.gas_limit
}

impl Transaction {
    /// The transaction's identifier: only the nonce and the sender go into it.
    pub fn hash(&self) -> (h: Hash)
        ensures
            h@ == spec_tx_hash(*self),
    {
        let mut h: Hash = [0u8; 32];
        let n = self.nonce;
        h[0] = (n >> 56u64) as u8;
        h[1] = (n >> 48u64) as u8;
        h[2] = (n >> 40u64) as u8;
        h[3] = (n >> 32u64) as u8;
        h[4] = (n >> 24u64) as u8;
        h[5] = (n >> 16u64) as u8;
        h[6] = (n >> 8u64) as u8;
        h[7] = n as u8;
        let mut i: usize = 0;
        while i < 20
            invariant
                0 <= i <= 20,
                h@.len() == 32,
                h@.subrange(0, 8) == be_bytes(n),
                forall|j: int| 0 <= j < i ==> h@[8 + j] == self.from@[j],
                forall|j: int| 8 + i <= j < 32 ==> h@[j] == 0u8,
            decreases 20 - i,
        {
            h[8 + i] = self.from[i];
            i = i + 1;
        }
        assert(h@ =~= spec_tx_hash(*self));
        h
    }
}

/// A transaction together with how it was received.
#[derive(Clone, Debug)]
pub struct SignedTransaction {
    pub tx: Transaction,
    pub signature: Vec<u8>,
    pub received_at: Timestamp,
    pub is_latency_sensitive: bool,
}

/// A group of transactions that is included whole or not at all.
#[derive(Clone, Debug)]
pub struct Bundle {
    pub id: Hash,
    pub transactions: Vec<Transaction>,
    pub is_latency_sensitive: bool,
}

/// A conflict-free set of transactions and bundles built by a simulation node.
#[derive(Clone, Debug)]
pub struct PartialBlock {
    pub builder_id: NodeId,
    pub transactions: Vec<Transaction>,
    pub bundles: Vec<Bundle>,
    pub total_gas_used: u64,
    pub estimated_profit: u128,
    pub conflicts: ConflictSet,
}

/// A request to drop a transaction, a bundle, or both.
#[derive(Clone, Debug)]
pub struct CancellationRequest {
    pub tx_hash: Option<Hash>,
    pub bundle_id: Option<Hash>,
}

/// The two roles a node can be deployed with.
#[derive(Clone, Debug, PartialEq, Eq, Structural)]
pub enum NodeRole {
    Simulation,
    Merging,
}

/// What a node announces about itself.
#[derive(Clone, Debug)]
pub struct NodeInfo {
    pub id: NodeId,
    pub role: NodeRole,
    pub region: String,
}

/// A node's deployment configuration; the role is fixed here.
#[derive(Clone, Debug)]
pub struct NodeConfig {
    pub id: NodeId,
    pub role: NodeRole,
    pub region: String,
}

/// Messages exchanged between nodes.  Orderflow (transactions, bundles and
/// partial blocks) goes directly to its destination; announcements and
/// cancellations may be gossiped.
#[derive(Clone, Debug)]
pub enum Message {
    Transaction(SignedTransaction),
    Bundle(Bundle),
    PartialBlock(PartialBlock),
    NodeAnnouncement(NodeInfo),
    Cancellation(CancellationRequest),
}

/// The address that stands for "every other node".
pub open spec fn is_broadcast_target(id: Seq<u8>) -> bool {
    id == Seq::new(32, |i: int| 0u8)
}

/// Two transactions with the same nonce and sender have the same identifier,
/// and the identifier determines the nonce and the sender.
pub proof fn lemma_tx_hash_identifies_nonce_and_sender(t1: Transaction, t2: Transaction)
    ensures
        (spec_tx_hash(t1) == spec_tx_hash(t2)) <==> (t1.nonce == t2.nonce && t1.from@ == t2.from@),
{
    let h1 = spec_tx_hash(t1);
    let h2 = spec_tx_hash(t2);
    if h1 == h2 {
        let a = t1.nonce;
        let b = t2.nonce;
        assert(h1[0] == h2[0] && h1[1] == h2[1] && h1[2] == h2[2] && h1[3] == h2[3]);
        assert(h1[4] == h2[4] && h1[5] == h2[5] && h1[6] == h2[6] && h1[7] == h2[7]);
        assert(a == b) by (bit_vector)
            requires
                (a >> 56u64) as u8 == (b >> 56u64) as u8,
                (a >> 48u64) as u8 == (b >> 48u64) as u8,
                (a >> 40u64) as u8 == (b >> 40u64) as u8,
                (a >> 32u64) as u8 == (b >> 32u64) as u8,
                (a >> 24u64) as u8 == (b >> 24u64) as u8,
                (a >> 16u64) as u8 == (b >> 16u64) as u8,
                (a >> 8u64) as u8 == (b >> 8u64) as u8,
                a as u8 == b as u8,
        ;
        assert(t1.from@ =~= h1.subrange(8, 28));
        assert(t2.from@ =~= h2.subrange(8, 28));
    }
}

} // verus!
