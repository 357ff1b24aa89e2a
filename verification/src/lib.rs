//! Decision logic of a two-tier distributed block builder.
//!
//! Simulation nodes collect orderflow and cut it into conflict-free partial
//! blocks; merging nodes combine partial blocks into a final block.  This
//! crate holds the data model, the conflict detection, the block assembly
//! rules, the per-node state machines and the message routing rule, each
//! with a machine-checked contract.  Timers, channels and the async runtime
//! live outside this crate.

pub mod bytes;
pub mod conflict;
pub mod hex;
pub mod merging;
pub mod partial;
pub mod routing;
pub mod simulation;
pub mod types;

pub use conflict::ConflictSet;
pub use types::{
    Address, BlockNumber, Bundle, CancellationRequest, Message, NodeConfig, NodeId, NodeInfo,
    NodeRole, PartialBlock, SignedTransaction, Timestamp, Transaction, MAX_MERGER_CONNECTIONS,
};
