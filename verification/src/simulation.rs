//! The decisions of a simulation node: which orderflow it keeps, what a
//! cancellation removes, which mergers it knows, and what partial block it
//! sends to which mergers when its block timer fires.

use vstd::prelude::*;

use crate::bytes::bytes_eq;
use crate::partial::{
    assemble_partial_block, lemma_partial_block_drawn_from_input, partial_selection, selection_fits,
    BlockError,
};
use crate::types::{
    spec_tx_hash, Bundle, CancellationRequest, Message, NodeConfig, NodeId, NodeInfo, NodeRole,
    PartialBlock, SignedTransaction, Transaction, MAX_MERGER_CONNECTIONS,
};

verus! {

/// The ids of the listed mergers whose region is (`same`) or is not
/// (`!same`) `region`, in list order.
pub open spec fn merger_ids_by_region(mergers: Seq<NodeInfo>, region: Seq<char>, same: bool) -> Seq<
    NodeId,
>
    decreases mergers.len(),
{
    if mergers.len() == 0 {
        Seq::empty()
    } else {
        let rest = merger_ids_by_region(mergers.drop_last(), region, same);
        if (mergers.last().region@ == region) == same {
            rest.push(mergers.last().id)
        } else {
            rest
        }
    }
}

/// The mergers a node in `region` sends its partial blocks to: the
/// mergers of its own region, followed, when they are fewer than
/// `MAX_MERGER_CONNECTIONS`, by those of other regions; at most
/// `MAX_MERGER_CONNECTIONS` in all.
pub open spec fn nearby_merger_ids(mergers: Seq<NodeInfo>, region: Seq<char>) -> Seq<NodeId> {
    let local = merger_ids_by_region(mergers, region, true);
    let chosen = if local.len() < MAX_MERGER_CONNECTIONS {
        local + merger_ids_by_region(mergers, region, false)
    } else {
        local
    };
    if chosen.len() > MAX_MERGER_CONNECTIONS {
        chosen.take(MAX_MERGER_CONNECTIONS as int)
    } else {
        chosen
    }
}

fn collect_merger_ids(mergers: &Vec<NodeInfo>, region: &String, same: bool, out: &mut Vec<NodeId>)
    ensures
        final(out)@ == old(out)@ + merger_ids_by_region(mergers@, region@, same),
{
    let ghost start = out@;
    let mut i: usize = 0;
    while i < mergers.len()
        invariant
            0 <= i <= mergers@.len(),
            out@ == start + merger_ids_by_region(mergers@.take(i as int), region@, same),
        decreases mergers@.len() - i,
    {
        proof {
            assert(mergers@.take(i + 1).drop_last() =~= mergers@.take(i as int));
            assert(mergers@.take(i + 1).last() == mergers@[i as int]);
        }
        let in_region = mergers[i].region == *region;
        if in_region == same {
            out.push(mergers[i].id);
            assert(out@ =~= start + merger_ids_by_region(mergers@.take(i + 1), region@, same));
        }
        i = i + 1;
    }
    assert(mergers@.take(i as int) =~= mergers@);
}

/// The mergers that a node in `region` sends its partial blocks to, taken
/// from the known mergers in the order they are listed.
pub fn nearby_mergers(mergers: &Vec<NodeInfo>, region: &String) -> (r: Vec<NodeId>)
    ensures
        r@ == nearby_merger_ids(mergers@, region@),
{
    let mut list: Vec<NodeId> = Vec::new();
    collect_merger_ids(mergers, region, true, &mut list);
    if list.len() < MAX_MERGER_CONNECTIONS {
        collect_merger_ids(mergers, region, false, &mut list);
    }
    list.truncate(MAX_MERGER_CONNECTIONS);
    assert(list@ =~= nearby_merger_ids(mergers@, region@));
    list
}

/// `mergers` with `info` recorded under its id: it replaces the first
/// entry with the same id, or is added at the end.
pub open spec fn record_merger(mergers: Seq<NodeInfo>, info: NodeInfo) -> Seq<NodeInfo> {
    if exists|j: int| 0 <= j < mergers.len() && mergers[j].id@ == info.id@ {
        mergers.update(
            choose|j: int|
                0 <= j < mergers.len() && mergers[j].id@ == info.id@ && forall|k: int|
                    0 <= k < j ==> mergers[k].id@ != info.id@,
            info,
        )
    } else {
        mergers.push(info)
    }
}

pub(crate) fn record_merger_in(mergers: &mut Vec<NodeInfo>, info: NodeInfo)
    ensures
        final(mergers)@ == record_merger(old(mergers)@, info),
{
    let mut i: usize = 0;
    while i < mergers.len()
        invariant
            0 <= i <= mergers@.len(),
            mergers@ == old(mergers)@,
            forall|k: int| 0 <= k < i ==> mergers@[k].id@ != info.id@,
        decreases mergers@.len() - i,
    {
        if bytes_eq(&mergers[i].id, &info.id) {
            let ghost v = mergers@;
            proof {
                let j = choose|j: int|
                    0 <= j < v.len() && v[j].id@ == info.id@ && forall|k: int|
                        0 <= k < j ==> v[k].id@ != info.id@;
                if j < i {
                } else if j > i {
                    assert(v[i as int].id@ == info.id@);
                }
                assert(j == i);
            }
            mergers.set(i, info);
            return ;
        }
        i = i + 1;
    }
    mergers.push(info);
}

/// The pending transactions whose identifier is not `h`.
pub open spec fn without_tx(txs: Seq<SignedTransaction>, h: Seq<u8>) -> Seq<SignedTransaction> {
    txs.filter(|t: SignedTransaction| spec_tx_hash(t.tx) != h)
}

/// The pending bundles whose id is not `id`.
pub open spec fn without_bundle(bundles: Seq<Bundle>, id: Seq<u8>) -> Seq<Bundle> {
    bundles.filter(|b: Bundle| b.id@ != id)
}

pub(crate) fn remove_tx(txs: Vec<SignedTransaction>, h: &crate::types::Hash) -> (r: Vec<SignedTransaction>)
    ensures
        r@ == without_tx(txs@, h@),
{
    let ghost all = txs@;
    let ghost pred = |t: SignedTransaction| spec_tx_hash(t.tx) != h@;
    let mut rest = txs;
    let mut kept: Vec<SignedTransaction> = Vec::new();
    let ghost mut i: int = 0;
    while rest.len() > 0
        invariant
            0 <= i <= all.len(),
            rest@ == all.skip(i),
            kept@ == all.take(i).filter(pred),
            pred == (|t: SignedTransaction| spec_tx_hash(t.tx) != h@),
        decreases rest@.len(),
    {
        let stx = rest.remove(0);
        proof {
            assert(all[i] == stx);
            assert(all.take(i + 1).drop_last() =~= all.take(i));
            assert(all.take(i + 1).last() == stx);
        }
        let th = stx.tx.hash();
        if !bytes_eq(&th, h) {
            kept.push(stx);
        }
        assert(kept@ == all.take(i + 1).filter(pred)) by {
            reveal(Seq::filter);
        }
        proof {
            i = i + 1;
            assert(rest@ =~= all.skip(i));
        }
    }
    assert(all.take(i) =~= all);
    kept
}

pub(crate) fn remove_bundle(bundles: Vec<Bundle>, id: &crate::types::Hash) -> (r: Vec<Bundle>)
    ensures
        r@ == without_bundle(bundles@, id@),
{
    let ghost all = bundles@;
    let ghost pred = |b: Bundle| b.id@ != id@;
    let mut rest = bundles;
    let mut kept: Vec<Bundle> = Vec::new();
    let ghost mut i: int = 0;
    while rest.len() > 0
        invariant
            0 <= i <= all.len(),
            rest@ == all.skip(i),
            kept@ == all.take(i).filter(pred),
            pred == (|b: Bundle| b.id@ != id@),
        decreases rest@.len(),
    {
        let b = rest.remove(0);
        proof {
            assert(all[i] == b);
            assert(all.take(i + 1).drop_last() =~= all.take(i));
            assert(all.take(i + 1).last() == b);
        }
        if !bytes_eq(&b.id, id) {
            kept.push(b);
        }
        assert(kept@ == all.take(i + 1).filter(pred)) by {
            reveal(Seq::filter);
        }
        proof {
            i = i + 1;
            assert(rest@ =~= all.skip(i));
        }
    }
    assert(all.take(i) =~= all);
    kept
}

/// Whether `h` is among the listed identifiers.
pub(crate) fn list_contains(list: &Vec<crate::types::Hash>, h: &crate::types::Hash) -> (r: bool)
    ensures
        r == exists|j: int| 0 <= j < list@.len() && list@[j]@ == h@,
{
    let mut i: usize = 0;
    while i < list.len()
        invariant
            0 <= i <= list@.len(),
            forall|k: int| 0 <= k < i ==> list@[k]@ != h@,
        decreases list@.len() - i,
    {
        if bytes_eq(&list[i], h) {
            return true;
        }
        i = i + 1;
    }
    false
}

/// The cancelled identifiers after `c` has been applied.
pub open spec fn cancelled_after(cancelled: Set<Seq<u8>>, c: CancellationRequest) -> Set<Seq<u8>> {
    cancelled.union(
        match c.tx_hash {
            Some(h) => set![h@],
            None => Set::empty(),
        },
    ).union(
        match c.bundle_id {
            Some(b) => set![b@],
            None => Set::empty(),
        },
    )
}

/// Every identifier that `c` names is already cancelled.
pub open spec fn cancellation_known(cancelled: Set<Seq<u8>>, c: CancellationRequest) -> bool {
    &&& (c.tx_hash matches Some(h) ==> cancelled.contains(h@))
    &&& (c.bundle_id matches Some(b) ==> cancelled.contains(b@))
}

/// The identifiers held in a list, as a set.
pub open spec fn id_set(list: Seq<crate::types::Hash>) -> Set<Seq<u8>> {
    Set::new(|h: Seq<u8>| exists|j: int| 0 <= j < list.len() && list[j]@ == h)
}

/// Adds `h` to the list unless it is listed already.
fn add_id(list: &mut Vec<crate::types::Hash>, h: crate::types::Hash)
    ensures
        id_set(final(list)@) == id_set(old(list)@).insert(h@),
{
    if list_contains(list, &h) {
        assert(id_set(list@) =~= id_set(list@).insert(h@));
    } else {
        let ghost c0 = list@;
        list.push(h);
        proof {
            let c1 = list@;
            assert forall|x: Seq<u8>| id_set(c1).contains(x) <==> id_set(c0).insert(h@).contains(x) by {
                if id_set(c1).contains(x) {
                    let j = choose|j: int| 0 <= j < c1.len() && c1[j]@ == x;
                    if j < c0.len() {
                        assert(id_set(c0).contains(x));
                    }
                }
                if id_set(c0).contains(x) {
                    let j = choose|j: int| 0 <= j < c0.len() && c0[j]@ == x;
                    assert(c1[j] == c0[j]);
                }
                if x == h@ {
                    assert(c1[c0.len() as int]@ == x);
                }
            }
            assert(id_set(c1) =~= id_set(c0).insert(h@));
        }
    }
}

/// Adds the identifiers that `c` names to the list, each only if it is
/// not listed already.
pub(crate) fn record_cancelled(list: &mut Vec<crate::types::Hash>, c: &CancellationRequest)
    ensures
        id_set(final(list)@) == cancelled_after(id_set(old(list)@), *c),
{
    let ghost s0 = id_set(list@);
    if let Some(h) = c.tx_hash {
        add_id(list, h);
    }
    let ghost s1 = id_set(list@);
    if let Some(b) = c.bundle_id {
        add_id(list, b);
    }
    proof {
        let extra_tx: Set<Seq<u8>> = match c.tx_hash {
            Some(h) => set![h@],
            None => Set::empty(),
        };
        let extra_b: Set<Seq<u8>> = match c.bundle_id {
            Some(b) => set![b@],
            None => Set::empty(),
        };
        assert(s1 =~= s0.union(extra_tx));
        assert(id_set(list@) =~= s1.union(extra_b));
    }
}

/// What a simulation node sends when its block timer fires: a partial
/// block and the mergers it goes to.
pub struct Outgoing {
    pub block: PartialBlock,
    pub mergers: Vec<NodeId>,
}

/// The state of a simulation node.  Orderflow that reaches it is kept
/// here until the next partial block; it is never passed on to other
/// simulation nodes.
///
/// The known mergers (a map from id to announcement) and the cancelled
/// identifiers (a set) are held as vectors, since vstd's `HashMap` and
/// `HashSet` specifications do not cover byte-array keys; `record_merger`
/// keeps one entry per id (`lemma_record_merger_keeps_ids_distinct`).
pub struct SimulationState {
    id: NodeId,
    region: String,
    mergers: Vec<NodeInfo>,
    pending_txs: Vec<SignedTransaction>,
    pending_bundles: Vec<Bundle>,
    cancelled: Vec<crate::types::Hash>,
}

impl SimulationState {
    pub closed spec fn node_id(&self) -> NodeId {
        self.id
    }

    pub closed spec fn region(&self) -> Seq<char> {
        self.region@
    }

    /// The known mergers, in the order they became known.
    pub closed spec fn mergers(&self) -> Seq<NodeInfo> {
        self.mergers@
    }

    pub closed spec fn pending_txs(&self) -> Seq<SignedTransaction> {
        self.pending_txs@
    }

    pub closed spec fn pending_bundles(&self) -> Seq<Bundle> {
        self.pending_bundles@
    }

    /// The identifiers of cancelled transactions and bundles.
    pub closed spec fn cancelled(&self) -> Set<Seq<u8>> {
        id_set(self.cancelled@)
    }

    /// `h` is cancelled and no pending transaction has identifier `h`.
    pub open spec fn tx_cancelled_and_gone(&self, h: Seq<u8>) -> bool {
        &&& self.cancelled().contains(h)
        &&& forall|i: int|
            0 <= i < self.pending_txs().len() ==> spec_tx_hash(#[trigger] self.pending_txs()[i].tx)
                != h
    }

    /// `id` is cancelled and no pending bundle has id `id`.
    pub open spec fn bundle_cancelled_and_gone(&self, id: Seq<u8>) -> bool {
        &&& self.cancelled().contains(id)
        &&& forall|i: int|
            0 <= i < self.pending_bundles().len() ==> (#[trigger] self.pending_bundles()[i]).id@
                != id
    }

    /// A node as deployed with `config`: no mergers known, nothing pending,
    /// nothing cancelled.
    pub fn new(config: NodeConfig) -> (s: Self)
        ensures
            s.node_id() == config.id,
            s.region() == config.region@,
            s.mergers() == Seq::<NodeInfo>::empty(),
            distinct_merger_ids(s.mergers()),
            s.pending_txs() == Seq::<SignedTransaction>::empty(),
            s.pending_bundles() == Seq::<Bundle>::empty(),
            s.cancelled() == Set::<Seq<u8>>::empty(),
    {
        let s = SimulationState {
            id: config.id,
            region: config.region,
            mergers: Vec::new(),
            pending_txs: Vec::new(),
            pending_bundles: Vec::new(),
            cancelled: Vec::new(),
        };
        assert(s.cancelled() =~= Set::<Seq<u8>>::empty());
        s
    }

    /// The announcement the node broadcasts when it starts.
    pub fn announcement(&self) -> (info: NodeInfo)
        ensures
            info.id == self.node_id(),
            info.role == NodeRole::Simulation,
            info.region@ == self.region(),
    {
        NodeInfo { id: self.id, role: NodeRole::Simulation, region: self.region.clone() }
    }

    /// Keeps a transaction for the next partial block, unless it was
    /// cancelled.
    pub fn handle_transaction(&mut self, tx: SignedTransaction)
        ensures
            final(self).pending_txs() == (if old(self).cancelled().contains(spec_tx_hash(tx.tx)) {
                old(self).pending_txs()
            } else {
                old(self).pending_txs().push(tx)
            }),
            final(self).pending_bundles() == old(self).pending_bundles(),
            final(self).mergers() == old(self).mergers(),
            final(self).cancelled() == old(self).cancelled(),
            final(self).node_id() == old(self).node_id(),
            final(self).region() == old(self).region(),
    {
        let h = tx.tx.hash();
        if list_contains(&self.cancelled, &h) {
            return ;
        }
        self.pending_txs.push(tx);
    }

    /// Keeps a bundle for the next partial block, unless it was cancelled.
    pub fn handle_bundle(&mut self, bundle: Bundle)
        ensures
            final(self).pending_bundles() == (if old(self).cancelled().contains(bundle.id@) {
                old(self).pending_bundles()
            } else {
                old(self).pending_bundles().push(bundle)
            }),
            final(self).pending_txs() == old(self).pending_txs(),
            final(self).mergers() == old(self).mergers(),
            final(self).cancelled() == old(self).cancelled(),
            final(self).node_id() == old(self).node_id(),
            final(self).region() == old(self).region(),
    {
        if list_contains(&self.cancelled, &bundle.id) {
            return ;
        }
        self.pending_bundles.push(bundle);
    }

    /// Records an announced merger; announcements of simulation nodes are
    /// ignored.
    pub fn handle_announcement(&mut self, info: NodeInfo)
        ensures
            final(self).mergers() == (if info.role == NodeRole::Merging {
                record_merger(old(self).mergers(), info)
            } else {
                old(self).mergers()
            }),
            final(self).pending_txs() == old(self).pending_txs(),
            final(self).pending_bundles() == old(self).pending_bundles(),
            final(self).cancelled() == old(self).cancelled(),
            final(self).node_id() == old(self).node_id(),
            final(self).region() == old(self).region(),
    {
        match info.role {
            NodeRole::Merging => {
                record_merger_in(&mut self.mergers, info);
            },
            NodeRole::Simulation => {},
        }
    }

    /// Records the cancelled identifiers and drops the pending transactions
    /// and bundles they name.  Hands the request back to be gossiped,
    /// unless every identifier it names was already cancelled: a
    /// cancellation the node has seen before is not spread again.
    pub fn handle_cancellation(&mut self, cancel: CancellationRequest) -> (gossip: Option<
        CancellationRequest,
    >)
        ensures
            gossip == (if cancellation_known(old(self).cancelled(), cancel) {
                None
            } else {
                Some(cancel)
            }),
            final(self).cancelled() == cancelled_after(old(self).cancelled(), cancel),
            final(self).pending_txs() == (match cancel.tx_hash {
                Some(h) => without_tx(old(self).pending_txs(), h@),
                None => old(self).pending_txs(),
            }),
            final(self).pending_bundles() == (match cancel.bundle_id {
                Some(b) => without_bundle(old(self).pending_bundles(), b@),
                None => old(self).pending_bundles(),
            }),
            final(self).mergers() == old(self).mergers(),
            final(self).node_id() == old(self).node_id(),
            final(self).region() == old(self).region(),
    {
        let tx_known = match cancel.tx_hash {
            Some(h) => list_contains(&self.cancelled, &h),
            None => true,
        };
        let bundle_known = match cancel.bundle_id {
            Some(b) => list_contains(&self.cancelled, &b),
            None => true,
        };
        record_cancelled(&mut self.cancelled, &cancel);
        if let Some(h) = cancel.tx_hash {
            let mut txs: Vec<SignedTransaction> = Vec::new();
            core::mem::swap(&mut txs, &mut self.pending_txs);
            self.pending_txs = remove_tx(txs, &h);
        }
        if let Some(b) = cancel.bundle_id {
            let mut bundles: Vec<Bundle> = Vec::new();
            core::mem::swap(&mut bundles, &mut self.pending_bundles);
            self.pending_bundles = remove_bundle(bundles, &b);
        }
        if tx_known && bundle_known {
            None
        } else {
            Some(CancellationRequest { tx_hash: cancel.tx_hash, bundle_id: cancel.bundle_id })
        }
    }

    /// Reacts to a message: orderflow is kept, merger announcements are
    /// recorded, cancellations are applied (see `message_step`).  Returns
    /// the message to gossip to every other node: a cancellation not seen
    /// before, and nothing else.
    pub fn on_message(&mut self, msg: Message) -> (gossip: Option<Message>)
        ensures
            message_step(*old(self), msg, *final(self), gossip),
            distinct_merger_ids(old(self).mergers()) ==> distinct_merger_ids(final(self).mergers()),
            forall|h: Seq<u8>| #[trigger]
                old(self).tx_cancelled_and_gone(h) ==> final(self).tx_cancelled_and_gone(h),
            forall|id: Seq<u8>| #[trigger]
                old(self).bundle_cancelled_and_gone(id) ==> final(self).bundle_cancelled_and_gone(id),
            match msg {
                Message::Cancellation(c) => {
                    &&& (c.tx_hash matches Some(h) ==> final(self).tx_cancelled_and_gone(h@))
                    &&& (c.bundle_id matches Some(b) ==> final(self).bundle_cancelled_and_gone(b@))
                },
                _ => true,
            },
    {
        let ghost pre = *self;
        let gossip = match msg {
            Message::Transaction(tx) => {
                self.handle_transaction(tx);
                None
            },
            Message::Bundle(b) => {
                self.handle_bundle(b);
                None
            },
            Message::NodeAnnouncement(info) => {
                self.handle_announcement(info);
                None
            },
            Message::Cancellation(c) => {
                match self.handle_cancellation(c) {
                    Some(g) => Some(Message::Cancellation(g)),
                    None => None,
                }
            },
            Message::PartialBlock(_) => None,
        };
        proof {
            lemma_message_step_keeps_cancellations(pre, msg, *self, gossip);
            if msg is NodeAnnouncement {
                let info = msg->NodeAnnouncement_0;
                if distinct_merger_ids(pre.mergers()) {
                    lemma_record_merger_keeps_ids_distinct(pre.mergers(), info);
                }
            }
        }
        gossip
    }

    /// What the node does when its block timer fires.  With nothing
    /// pending it sends nothing and changes nothing.  Otherwise everything
    /// pending is taken, a partial block is assembled from it (see
    /// `assemble_partial_block`) and sent to the nearby mergers.  Fails
    /// exactly when the block's gas or profit total does not fit its field.
    pub fn take_partial_block(&mut self) -> (r: Result<Option<Outgoing>, BlockError>)
        ensures
            tick_step(*old(self), *final(self), r),
            distinct_merger_ids(old(self).mergers()) ==> distinct_merger_ids(final(self).mergers()),
            forall|h: Seq<u8>| #[trigger]
                old(self).tx_cancelled_and_gone(h) ==> final(self).tx_cancelled_and_gone(h),
            forall|id: Seq<u8>| #[trigger]
                old(self).bundle_cancelled_and_gone(id) ==> final(self).bundle_cancelled_and_gone(id),
    {
        if self.pending_txs.len() == 0 && self.pending_bundles.len() == 0 {
            return Ok(None);
        }
        let mut txs: Vec<SignedTransaction> = Vec::new();
        core::mem::swap(&mut txs, &mut self.pending_txs);
        let mut bundles: Vec<Bundle> = Vec::new();
        core::mem::swap(&mut bundles, &mut self.pending_bundles);
        match assemble_partial_block(self.id, txs, bundles) {
            Ok(block) => {
                let mergers = nearby_mergers(&self.mergers, &self.region);
                Ok(Some(Outgoing { block, mergers }))
            },
            Err(e) => Err(e),
        }
    }
}

/// How a simulation node moves from `pre` to `post` on receiving `msg`,
/// and what it gossips.  Orderflow is kept unless cancelled; announcements
/// of mergers are recorded; a cancellation is applied and passed on if it
/// names something not cancelled before; partial blocks are ignored.
pub open spec fn message_step(
    pre: SimulationState,
    msg: Message,
    post: SimulationState,
    gossip: Option<Message>,
) -> bool {
    &&& post.node_id() == pre.node_id()
    &&& post.region() == pre.region()
    &&& match msg {
        Message::Transaction(tx) => {
            &&& gossip is None
            &&& post.pending_txs() == (if pre.cancelled().contains(spec_tx_hash(tx.tx)) {
                pre.pending_txs()
            } else {
                pre.pending_txs().push(tx)
            })
            &&& post.pending_bundles() == pre.pending_bundles()
            &&& post.mergers() == pre.mergers()
            &&& post.cancelled() == pre.cancelled()
        },
        Message::Bundle(b) => {
            &&& gossip is None
            &&& post.pending_bundles() == (if pre.cancelled().contains(b.id@) {
                pre.pending_bundles()
            } else {
                pre.pending_bundles().push(b)
            })
            &&& post.pending_txs() == pre.pending_txs()
            &&& post.mergers() == pre.mergers()
            &&& post.cancelled() == pre.cancelled()
        },
        Message::NodeAnnouncement(info) => {
            &&& gossip is None
            &&& post.mergers() == (if info.role == NodeRole::Merging {
                record_merger(pre.mergers(), info)
            } else {
                pre.mergers()
            })
            &&& post.pending_txs() == pre.pending_txs()
            &&& post.pending_bundles() == pre.pending_bundles()
            &&& post.cancelled() == pre.cancelled()
        },
        Message::Cancellation(c) => {
            &&& gossip == (if cancellation_known(pre.cancelled(), c) {
                None
            } else {
                Some(Message::Cancellation(c))
            })
            &&& post.cancelled() == cancelled_after(pre.cancelled(), c)
            &&& post.pending_txs() == (match c.tx_hash {
                Some(h) => without_tx(pre.pending_txs(), h@),
                None => pre.pending_txs(),
            })
            &&& post.pending_bundles() == (match c.bundle_id {
                Some(b) => without_bundle(pre.pending_bundles(), b@),
                None => pre.pending_bundles(),
            })
            &&& post.mergers() == pre.mergers()
        },
        Message::PartialBlock(_) => {
            &&& gossip is None
            &&& post.pending_txs() == pre.pending_txs()
            &&& post.pending_bundles() == pre.pending_bundles()
            &&& post.mergers() == pre.mergers()
            &&& post.cancelled() == pre.cancelled()
        },
    }
}

/// How a simulation node moves from `pre` to `post` when its block timer
/// fires, and what it sends.  With nothing pending nothing happens.
/// Otherwise everything pending is taken and the partial block assembled
/// from it goes to the nearby mergers; the step fails exactly when the
/// block's gas or profit total does not fit its field.
pub open spec fn tick_step(
    pre: SimulationState,
    post: SimulationState,
    r: Result<Option<Outgoing>, BlockError>,
) -> bool {
    &&& post.mergers() == pre.mergers()
    &&& post.cancelled() == pre.cancelled()
    &&& post.node_id() == pre.node_id()
    &&& post.region() == pre.region()
    &&& pre.pending_txs().len() == 0 && pre.pending_bundles().len() == 0 ==> {
        &&& r == Ok::<Option<Outgoing>, BlockError>(None)
        &&& post.pending_txs() == pre.pending_txs()
        &&& post.pending_bundles() == pre.pending_bundles()
    }
    &&& !(pre.pending_txs().len() == 0 && pre.pending_bundles().len() == 0) ==> {
        let sel = partial_selection(pre.pending_txs(), pre.pending_bundles());
        &&& post.pending_txs() == Seq::<SignedTransaction>::empty()
        &&& post.pending_bundles() == Seq::<Bundle>::empty()
        &&& match r {
            Ok(Some(out)) => {
                &&& selection_fits(sel)
                &&& out.block.builder_id == pre.node_id()
                &&& out.block.transactions@ == sel.txs
                &&& out.block.bundles@ == sel.bundles
                &&& out.block.total_gas_used == sel.gas
                &&& out.block.estimated_profit == sel.profit
                &&& out.block.conflicts@ == sel.conflicts
                &&& out.mergers@ == nearby_merger_ids(pre.mergers(), pre.region())
            },
            Ok(None) => false,
            Err(_) => !selection_fits(sel),
        }
    }
}

/// A cancelled identifier that is absent from the pending orderflow stays
/// cancelled and absent through every message; a handled cancellation
/// leaves what it names cancelled and absent.
pub proof fn lemma_message_step_keeps_cancellations(
    pre: SimulationState,
    msg: Message,
    post: SimulationState,
    gossip: Option<Message>,
)
    requires
        message_step(pre, msg, post, gossip),
    ensures
        forall|h: Seq<u8>| #[trigger] pre.tx_cancelled_and_gone(h) ==> post.tx_cancelled_and_gone(h),
        forall|id: Seq<u8>| #[trigger]
            pre.bundle_cancelled_and_gone(id) ==> post.bundle_cancelled_and_gone(id),
        match msg {
            Message::Cancellation(c) => {
                &&& (c.tx_hash matches Some(h) ==> post.tx_cancelled_and_gone(h@))
                &&& (c.bundle_id matches Some(b) ==> post.bundle_cancelled_and_gone(b@))
            },
            _ => true,
        },
{
    match msg {
        Message::Cancellation(c) => {
            lemma_cancellation_clears(pre, post, c);
        },
        Message::Transaction(tx) => {
            assert forall|h: Seq<u8>| #[trigger] pre.tx_cancelled_and_gone(h) implies post.tx_cancelled_and_gone(h) by {
                if !pre.cancelled().contains(spec_tx_hash(tx.tx)) {
                    assert forall|i: int| 0 <= i < post.pending_txs().len() implies spec_tx_hash(
                        #[trigger] post.pending_txs()[i].tx,
                    ) != h by {
                        if i < pre.pending_txs().len() {
                            assert(post.pending_txs()[i] == pre.pending_txs()[i]);
                        }
                    }
                }
            }
        },
        Message::Bundle(b) => {
            assert forall|id: Seq<u8>| #[trigger] pre.bundle_cancelled_and_gone(id) implies post.bundle_cancelled_and_gone(id) by {
                if !pre.cancelled().contains(b.id@) {
                    assert forall|i: int| 0 <= i < post.pending_bundles().len() implies (
                    #[trigger] post.pending_bundles()[i]).id@ != id by {
                        if i < pre.pending_bundles().len() {
                            assert(post.pending_bundles()[i] == pre.pending_bundles()[i]);
                        }
                    }
                }
            }
        },
        _ => {},
    }
}

proof fn lemma_cancellation_clears(pre: SimulationState, post: SimulationState, c: CancellationRequest)
    requires
        post.cancelled() == cancelled_after(pre.cancelled(), c),
        post.pending_txs() == (match c.tx_hash {
            Some(h) => without_tx(pre.pending_txs(), h@),
            None => pre.pending_txs(),
        }),
        post.pending_bundles() == (match c.bundle_id {
            Some(b) => without_bundle(pre.pending_bundles(), b@),
            None => pre.pending_bundles(),
        }),
    ensures
        forall|h: Seq<u8>| #[trigger]
            pre.tx_cancelled_and_gone(h) ==> post.tx_cancelled_and_gone(h),
        forall|id: Seq<u8>| #[trigger]
            pre.bundle_cancelled_and_gone(id) ==> post.bundle_cancelled_and_gone(id),
        c.tx_hash matches Some(h) ==> post.tx_cancelled_and_gone(h@),
        c.bundle_id matches Some(b) ==> post.bundle_cancelled_and_gone(b@),
{
    broadcast use vstd::seq_lib::group_filter_ensures;

    let pt = pre.pending_txs();
    let pb = pre.pending_bundles();
    assert forall|h: Seq<u8>| #[trigger] pre.tx_cancelled_and_gone(h) implies post.tx_cancelled_and_gone(
        h,
    ) by {
        assert forall|i: int| 0 <= i < post.pending_txs().len() implies spec_tx_hash(
            #[trigger] post.pending_txs()[i].tx,
        ) != h by {
            if let Some(x) = c.tx_hash {
                let t = post.pending_txs()[i];
                assert(post.pending_txs().contains(t));
                pt.lemma_filter_contains_rev(|t: SignedTransaction| spec_tx_hash(t.tx) != x@, t);
                let j = choose|j: int| 0 <= j < pt.len() && pt[j] == t;
                assert(spec_tx_hash(pt[j].tx) != h);
            }
        }
    }
    assert forall|id: Seq<u8>| #[trigger]
        pre.bundle_cancelled_and_gone(id) implies post.bundle_cancelled_and_gone(id) by {
        assert forall|i: int| 0 <= i < post.pending_bundles().len() implies (
        #[trigger] post.pending_bundles()[i]).id@ != id by {
            if let Some(x) = c.bundle_id {
                let b = post.pending_bundles()[i];
                assert(post.pending_bundles().contains(b));
                pb.lemma_filter_contains_rev(|b: Bundle| b.id@ != x@, b);
                let j = choose|j: int| 0 <= j < pb.len() && pb[j] == b;
                assert(pb[j].id@ != id);
            }
        }
    }
    if let Some(h) = c.tx_hash {
        assert(post.cancelled().contains(h@));
        assert forall|i: int| 0 <= i < post.pending_txs().len() implies spec_tx_hash(
            #[trigger] post.pending_txs()[i].tx,
        ) != h@ by {
            let f = |t: SignedTransaction| spec_tx_hash(t.tx) != h@;
            assert(f(pt.filter(f)[i]));
        }
    }
    if let Some(b) = c.bundle_id {
        assert(post.cancelled().contains(b@));
        assert forall|i: int| 0 <= i < post.pending_bundles().len() implies (
        #[trigger] post.pending_bundles()[i]).id@ != b@ by {
            let f = |x: Bundle| x.id@ != b@;
            assert(f(pb.filter(f)[i]));
        }
    }
}

/// A cancelled transaction is never built into a partial block: once a
/// cancellation naming `h` has been handled, the partial block the node
/// builds from its pending orderflow holds no transaction with identifier
/// `h` (and likewise for a cancelled bundle id).  The ensures of
/// `on_message` and `take_partial_block` show that every later step keeps
/// `h` cancelled and absent from the pending orderflow.
pub proof fn lemma_cancelled_never_built(s: SimulationState, h: Seq<u8>, id: Seq<u8>)
    ensures
        s.tx_cancelled_and_gone(h) ==> forall|k: int|
            0 <= k < partial_selection(s.pending_txs(), s.pending_bundles()).txs.len()
                ==> spec_tx_hash(
                #[trigger] partial_selection(s.pending_txs(), s.pending_bundles()).txs[k],
            ) != h,
        s.bundle_cancelled_and_gone(id) ==> forall|k: int|
            0 <= k < partial_selection(s.pending_txs(), s.pending_bundles()).bundles.len()
                ==> (#[trigger] partial_selection(s.pending_txs(), s.pending_bundles()).bundles[k]).id@
                != id,
{
    lemma_partial_block_drawn_from_input(s.pending_txs(), s.pending_bundles());
    let sel = partial_selection(s.pending_txs(), s.pending_bundles());
    if s.tx_cancelled_and_gone(h) {
        assert forall|k: int| 0 <= k < sel.txs.len() implies spec_tx_hash(#[trigger] sel.txs[k]) != h by {
            let i = choose|i: int| 0 <= i < s.pending_txs().len() && sel.txs[k] == s.pending_txs()[i].tx;
            assert(spec_tx_hash(s.pending_txs()[i].tx) != h);
        }
    }
    if s.bundle_cancelled_and_gone(id) {
        assert forall|k: int| 0 <= k < sel.bundles.len() implies (#[trigger] sel.bundles[k]).id@ != id by {
            let i = choose|i: int| 0 <= i < s.pending_bundles().len() && sel.bundles[k] == s.pending_bundles()[i];
            assert(s.pending_bundles()[i].id@ != id);
        }
    }
}

/// A simulation node sends each partial block to at most
/// `MAX_MERGER_CONNECTIONS` mergers, each of them a known merger; when it
/// knows at least that many mergers in its own region, all of them are
/// from its region.
pub proof fn lemma_nearby_mergers_bounded_known_local(mergers: Seq<NodeInfo>, region: Seq<char>)
    ensures
        nearby_merger_ids(mergers, region).len() <= MAX_MERGER_CONNECTIONS,
        forall|k: int|
            0 <= k < nearby_merger_ids(mergers, region).len() ==> (listed_merger(
                mergers,
                #[trigger] nearby_merger_ids(mergers, region)[k],
                region,
                true,
            ) || listed_merger(mergers, nearby_merger_ids(mergers, region)[k], region, false)),
        merger_ids_by_region(mergers, region, true).len() >= MAX_MERGER_CONNECTIONS ==> forall|
            k: int,
        |
            0 <= k < nearby_merger_ids(mergers, region).len() ==> listed_merger(
                mergers,
                #[trigger] nearby_merger_ids(mergers, region)[k],
                region,
                true,
            ),
{
    lemma_ids_by_region_known(mergers, region, true);
    lemma_ids_by_region_known(mergers, region, false);
    let local = merger_ids_by_region(mergers, region, true);
    let other = merger_ids_by_region(mergers, region, false);
    let r = nearby_merger_ids(mergers, region);
    assert forall|k: int| 0 <= k < r.len() implies (listed_merger(mergers, #[trigger] r[k], region, true)
        || listed_merger(mergers, r[k], region, false)) by {
        if local.len() < MAX_MERGER_CONNECTIONS {
            let chosen = local + other;
            assert(r[k] == chosen[k]);
            if k < local.len() {
                assert(chosen[k] == local[k]);
            } else {
                assert(chosen[k] == other[k - local.len()]);
            }
        } else {
            assert(r[k] == local[k]);
        }
    }
    if local.len() >= MAX_MERGER_CONNECTIONS {
        assert forall|k: int| 0 <= k < r.len() implies listed_merger(mergers, #[trigger] r[k], region, true) by {
            assert(r[k] == local[k]);
        }
    }
}

/// Some listed merger has id `id`, and its region is (`same`) or is not
/// (`!same`) `region`.
pub open spec fn listed_merger(mergers: Seq<NodeInfo>, id: NodeId, region: Seq<char>, same: bool) -> bool {
    exists|j: int|
        0 <= j < mergers.len() && (mergers[j].region@ == region) == same && #[trigger] mergers[j].id
            == id
}

proof fn lemma_ids_by_region_known(mergers: Seq<NodeInfo>, region: Seq<char>, same: bool)
    ensures
        forall|k: int|
            0 <= k < merger_ids_by_region(mergers, region, same).len() ==> listed_merger(
                mergers,
                #[trigger] merger_ids_by_region(mergers, region, same)[k],
                region,
                same,
            ),
    decreases mergers.len(),
{
    if mergers.len() > 0 {
        let init = mergers.drop_last();
        lemma_ids_by_region_known(init, region, same);
        let prev = merger_ids_by_region(init, region, same);
        let cur = merger_ids_by_region(mergers, region, same);
        assert forall|k: int| 0 <= k < cur.len() implies listed_merger(mergers, #[trigger] cur[k], region, same) by {
            if k < prev.len() {
                assert(cur[k] == prev[k]);
                assert(listed_merger(init, prev[k], region, same));
                let j = choose|j: int|
                    0 <= j < init.len() && (init[j].region@ == region) == same && #[trigger] init[j].id
                        == prev[k];
                assert(init[j] == mergers[j]);
            } else {
                let j = mergers.len() - 1;
                assert(cur[k] == mergers[j].id);
                assert((mergers[j].region@ == region) == same);
            }
        }
    }
}

/// Recording an announced merger keeps every known node a merger: a
/// simulation node only ever sends partial blocks to merging nodes.
pub proof fn lemma_record_merger_keeps_roles(mergers: Seq<NodeInfo>, info: NodeInfo)
    requires
        forall|j: int| 0 <= j < mergers.len() ==> (#[trigger] mergers[j]).role == NodeRole::Merging,
        info.role == NodeRole::Merging,
    ensures
        forall|j: int|
            0 <= j < record_merger(mergers, info).len() ==> (#[trigger] record_merger(
                mergers,
                info,
            )[j]).role == NodeRole::Merging,
        exists|j: int|
            0 <= j < record_merger(mergers, info).len() && #[trigger] record_merger(mergers, info)[j]
                == info,
{
    if exists|j: int| 0 <= j < mergers.len() && mergers[j].id@ == info.id@ {
        let w = choose|j: int|
            0 <= j < mergers.len() && mergers[j].id@ == info.id@ && forall|k: int|
                0 <= k < j ==> mergers[k].id@ != info.id@;
        // the first entry with that id exists
        let j0 = choose|j: int| 0 <= j < mergers.len() && mergers[j].id@ == info.id@;
        lemma_first_match_exists(mergers, info.id@, j0);
        assert(record_merger(mergers, info)[w] == info);
    } else {
        assert(record_merger(mergers, info)[mergers.len() as int] == info);
    }
}

proof fn lemma_first_match_exists(mergers: Seq<NodeInfo>, id: Seq<u8>, j0: int)
    requires
        0 <= j0 < mergers.len(),
        mergers[j0].id@ == id,
    ensures
        exists|j: int|
            0 <= j < mergers.len() && mergers[j].id@ == id && forall|k: int|
                0 <= k < j ==> mergers[k].id@ != id,
    decreases j0,
{
    if exists|k: int| 0 <= k < j0 && mergers[k].id@ == id {
        let k = choose|k: int| 0 <= k < j0 && mergers[k].id@ == id;
        lemma_first_match_exists(mergers, id, k);
    } else {
        assert(forall|k: int| 0 <= k < j0 ==> mergers[k].id@ != id);
    }
}

/// No two of the listed mergers have the same id.
pub open spec fn distinct_merger_ids(mergers: Seq<NodeInfo>) -> bool {
    forall|i: int, j: int|
        #![trigger mergers[i], mergers[j]]
        0 <= i < mergers.len() && 0 <= j < mergers.len() && i != j ==> mergers[i].id@
            != mergers[j].id@
}

/// No id occurs twice.
pub open spec fn distinct_ids(ids: Seq<NodeId>) -> bool {
    forall|i: int, j: int| 0 <= i < ids.len() && 0 <= j < ids.len() && i != j ==> ids[i]@ != ids[j]@
}

/// Recording an announced merger never lists an id twice: like a map
/// keyed by id, the list holds each merger once.
#[verifier::spinoff_prover]
pub proof fn lemma_record_merger_keeps_ids_distinct(mergers: Seq<NodeInfo>, info: NodeInfo)
    requires
        distinct_merger_ids(mergers),
    ensures
        distinct_merger_ids(record_merger(mergers, info)),
{
    if exists|j: int| 0 <= j < mergers.len() && mergers[j].id@ == info.id@ {
        let w = choose|j: int|
            0 <= j < mergers.len() && mergers[j].id@ == info.id@ && forall|k: int|
                0 <= k < j ==> mergers[k].id@ != info.id@;
        let j0 = choose|j: int| 0 <= j < mergers.len() && mergers[j].id@ == info.id@;
        lemma_first_match_exists(mergers, info.id@, j0);
        assert(record_merger(mergers, info) == mergers.update(w, info));
        lemma_update_keeps_ids_distinct(mergers, w, info);
    } else {
        assert(record_merger(mergers, info) == mergers.push(info));
        lemma_push_keeps_ids_distinct(mergers, info);
    }
}

proof fn lemma_update_keeps_ids_distinct(mergers: Seq<NodeInfo>, w: int, info: NodeInfo)
    requires
        distinct_merger_ids(mergers),
        0 <= w < mergers.len(),
        mergers[w].id@ == info.id@,
    ensures
        distinct_merger_ids(mergers.update(w, info)),
{
    let r = mergers.update(w, info);
    assert forall|i: int, j: int|
        #![trigger r[i], r[j]]
        0 <= i < r.len() && 0 <= j < r.len() && i != j implies r[i].id@ != r[j].id@ by {
        let a = mergers[i];
        let b = mergers[j];
        assert(r[i].id@ == a.id@);
        assert(r[j].id@ == b.id@);
    }
}

proof fn lemma_push_keeps_ids_distinct(mergers: Seq<NodeInfo>, info: NodeInfo)
    requires
        distinct_merger_ids(mergers),
        forall|j: int| 0 <= j < mergers.len() ==> mergers[j].id@ != info.id@,
    ensures
        distinct_merger_ids(mergers.push(info)),
{
    let r = mergers.push(info);
    assert forall|i: int, j: int|
        #![trigger r[i], r[j]]
        0 <= i < r.len() && 0 <= j < r.len() && i != j implies r[i].id@ != r[j].id@ by {
        if i < mergers.len() {
            let a = mergers[i];
            assert(r[i] == a);
        }
        if j < mergers.len() {
            let b = mergers[j];
            assert(r[j] == b);
        }
    }
}

/// Each entry after recording `info` is `info` or was listed before.
pub proof fn lemma_record_merger_entries(mergers: Seq<NodeInfo>, info: NodeInfo)
    ensures
        forall|k: int|
            0 <= k < record_merger(mergers, info).len() ==> #[trigger] record_merger(mergers, info)[k]
                == info || mergers.contains(record_merger(mergers, info)[k]),
{
    if exists|j: int| 0 <= j < mergers.len() && mergers[j].id@ == info.id@ {
        let w = choose|j: int|
            0 <= j < mergers.len() && mergers[j].id@ == info.id@ && forall|k: int|
                0 <= k < j ==> mergers[k].id@ != info.id@;
        let j0 = choose|j: int| 0 <= j < mergers.len() && mergers[j].id@ == info.id@;
        lemma_first_match_exists(mergers, info.id@, j0);
        let r = mergers.update(w, info);
        assert(record_merger(mergers, info) == r);
        assert forall|k: int| 0 <= k < r.len() implies #[trigger] r[k] == info || mergers.contains(r[k]) by {
            if k != w {
                assert(mergers[k] == r[k]);
            }
        }
    } else {
        let r = mergers.push(info);
        assert(record_merger(mergers, info) == r);
        assert forall|k: int| 0 <= k < r.len() implies #[trigger] r[k] == info || mergers.contains(r[k]) by {
            if k < mergers.len() {
                assert(mergers[k] == r[k]);
            }
        }
    }
}

proof fn lemma_ids_by_region_distinct(mergers: Seq<NodeInfo>, region: Seq<char>, same: bool)
    requires
        distinct_merger_ids(mergers),
    ensures
        distinct_ids(merger_ids_by_region(mergers, region, same)),
    decreases mergers.len(),
{
    if mergers.len() > 0 {
        let init = mergers.drop_last();
        assert(distinct_merger_ids(init)) by {
            assert forall|i: int, j: int| 0 <= i < init.len() && 0 <= j < init.len() && i != j implies init[i].id@
                != init[j].id@ by {
                assert(init[i] == mergers[i] && init[j] == mergers[j]);
            }
        }
        lemma_ids_by_region_distinct(init, region, same);
        lemma_ids_by_region_known(init, region, same);
        let prev = merger_ids_by_region(init, region, same);
        let last = mergers.last();
        if (last.region@ == region) == same {
            let cur = prev.push(last.id);
            assert forall|i: int, j: int| 0 <= i < cur.len() && 0 <= j < cur.len() && i != j implies cur[i]@
                != cur[j]@ by {
                if i < prev.len() && j < prev.len() {
                } else if i < prev.len() {
                    assert(listed_merger(init, prev[i], region, same));
                    let q = choose|q: int|
                        0 <= q < init.len() && (init[q].region@ == region) == same && #[trigger] init[q].id
                            == prev[i];
                    assert(init[q] == mergers[q]);
                    assert(mergers[q].id@ != mergers[mergers.len() - 1].id@);
                } else {
                    assert(listed_merger(init, prev[j], region, same));
                    let q = choose|q: int|
                        0 <= q < init.len() && (init[q].region@ == region) == same && #[trigger] init[q].id
                            == prev[j];
                    assert(init[q] == mergers[q]);
                    assert(mergers[q].id@ != mergers[mergers.len() - 1].id@);
                }
            }
        }
    }
}

/// With distinct merger ids, a simulation node sends each partial block to
/// each of its chosen mergers once.
pub proof fn lemma_nearby_mergers_distinct(mergers: Seq<NodeInfo>, region: Seq<char>)
    requires
        distinct_merger_ids(mergers),
    ensures
        distinct_ids(nearby_merger_ids(mergers, region)),
{
    lemma_ids_by_region_distinct(mergers, region, true);
    lemma_ids_by_region_distinct(mergers, region, false);
    lemma_ids_by_region_known(mergers, region, true);
    lemma_ids_by_region_known(mergers, region, false);
    let local = merger_ids_by_region(mergers, region, true);
    let other = merger_ids_by_region(mergers, region, false);
    let chosen = if local.len() < MAX_MERGER_CONNECTIONS {
        local + other
    } else {
        local
    };
    assert(distinct_ids(chosen)) by {
        if local.len() < MAX_MERGER_CONNECTIONS {
            assert forall|i: int, j: int| 0 <= i < chosen.len() && 0 <= j < chosen.len() && i != j implies chosen[i]@
                != chosen[j]@ by {
                if i < local.len() && j < local.len() {
                    assert(chosen[i] == local[i] && chosen[j] == local[j]);
                } else if i >= local.len() && j >= local.len() {
                    assert(chosen[i] == other[i - local.len()] && chosen[j] == other[j - local.len()]);
                } else {
                    let (a, b) = if i < local.len() { (i, j) } else { (j, i) };
                    assert(chosen[a] == local[a] && chosen[b] == other[b - local.len()]);
                    assert(listed_merger(mergers, local[a], region, true));
                    assert(listed_merger(mergers, other[b - local.len()], region, false));
                    let q1 = choose|q: int|
                        0 <= q < mergers.len() && (mergers[q].region@ == region) == true && #[trigger] mergers[q].id
                            == local[a];
                    let q2 = choose|q: int|
                        0 <= q < mergers.len() && (mergers[q].region@ == region) == false && #[trigger] mergers[q].id
                            == other[b - local.len()];
                    assert(q1 != q2);
                }
            }
        }
    }
    let r = nearby_merger_ids(mergers, region);
    assert forall|i: int, j: int| 0 <= i < r.len() && 0 <= j < r.len() && i != j implies r[i]@ != r[j]@ by {
        assert(r[i] == chosen[i] && r[j] == chosen[j]);
    }
}

/// What happens to a simulation node: a message arrives, or its block
/// timer fires.
pub enum SimEvent {
    Deliver(Message),
    Tick,
}

/// What the node answers: the gossip for a message, or the result of a
/// timer tick.
pub enum SimResult {
    Gossip(Option<Message>),
    Built(Result<Option<Outgoing>, BlockError>),
}

/// One step of a simulation node, as `on_message` and
/// `take_partial_block` perform it.
pub open spec fn sim_step(pre: SimulationState, ev: SimEvent, post: SimulationState, res: SimResult) -> bool {
    match ev {
        SimEvent::Deliver(msg) => res matches SimResult::Gossip(g) && message_step(pre, msg, post, g),
        SimEvent::Tick => res matches SimResult::Built(r) && tick_step(pre, post, r),
    }
}

pub open spec fn step_holds(
    states: Seq<SimulationState>,
    events: Seq<SimEvent>,
    results: Seq<SimResult>,
    i: int,
) -> bool {
    sim_step(states[i], events[i], states[i + 1], results[i])
}

/// `states[i + 1]` and `results[i]` come from `states[i]` and `events[i]`.
pub open spec fn is_run(states: Seq<SimulationState>, events: Seq<SimEvent>, results: Seq<SimResult>) -> bool {
    &&& states.len() == events.len() + 1
    &&& results.len() == events.len()
    &&& forall|i: int| 0 <= i < events.len() ==> #[trigger] step_holds(states, events, results, i)
}

/// Before event `upto`, `info` arrived as the announcement of a merger.
pub open spec fn announced_merger(events: Seq<SimEvent>, upto: int, info: NodeInfo) -> bool {
    &&& info.role == NodeRole::Merging
    &&& exists|j: int|
        0 <= j < upto && #[trigger] events[j] == SimEvent::Deliver(Message::NodeAnnouncement(info))
}

/// At step `i` the node sent a partial block to `id`.
pub open spec fn sent_block_to(results: Seq<SimResult>, i: int, id: NodeId) -> bool {
    results[i] matches SimResult::Built(Ok(Some(out))) && out.mergers@.contains(id)
}

/// Event `i` is the arrival of transaction `t`.
pub open spec fn delivered_tx(events: Seq<SimEvent>, i: int, t: SignedTransaction) -> bool {
    events[i] == SimEvent::Deliver(Message::Transaction(t))
}

/// At step `i` the node built a partial block holding transaction `t`.
pub open spec fn built_tx(results: Seq<SimResult>, i: int, t: Transaction) -> bool {
    results[i] matches SimResult::Built(Ok(Some(out))) && out.block.transactions@.contains(t)
}

proof fn lemma_run_mergers_announced(
    states: Seq<SimulationState>,
    events: Seq<SimEvent>,
    results: Seq<SimResult>,
    i: int,
)
    requires
        is_run(states, events, results),
        states[0].mergers() == Seq::<NodeInfo>::empty(),
        0 <= i <= events.len(),
    ensures
        forall|k: int|
            0 <= k < states[i].mergers().len() ==> announced_merger(
                events,
                i,
                #[trigger] states[i].mergers()[k],
            ),
    decreases i,
{
    if i > 0 {
        let p = i - 1;
        lemma_run_mergers_announced(states, events, results, p);
        assert(step_holds(states, events, results, p));
        let pre = states[p];
        let post = states[i];
        assert forall|k: int| 0 <= k < post.mergers().len() implies announced_merger(
            events,
            i,
            #[trigger] post.mergers()[k],
        ) by {
            let m = post.mergers()[k];
            let from_pre = exists|q: int| 0 <= q < pre.mergers().len() && pre.mergers()[q] == m;
            if from_pre {
                let q = choose|q: int| 0 <= q < pre.mergers().len() && pre.mergers()[q] == m;
                assert(announced_merger(events, p, pre.mergers()[q]));
                let j = choose|j: int|
                    0 <= j < p && #[trigger] events[j] == SimEvent::Deliver(
                        Message::NodeAnnouncement(m),
                    );
                assert(0 <= j < i);
            } else {
                match events[p] {
                    SimEvent::Deliver(msg) => {
                        match msg {
                            Message::NodeAnnouncement(info) => {
                                if info.role == NodeRole::Merging {
                                    lemma_record_merger_entries(pre.mergers(), info);
                                    assert(m == info);
                                    assert(events[p] == SimEvent::Deliver(
                                        Message::NodeAnnouncement(m),
                                    ));
                                } else {
                                    assert(pre.mergers()[k] == m);
                                }
                            },
                            _ => {
                                assert(pre.mergers()[k] == m);
                            },
                        }
                    },
                    SimEvent::Tick => {
                        assert(pre.mergers()[k] == m);
                    },
                }
            }
        }
    }
}

/// Over any run from a node that knows no mergers, every partial block
/// goes to nodes that announced themselves as mergers earlier in the run;
/// announcements of simulation nodes never make a node a target.
pub proof fn lemma_run_targets_announced_mergers(
    states: Seq<SimulationState>,
    events: Seq<SimEvent>,
    results: Seq<SimResult>,
)
    requires
        is_run(states, events, results),
        states[0].mergers() == Seq::<NodeInfo>::empty(),
    ensures
        forall|i: int, id: NodeId|
            0 <= i < events.len() && #[trigger] sent_block_to(results, i, id) ==> exists|info: NodeInfo|
                announced_merger(events, i, info) && info.id == id,
{
    assert forall|i: int, id: NodeId|
        0 <= i < events.len() && #[trigger] sent_block_to(results, i, id) implies exists|info: NodeInfo|
        announced_merger(events, i, info) && info.id == id by {
        assert(step_holds(states, events, results, i));
        lemma_run_mergers_announced(states, events, results, i);
        let pre = states[i];
        if let SimResult::Built(Ok(Some(out))) = results[i] {
            assert(events[i] == SimEvent::Tick);
            let k = choose|k: int| 0 <= k < out.mergers@.len() && out.mergers@[k] == id;
            lemma_nearby_mergers_bounded_known_local(pre.mergers(), pre.region());
            assert(out.mergers@[k] == nearby_merger_ids(pre.mergers(), pre.region())[k]);
            let same = listed_merger(pre.mergers(), id, pre.region(), true);
            let q = choose|q: int|
                0 <= q < pre.mergers().len() && (pre.mergers()[q].region@ == pre.region()) == same
                    && #[trigger] pre.mergers()[q].id == id;
            assert(announced_merger(events, i, pre.mergers()[q]));
        }
    }
}

proof fn lemma_tick_step_keeps_cancellations(
    pre: SimulationState,
    post: SimulationState,
    r: Result<Option<Outgoing>, BlockError>,
)
    requires
        tick_step(pre, post, r),
    ensures
        forall|h: Seq<u8>| #[trigger] pre.tx_cancelled_and_gone(h) ==> post.tx_cancelled_and_gone(h),
        forall|id: Seq<u8>| #[trigger]
            pre.bundle_cancelled_and_gone(id) ==> post.bundle_cancelled_and_gone(id),
{
}

proof fn lemma_run_keeps_cancelled(
    states: Seq<SimulationState>,
    events: Seq<SimEvent>,
    results: Seq<SimResult>,
    j: int,
    h: Seq<u8>,
    i: int,
)
    requires
        is_run(states, events, results),
        0 <= j < i <= events.len(),
        states[j + 1].tx_cancelled_and_gone(h),
    ensures
        states[i].tx_cancelled_and_gone(h),
    decreases i - j,
{
    if i > j + 1 {
        lemma_run_keeps_cancelled(states, events, results, j, h, i - 1);
        let p = i - 1;
        assert(step_holds(states, events, results, p));
        match events[p] {
            SimEvent::Deliver(msg) => {
                if let SimResult::Gossip(g) = results[p] {
                    lemma_message_step_keeps_cancellations(states[p], msg, states[i], g);
                }
            },
            SimEvent::Tick => {
                if let SimResult::Built(r) = results[p] {
                    lemma_tick_step_keeps_cancellations(states[p], states[i], r);
                }
            },
        }
    }
}

/// Over any run, once a cancellation naming transaction `h` has been
/// handled, `h` stays cancelled and no pending transaction has it, however
/// many blocks are built after; a transaction with identifier `h` arriving
/// later is not kept; and no partial block built later holds one.
pub proof fn lemma_run_cancelled_tx_stays_out(
    states: Seq<SimulationState>,
    events: Seq<SimEvent>,
    results: Seq<SimResult>,
    j: int,
    c: CancellationRequest,
    h: crate::types::Hash,
)
    requires
        is_run(states, events, results),
        0 <= j < events.len(),
        events[j] == SimEvent::Deliver(Message::Cancellation(c)),
        c.tx_hash == Some(h),
    ensures
        forall|i: int| j < i <= events.len() ==> (#[trigger] states[i]).tx_cancelled_and_gone(h@),
        forall|i: int, t: SignedTransaction|
            j < i < events.len() && #[trigger] delivered_tx(events, i, t) && spec_tx_hash(t.tx)
                == h@ ==> states[i + 1].pending_txs() == states[i].pending_txs(),
        forall|i: int, t: Transaction|
            j < i < events.len() && #[trigger] built_tx(results, i, t) ==> spec_tx_hash(t) != h@,
{
    assert(step_holds(states, events, results, j));
    if let SimResult::Gossip(g) = results[j] {
        lemma_message_step_keeps_cancellations(states[j], Message::Cancellation(c), states[j + 1], g);
    }
    assert forall|i: int| j < i <= events.len() implies (#[trigger] states[i]).tx_cancelled_and_gone(h@) by {
        lemma_run_keeps_cancelled(states, events, results, j, h@, i);
    }
    assert forall|i: int, t: SignedTransaction|
        j < i < events.len() && #[trigger] delivered_tx(events, i, t) && spec_tx_hash(t.tx) == h@ implies states[i
            + 1].pending_txs() == states[i].pending_txs() by {
        lemma_run_keeps_cancelled(states, events, results, j, h@, i);
        assert(step_holds(states, events, results, i));
    }
    assert forall|i: int, t: Transaction|
        j < i < events.len() && #[trigger] built_tx(results, i, t) implies spec_tx_hash(t) != h@ by {
        lemma_run_keeps_cancelled(states, events, results, j, h@, i);
        assert(step_holds(states, events, results, i));
        let pre = states[i];
        lemma_cancelled_never_built(pre, h@, h@);
        if let SimResult::Built(Ok(Some(out))) = results[i] {
            assert(events[i] == SimEvent::Tick);
            let k = choose|k: int| 0 <= k < out.block.transactions@.len() && out.block.transactions@[k] == t;
            assert(out.block.transactions@[k] == partial_selection(pre.pending_txs(), pre.pending_bundles()).txs[k]);
        }
    }
}

proof fn lemma_run_mergers_distinct(
    states: Seq<SimulationState>,
    events: Seq<SimEvent>,
    results: Seq<SimResult>,
    i: int,
)
    requires
        is_run(states, events, results),
        states[0].mergers() == Seq::<NodeInfo>::empty(),
        0 <= i <= events.len(),
    ensures
        distinct_merger_ids(states[i].mergers()),
    decreases i,
{
    if i > 0 {
        let p = i - 1;
        lemma_run_mergers_distinct(states, events, results, p);
        assert(step_holds(states, events, results, p));
        if let SimEvent::Deliver(Message::NodeAnnouncement(info)) = events[p] {
            lemma_record_merger_keeps_ids_distinct(states[p].mergers(), info);
        }
    }
}

/// Over any run from a node that knows no mergers, the node holds each
/// merger once, and each partial block goes to each of its targets once.
pub proof fn lemma_run_targets_distinct(
    states: Seq<SimulationState>,
    events: Seq<SimEvent>,
    results: Seq<SimResult>,
)
    requires
        is_run(states, events, results),
        states[0].mergers() == Seq::<NodeInfo>::empty(),
    ensures
        forall|i: int| 0 <= i <= events.len() ==> distinct_merger_ids(#[trigger] states[i].mergers()),
        forall|i: int|
            0 <= i < events.len() ==> (#[trigger] results[i] matches SimResult::Built(Ok(Some(out)))
                ==> distinct_ids(out.mergers@)),
{
    assert forall|i: int| 0 <= i <= events.len() implies distinct_merger_ids(
        #[trigger] states[i].mergers(),
    ) by {
        lemma_run_mergers_distinct(states, events, results, i);
    }
    assert forall|i: int| 0 <= i < events.len() implies (#[trigger] results[i] matches SimResult::Built(
        Ok(Some(out)),
    ) ==> distinct_ids(out.mergers@)) by {
        lemma_run_mergers_distinct(states, events, results, i);
        assert(step_holds(states, events, results, i));
        lemma_nearby_mergers_distinct(states[i].mergers(), states[i].region());
    }
}

proof fn lemma_ids_by_region_split(mergers: Seq<NodeInfo>, region: Seq<char>)
    ensures
        merger_ids_by_region(mergers, region, true).len() + merger_ids_by_region(
            mergers,
            region,
            false,
        ).len() == mergers.len(),
        forall|j: int|
            0 <= j < mergers.len() ==> merger_ids_by_region(
                mergers,
                region,
                (#[trigger] mergers[j]).region@ == region,
            ).contains(mergers[j].id),
    decreases mergers.len(),
{
    if mergers.len() > 0 {
        let init = mergers.drop_last();
        lemma_ids_by_region_split(init, region);
        assert forall|j: int| 0 <= j < mergers.len() implies merger_ids_by_region(
            mergers,
            region,
            (#[trigger] mergers[j]).region@ == region,
        ).contains(mergers[j].id) by {
            let same = mergers[j].region@ == region;
            let prev = merger_ids_by_region(init, region, same);
            let cur = merger_ids_by_region(mergers, region, same);
            if j < init.len() {
                assert(init[j] == mergers[j]);
                let k = choose|k: int| 0 <= k < prev.len() && prev[k] == mergers[j].id;
                assert(cur[k] == prev[k]);
            } else {
                assert(cur[cur.len() - 1] == mergers[j].id);
            }
        }
    }
}

/// A simulation node sends each partial block to as many mergers as it can,
/// up to `MAX_MERGER_CONNECTIONS`: the number of targets is the smaller of
/// that bound and the number of known mergers, so a node that knows any
/// merger reaches one, whatever its region.  When it knows no more
/// mergers than the bound, every one of them is a target; and the targets
/// begin with the mergers of its own region.
pub proof fn lemma_nearby_mergers_count(mergers: Seq<NodeInfo>, region: Seq<char>)
    ensures
        nearby_merger_ids(mergers, region).len() == (if mergers.len() < MAX_MERGER_CONNECTIONS {
            mergers.len()
        } else {
            MAX_MERGER_CONNECTIONS as nat
        }),
        mergers.len() <= MAX_MERGER_CONNECTIONS ==> forall|j: int|
            0 <= j < mergers.len() ==> nearby_merger_ids(mergers, region).contains(
                #[trigger] mergers[j].id,
            ),
        forall|k: int|
            0 <= k < nearby_merger_ids(mergers, region).len() && k < merger_ids_by_region(
                mergers,
                region,
                true,
            ).len() ==> listed_merger(
                mergers,
                #[trigger] nearby_merger_ids(mergers, region)[k],
                region,
                true,
            ),
{
    lemma_ids_by_region_split(mergers, region);
    lemma_ids_by_region_known(mergers, region, true);
    let local = merger_ids_by_region(mergers, region, true);
    let other = merger_ids_by_region(mergers, region, false);
    let r = nearby_merger_ids(mergers, region);
    if mergers.len() <= MAX_MERGER_CONNECTIONS {
        assert forall|j: int| 0 <= j < mergers.len() implies r.contains(#[trigger] mergers[j].id) by {
            if mergers[j].region@ == region {
                let k = choose|k: int| 0 <= k < local.len() && local[k] == mergers[j].id;
                assert(r[k] == local[k]);
            } else {
                let k = choose|k: int| 0 <= k < other.len() && other[k] == mergers[j].id;
                assert(r[local.len() + k] == other[k]);
            }
        }
    }
    assert forall|k: int| 0 <= k < r.len() && k < local.len() implies listed_merger(
        mergers,
        #[trigger] r[k],
        region,
        true,
    ) by {
        assert(r[k] == local[k]);
    }
}

/// A cancellation of `h` removes exactly the pending transactions whose
/// identifier is `h`: every other pending transaction stays, each kept
/// transaction was pending before, and the number removed is the number
/// that had identifier `h`.
pub proof fn lemma_without_tx_removes_only_h(txs: Seq<SignedTransaction>, h: Seq<u8>)
    ensures
        forall|i: int|
            0 <= i < txs.len() && spec_tx_hash((#[trigger] txs[i]).tx) != h ==> without_tx(
                txs,
                h,
            ).contains(txs[i]),
        forall|k: int|
            0 <= k < without_tx(txs, h).len() ==> spec_tx_hash(
                (#[trigger] without_tx(txs, h)[k]).tx,
            ) != h && txs.contains(without_tx(txs, h)[k]),
        without_tx(txs, h).len() + txs.filter(|t: SignedTransaction| spec_tx_hash(t.tx) == h).len()
            == txs.len(),
    decreases txs.len(),
{
    broadcast use vstd::seq_lib::group_filter_ensures;

    let keep = |t: SignedTransaction| spec_tx_hash(t.tx) != h;
    let drop = |t: SignedTransaction| spec_tx_hash(t.tx) == h;
    assert forall|i: int| 0 <= i < txs.len() && spec_tx_hash((#[trigger] txs[i]).tx) != h implies without_tx(
        txs,
        h,
    ).contains(txs[i]) by {
        assert(keep(txs[i]));
    }
    assert forall|k: int| 0 <= k < without_tx(txs, h).len() implies spec_tx_hash(
        (#[trigger] without_tx(txs, h)[k]).tx,
    ) != h && txs.contains(without_tx(txs, h)[k]) by {
        let w = txs.filter(keep);
        assert(keep(w[k]));
        assert(w.contains(w[k]));
        txs.lemma_filter_contains_rev(keep, w[k]);
    }
    if txs.len() > 0 {
        lemma_without_tx_removes_only_h(txs.drop_last(), h);
        reveal(Seq::filter);
        assert(txs.filter(keep) == (if keep(txs.last()) {
            txs.drop_last().filter(keep).push(txs.last())
        } else {
            txs.drop_last().filter(keep)
        }));
        assert(txs.filter(drop) == (if drop(txs.last()) {
            txs.drop_last().filter(drop).push(txs.last())
        } else {
            txs.drop_last().filter(drop)
        }));
    } else {
        reveal(Seq::filter);
    }
}

/// A cancellation of bundle `id` removes exactly the pending bundles with
/// that id: every other pending bundle stays, and each kept bundle was
/// pending before.
pub proof fn lemma_without_bundle_removes_only_id(bundles: Seq<Bundle>, id: Seq<u8>)
    ensures
        forall|i: int|
            0 <= i < bundles.len() && (#[trigger] bundles[i]).id@ != id ==> without_bundle(
                bundles,
                id,
            ).contains(bundles[i]),
        forall|k: int|
            0 <= k < without_bundle(bundles, id).len() ==> (#[trigger] without_bundle(
                bundles,
                id,
            )[k]).id@ != id && bundles.contains(without_bundle(bundles, id)[k]),
    decreases bundles.len(),
{
    reveal(Seq::filter);
    if bundles.len() > 0 {
        let init = bundles.drop_last();
        let last = bundles.last();
        lemma_without_bundle_removes_only_id(init, id);
        let w = without_bundle(bundles, id);
        let wi = without_bundle(init, id);
        assert(w == (if last.id@ != id {
            wi.push(last)
        } else {
            wi
        }));
        assert forall|i: int| 0 <= i < bundles.len() && (#[trigger] bundles[i]).id@ != id implies w.contains(
            bundles[i],
        ) by {
            if i < init.len() {
                assert(init[i] == bundles[i]);
                let k = choose|k: int| 0 <= k < wi.len() && wi[k] == init[i];
                assert(w[k] == wi[k]);
            } else {
                assert(w[wi.len() as int] == last);
            }
        }
        assert forall|k: int| 0 <= k < w.len() implies (#[trigger] w[k]).id@ != id && bundles.contains(
            w[k],
        ) by {
            if k < wi.len() {
                assert(w[k] == wi[k]);
                let i = choose|i: int| 0 <= i < init.len() && init[i] == wi[k];
                assert(bundles[i] == init[i]);
            } else {
                assert(w[k] == bundles[bundles.len() - 1]);
            }
        }
    }
}

/// Removing the transactions with identifier `h` works item by item and
/// keeps the order: on a list made of two parts it removes from each part,
/// and a single transaction is removed exactly when its identifier is `h`.
pub proof fn lemma_without_tx_in_order(
    a: Seq<SignedTransaction>,
    b: Seq<SignedTransaction>,
    t: SignedTransaction,
    h: Seq<u8>,
)
    ensures
        without_tx(a + b, h) == without_tx(a, h) + without_tx(b, h),
        without_tx(seq![t], h) == (if spec_tx_hash(t.tx) == h {
            Seq::<SignedTransaction>::empty()
        } else {
            seq![t]
        }),
{
    broadcast use Seq::filter_distributes_over_add;

    reveal(Seq::filter);
    assert(seq![t].drop_last() =~= Seq::<SignedTransaction>::empty());
    assert(without_tx(Seq::<SignedTransaction>::empty(), h) =~= Seq::<SignedTransaction>::empty());
    assert(Seq::<SignedTransaction>::empty().push(t) =~= seq![t]);
}

/// Removing the bundles with id `id` works item by item and keeps the
/// order: on a list made of two parts it removes from each part, and a
/// single bundle is removed exactly when its id is `id`.
pub proof fn lemma_without_bundle_in_order(a: Seq<Bundle>, b: Seq<Bundle>, x: Bundle, id: Seq<u8>)
    ensures
        without_bundle(a + b, id) == without_bundle(a, id) + without_bundle(b, id),
        without_bundle(seq![x], id) == (if x.id@ == id {
            Seq::<Bundle>::empty()
        } else {
            seq![x]
        }),
{
    broadcast use Seq::filter_distributes_over_add;

    reveal(Seq::filter);
    assert(seq![x].drop_last() =~= Seq::<Bundle>::empty());
    assert(without_bundle(Seq::<Bundle>::empty(), id) =~= Seq::<Bundle>::empty());
    assert(Seq::<Bundle>::empty().push(x) =~= seq![x]);
}

/// A cancellation is passed on exactly when it tells the node something
/// new: the gossip is the request itself when its transaction hash or its
/// bundle id was not cancelled before, so that the node's cancelled set
/// grows, and nothing when the set stays as it was.
pub proof fn lemma_cancellation_gossiped_iff_new(
    pre: SimulationState,
    c: CancellationRequest,
    post: SimulationState,
    gossip: Option<Message>,
)
    requires
        message_step(pre, Message::Cancellation(c), post, gossip),
    ensures
        gossip is None || gossip == Some(Message::Cancellation(c)),
        gossip == Some(Message::Cancellation(c)) <==> ((c.tx_hash matches Some(h)
            && !pre.cancelled().contains(h@)) || (c.bundle_id matches Some(b)
            && !pre.cancelled().contains(b@))),
        gossip == Some(Message::Cancellation(c)) <==> post.cancelled() != pre.cancelled(),
        gossip is None <==> post.cancelled() == pre.cancelled(),
        pre.cancelled().subset_of(post.cancelled()),
        c.tx_hash matches Some(h) ==> post.cancelled().contains(h@),
        c.bundle_id matches Some(b) ==> post.cancelled().contains(b@),
{
    if cancellation_known(pre.cancelled(), c) {
        assert(post.cancelled() =~= pre.cancelled());
    } else {
        if let Some(h) = c.tx_hash {
            if !pre.cancelled().contains(h@) {
                assert(post.cancelled().contains(h@));
            }
        }
        if let Some(b) = c.bundle_id {
            if !pre.cancelled().contains(b@) {
                assert(post.cancelled().contains(b@));
            }
        }
    }
}

} // verus!
