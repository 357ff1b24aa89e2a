//! The relay rule of the message hub: who receives a message that a node
//! hands to the network.

use vstd::prelude::*;

use crate::bytes::{bytes_eq, is_zero32};
use crate::types::{is_broadcast_target, NodeId};

verus! {

/// The identifier that addresses every node but the sender.
pub fn broadcast_target() -> (id: NodeId)
    ensures
        is_broadcast_target(id@),
{
    let id: NodeId = [0u8; 32];
    assert(id@ =~= Seq::new(32, |i: int| 0u8));
    id
}

/// The nodes that receive a message from `sender` addressed to `target`,
/// given the registered nodes in the order the hub lists them: for the
/// broadcast address, every registered node but the sender; otherwise the
/// target alone if it is registered, and nobody if it is not.
pub open spec fn recipients(nodes: Seq<NodeId>, sender: NodeId, target: NodeId) -> Seq<NodeId> {
    if is_broadcast_target(target@) {
        nodes.filter(|id: NodeId| id@ != sender@)
    } else if exists|j: int| 0 <= j < nodes.len() && nodes[j]@ == target@ {
        seq![target]
    } else {
        Seq::empty()
    }
}

/// Who receives a message from `sender` addressed to `target`.
pub fn route(nodes: &Vec<NodeId>, sender: &NodeId, target: &NodeId) -> (r: Vec<NodeId>)
    ensures
        r@ == recipients(nodes@, *sender, *target),
{
    let mut out: Vec<NodeId> = Vec::new();
    if is_zero32(target) {
        let ghost pred = |id: NodeId| id@ != sender@;
        let mut i: usize = 0;
        while i < nodes.len()
            invariant
                0 <= i <= nodes@.len(),
                out@ == nodes@.take(i as int).filter(pred),
                pred == (|id: NodeId| id@ != sender@),
            decreases nodes@.len() - i,
        {
            proof {
                assert(nodes@.take(i + 1).drop_last() =~= nodes@.take(i as int));
                assert(nodes@.take(i + 1).last() == nodes@[i as int]);
            }
            if !bytes_eq(&nodes[i], sender) {
                out.push(nodes[i]);
            }
            assert(out@ == nodes@.take(i + 1).filter(pred)) by {
                reveal(Seq::filter);
            }
            i = i + 1;
        }
        assert(nodes@.take(i as int) =~= nodes@);
        out
    } else {
        let mut i: usize = 0;
        while i < nodes.len()
            invariant
                0 <= i <= nodes@.len(),
                forall|k: int| 0 <= k < i ==> nodes@[k]@ != target@,
                out@ == Seq::<NodeId>::empty(),
                !is_broadcast_target(target@),
            decreases nodes@.len() - i,
        {
            if bytes_eq(&nodes[i], target) {
                out.push(*target);
                assert(out@ =~= seq![*target]);
                assert(nodes@[i as int]@ == target@);
                return out;
            }
            i = i + 1;
        }
        assert(out@ =~= Seq::<NodeId>::empty());
        out
    }
}

/// A broadcast reaches every registered node except its sender, and never
/// the sender; a message with any other address reaches its target alone,
/// and only if the target is registered.
pub proof fn lemma_recipients(nodes: Seq<NodeId>, sender: NodeId, target: NodeId)
    ensures
        is_broadcast_target(target@) ==> {
            &&& forall|k: int|
                0 <= k < recipients(nodes, sender, target).len() ==> (#[trigger] recipients(
                    nodes,
                    sender,
                    target,
                )[k])@ != sender@ && nodes.contains(recipients(nodes, sender, target)[k])
            &&& forall|j: int|
                0 <= j < nodes.len() && (#[trigger] nodes[j])@ != sender@ ==> recipients(
                    nodes,
                    sender,
                    target,
                ).contains(nodes[j])
        },
        !is_broadcast_target(target@) ==> {
            &&& recipients(nodes, sender, target).len() <= 1
            &&& forall|k: int|
                0 <= k < recipients(nodes, sender, target).len() ==> #[trigger] recipients(
                    nodes,
                    sender,
                    target,
                )[k] == target
            &&& (recipients(nodes, sender, target).len() == 1 <==> exists|j: int|
                0 <= j < nodes.len() && nodes[j]@ == target@)
        },
{
    broadcast use vstd::seq_lib::group_filter_ensures;

    let pred = |id: NodeId| id@ != sender@;
    let r = recipients(nodes, sender, target);
    if is_broadcast_target(target@) {
        assert forall|k: int| 0 <= k < r.len() implies (#[trigger] r[k])@ != sender@ && nodes.contains(r[k]) by {
            assert(pred(nodes.filter(pred)[k]));
            assert(r.contains(r[k]));
            nodes.lemma_filter_contains_rev(pred, r[k]);
        }
        assert forall|j: int| 0 <= j < nodes.len() && (#[trigger] nodes[j])@ != sender@ implies r.contains(
            nodes[j],
        ) by {
            assert(pred(nodes[j]));
        }
    }
}

} // verus!
