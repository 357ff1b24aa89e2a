//! Assembly of a partial block: a first-fit pass over the pending
//! transactions, then over the pending bundles, that keeps each item which
//! does not conflict with what was kept before it.

use vstd::prelude::*;

use crate::conflict::{
    bundle_conflicts, lemma_merge_conflicts_iff, tx_conflicts, ConflictSet, ConflictView,
};
use crate::merging::txs_of_bundles;
use crate::types::{tx_profit, Bundle, NodeId, PartialBlock, SignedTransaction, Transaction};

verus! {

/// A sum went past the width of its integer type.
#[derive(Debug)]
pub enum BlockError {
    ArithmeticOverflow,
}

/// What the first-fit pass has kept so far, with unbounded totals.
pub struct Selection {
    pub conflicts: ConflictView,
    pub txs: Seq<Transaction>,
    pub bundles: Seq<Bundle>,
    pub gas: int,
    pub profit: int,
}

pub open spec fn empty_selection() -> Selection {
    Selection {
        conflicts: ConflictView::empty(),
        txs: Seq::empty(),
        bundles: Seq::empty(),
        gas: 0,
        profit: 0,
    }
}

/// The gas limits of the given transactions, summed.
pub open spec fn gas_of(txs: Seq<Transaction>) -> int
    decreases txs.len(),
{
    if txs.len() == 0 {
        0
    } else {
        gas_of(txs.drop_last()) + txs.last().gas_limit
    }
}

/// The profits of the given transactions, summed.
pub open spec fn profit_of(txs: Seq<Transaction>) -> int
    decreases txs.len(),
{
    if txs.len() == 0 {
        0
    } else {
        profit_of(txs.drop_last()) + tx_profit(txs.last())
    }
}

/// `sel` with `tx` added, if `tx` does not conflict with it.
pub open spec fn offer_tx(sel: Selection, tx: Transaction) -> Selection {
    if sel.conflicts.conflicts_with(tx_conflicts(tx)) {
        sel
    } else {
        Selection {
            conflicts: sel.conflicts.merge(tx_conflicts(tx)),
            txs: sel.txs.push(tx),
            bundles: sel.bundles,
            gas: sel.gas + tx.gas_limit,
            profit: sel.profit + tx_profit(tx),
        }
    }
}

/// `sel` with `b` added, if `b` does not conflict with it.
pub open spec fn offer_bundle(sel: Selection, b: Bundle) -> Selection {
    if sel.conflicts.conflicts_with(bundle_conflicts(b)) {
        sel
    } else {
        Selection {
            conflicts: sel.conflicts.merge(bundle_conflicts(b)),
            txs: sel.txs,
            bundles: sel.bundles.push(b),
            gas: sel.gas + gas_of(b.transactions@),
            profit: sel.profit + profit_of(b.transactions@),
        }
    }
}

/// The first-fit pass over the transactions, in order.
pub open spec fn select_txs(txs: Seq<SignedTransaction>) -> Selection
    decreases txs.len(),
{
    if txs.len() == 0 {
        empty_selection()
    } else {
        offer_tx(select_txs(txs.drop_last()), txs.last().tx)
    }
}

/// The first-fit pass over the bundles, in order, starting from `start`.
pub open spec fn select_bundles(start: Selection, bundles: Seq<Bundle>) -> Selection
    decreases bundles.len(),
{
    if bundles.len() == 0 {
        start
    } else {
        offer_bundle(select_bundles(start, bundles.drop_last()), bundles.last())
    }
}

/// What a partial block built from these transactions and bundles holds.
pub open spec fn partial_selection(txs: Seq<SignedTransaction>, bundles: Seq<Bundle>) -> Selection {
    select_bundles(select_txs(txs), bundles)
}

/// Whether the totals of a selection fit the block's integer fields.
pub open spec fn selection_fits(sel: Selection) -> bool {
    sel.gas <= u64::MAX && sel.profit <= u128::MAX
}

pub proof fn lemma_gas_profit_nonneg(txs: Seq<Transaction>)
    ensures
        gas_of(txs) >= 0,
        profit_of(txs) >= 0,
    decreases txs.len(),
{
    if txs.len() > 0 {
        lemma_gas_profit_nonneg(txs.drop_last());
        let t = txs.last();
        assert(t.gas_price * t.gas_limit >= 0) by (nonlinear_arith);
    }
}

pub proof fn lemma_gas_profit_prefix(txs: Seq<Transaction>, j: int)
    requires
        0 <= j <= txs.len(),
    ensures
        gas_of(txs.take(j)) <= gas_of(txs),
        profit_of(txs.take(j)) <= profit_of(txs),
    decreases txs.len(),
{
    if j < txs.len() {
        assert(txs.drop_last().take(j) =~= txs.take(j));
        lemma_gas_profit_prefix(txs.drop_last(), j);
        let t = txs.last();
        assert(t.gas_price * t.gas_limit >= 0) by (nonlinear_arith);
    } else {
        assert(txs.take(j) =~= txs);
    }
}

proof fn lemma_select_bundles_grows(start: Selection, bundles: Seq<Bundle>)
    ensures
        select_bundles(start, bundles).gas >= start.gas,
        select_bundles(start, bundles).profit >= start.profit,
    decreases bundles.len(),
{
    if bundles.len() > 0 {
        lemma_select_bundles_grows(start, bundles.drop_last());
        lemma_gas_profit_nonneg(bundles.last().transactions@);
    }
}

proof fn lemma_select_bundles_prefix(start: Selection, bundles: Seq<Bundle>, i: int)
    requires
        0 <= i <= bundles.len(),
    ensures
        select_bundles(start, bundles.take(i)).gas <= select_bundles(start, bundles).gas,
        select_bundles(start, bundles.take(i)).profit <= select_bundles(start, bundles).profit,
    decreases bundles.len(),
{
    if i < bundles.len() {
        assert(bundles.drop_last().take(i) =~= bundles.take(i));
        lemma_select_bundles_prefix(start, bundles.drop_last(), i);
        lemma_gas_profit_nonneg(bundles.last().transactions@);
    } else {
        assert(bundles.take(i) =~= bundles);
    }
}

proof fn lemma_select_txs_prefix(txs: Seq<SignedTransaction>, i: int)
    requires
        0 <= i <= txs.len(),
    ensures
        select_txs(txs.take(i)).gas <= select_txs(txs).gas,
        select_txs(txs.take(i)).profit <= select_txs(txs).profit,
    decreases txs.len(),
{
    if i < txs.len() {
        assert(txs.drop_last().take(i) =~= txs.take(i));
        lemma_select_txs_prefix(txs.drop_last(), i);
        let t = txs.last().tx;
        assert(t.gas_price * t.gas_limit >= 0) by (nonlinear_arith);
    } else {
        assert(txs.take(i) =~= txs);
    }
}

/// Adds the gas and profit of a bundle's transactions to the running
/// totals, one transaction at a time, as the totals are kept in a block.
fn add_bundle_totals(bundle: &Bundle, gas: u64, profit: u128) -> (r: Result<(u64, u128), BlockError>)
    ensures
        match r {
            Ok((g, p)) => g == gas + gas_of(bundle.transactions@) && p == profit + profit_of(
                bundle.transactions@,
            ),
            Err(_) => gas + gas_of(bundle.transactions@) > u64::MAX || profit + profit_of(
                bundle.transactions@,
            ) > u128::MAX,
        },
{
    let txs = &bundle.transactions;
    let mut g = gas;
    let mut p = profit;
    let mut j: usize = 0;
    while j < txs.len()
        invariant
            0 <= j <= txs@.len(),
            txs@ == bundle.transactions@,
            g == gas + gas_of(txs@.take(j as int)),
            p == profit + profit_of(txs@.take(j as int)),
        decreases txs@.len() - j,
    {
        let t = &txs[j];
        proof {
            assert(txs@.take(j + 1).drop_last() =~= txs@.take(j as int));
            lemma_gas_profit_prefix(txs@, j + 1);
            lemma_gas_profit_nonneg(txs@.take(j + 1));
        }
        match g.checked_add(t.gas_limit) {
            Some(g2) => {
                g = g2;
            },
            None => {
                return Err(BlockError::ArithmeticOverflow);
            },
        }
        let limit = t.gas_limit as u128;
        match t.gas_price.checked_mul(limit) {
            Some(q) => {
                match p.checked_add(q) {
                    Some(p2) => {
                        p = p2;
                    },
                    None => {
                        return Err(BlockError::ArithmeticOverflow);
                    },
                }
            },
            None => {
                proof {
                    assert(p + t.gas_price * t.gas_limit > u128::MAX) by (nonlinear_arith)
                        requires
                            t.gas_price * limit > u128::MAX,
                            p >= 0,
                            limit == t.gas_limit,
                    ;
                }
                return Err(BlockError::ArithmeticOverflow);
            },
        }
        j = j + 1;
    }
    assert(txs@.take(j as int) =~= txs@);
    Ok((g, p))
}

/// Builds the partial block that node `builder_id` sends for its pending
/// transactions and bundles: first every transaction that does not
/// conflict with those already kept, in order, then every bundle that does
/// not conflict with what was kept, in order.  Fails exactly when the gas
/// total does not fit a `u64` or the profit estimate does not fit a `u128`.
pub fn assemble_partial_block(
    builder_id: NodeId,
    txs: Vec<SignedTransaction>,
    bundles: Vec<Bundle>,
) -> (r: Result<PartialBlock, BlockError>)
    ensures
        ({
            let sel = partial_selection(txs@, bundles@);
            match r {
                Ok(pb) => {
                    &&& selection_fits(sel)
                    &&& pb.builder_id == builder_id
                    &&& pb.transactions@ == sel.txs
                    &&& pb.bundles@ == sel.bundles
                    &&& pb.total_gas_used == sel.gas
                    &&& pb.estimated_profit == sel.profit
                    &&& pb.conflicts@ == sel.conflicts
                },
                Err(_) => !selection_fits(sel),
            }
        }),
{
    let ghost all_txs = txs@;
    let ghost all_bundles = bundles@;
    let mut conflicts = ConflictSet::new();
    let mut included_txs: Vec<Transaction> = Vec::new();
    let mut included_bundles: Vec<Bundle> = Vec::new();
    let mut gas_used: u64 = 0;
    let mut profit: u128 = 0;
    let mut rest = txs;
    let ghost mut i: int = 0;
    while rest.len() > 0
        invariant
            0 <= i <= all_txs.len(),
            all_txs == txs@,
            all_bundles == bundles@,
            rest@ == all_txs.skip(i),
            ({
                let sel = select_txs(all_txs.take(i));
                &&& conflicts@ == sel.conflicts
                &&& included_txs@ == sel.txs
                &&& included_bundles@ == sel.bundles
                &&& gas_used == sel.gas
                &&& profit == sel.profit
            }),
        decreases rest@.len(),
    {
        let stx = rest.remove(0);
        let tx = stx.tx;
        proof {
            assert(all_txs[i] == stx);
            assert(all_txs.take(i + 1).drop_last() =~= all_txs.take(i));
            assert(all_txs.take(i + 1).last() == stx);
            assert(select_txs(all_txs.take(i + 1)) == offer_tx(select_txs(all_txs.take(i)), stx.tx));
            lemma_select_txs_prefix(all_txs, i + 1);
            lemma_select_bundles_grows(select_txs(all_txs), all_bundles);
        }
        let tx_set = ConflictSet::for_transaction(&tx);
        if !conflicts.conflicts_with(&tx_set) {
            conflicts.merge(&tx_set);
            match gas_used.checked_add(tx.gas_limit) {
                Some(g) => {
                    gas_used = g;
                },
                None => {
                    return Err(BlockError::ArithmeticOverflow);
                },
            }
            let limit = tx.gas_limit as u128;
            match tx.gas_price.checked_mul(limit) {
                Some(q) => {
                    match profit.checked_add(q) {
                        Some(p) => {
                            profit = p;
                        },
                        None => {
                            return Err(BlockError::ArithmeticOverflow);
                        },
                    }
                },
                None => {
                    proof {
                        assert(profit + tx.gas_price * tx.gas_limit > u128::MAX) by (nonlinear_arith)
                            requires
                                tx.gas_price * limit > u128::MAX,
                                profit >= 0,
                                limit == tx.gas_limit,
                        ;
                    }
                    return Err(BlockError::ArithmeticOverflow);
                },
            }
            included_txs.push(tx);
        }
        proof {
            i = i + 1;
            assert(rest@ =~= all_txs.skip(i));
        }
    }
    proof {
        assert(all_txs.take(i) =~= all_txs);
    }
    let ghost start = select_txs(all_txs);
    let mut rest_bundles = bundles;
    let ghost mut k: int = 0;
    while rest_bundles.len() > 0
        invariant
            0 <= k <= all_bundles.len(),
            start == select_txs(all_txs),
            all_txs == txs@,
            all_bundles == bundles@,
            rest_bundles@ == all_bundles.skip(k),
            ({
                let sel = select_bundles(start, all_bundles.take(k));
                &&& conflicts@ == sel.conflicts
                &&& included_txs@ == sel.txs
                &&& included_bundles@ == sel.bundles
                &&& gas_used == sel.gas
                &&& profit == sel.profit
            }),
        decreases rest_bundles@.len(),
    {
        let bundle = rest_bundles.remove(0);
        proof {
            assert(all_bundles[k] == bundle);
            assert(all_bundles.take(k + 1).drop_last() =~= all_bundles.take(k));
            assert(all_bundles.take(k + 1).last() == bundle);
            assert(select_bundles(start, all_bundles.take(k + 1)) == offer_bundle(
                select_bundles(start, all_bundles.take(k)),
                bundle,
            ));
            lemma_select_bundles_prefix(start, all_bundles, k + 1);
        }
        let bundle_set = ConflictSet::for_bundle(&bundle);
        if !conflicts.conflicts_with(&bundle_set) {
            conflicts.merge(&bundle_set);
            match add_bundle_totals(&bundle, gas_used, profit) {
                Ok((g, p)) => {
                    gas_used = g;
                    profit = p;
                },
                Err(e) => {
                    return Err(e);
                },
            }
            included_bundles.push(bundle);
        }
        proof {
            k = k + 1;
            assert(rest_bundles@ =~= all_bundles.skip(k));
        }
    }
    proof {
        assert(all_bundles.take(k) =~= all_bundles);
    }
    Ok(
        PartialBlock {
            builder_id,
            transactions: included_txs,
            bundles: included_bundles,
            total_gas_used: gas_used,
            estimated_profit: profit,
            conflicts,
        },
    )
}

/// The conflict sets of what a selection kept: its transactions, in order,
/// then its bundles, in order.
pub open spec fn selection_parts(sel: Selection) -> Seq<ConflictView> {
    sel.txs.map_values(|t: Transaction| tx_conflicts(t)) + sel.bundles.map_values(
        |b: Bundle| bundle_conflicts(b),
    )
}

/// No part conflicts with a part that comes after it.
pub open spec fn pairwise_compatible(parts: Seq<ConflictView>) -> bool {
    forall|i: int, j: int|
        0 <= i < j < parts.len() ==> !(#[trigger] parts[i]).conflicts_with(#[trigger] parts[j])
}

/// All the parts merged, in order, into an empty set.
pub open spec fn merge_all(parts: Seq<ConflictView>) -> ConflictView
    decreases parts.len(),
{
    if parts.len() == 0 {
        ConflictView::empty()
    } else {
        merge_all(parts.drop_last()).merge(parts.last())
    }
}

/// The merge of several parts conflicts with `c` exactly when one of the
/// parts does.
pub proof fn lemma_merge_all_conflicts_iff(parts: Seq<ConflictView>, c: ConflictView)
    ensures
        merge_all(parts).conflicts_with(c) <==> exists|i: int|
            0 <= i < parts.len() && (#[trigger] parts[i]).conflicts_with(c),
    decreases parts.len(),
{
    if parts.len() > 0 {
        let init = parts.drop_last();
        lemma_merge_all_conflicts_iff(init, c);
        lemma_merge_conflicts_iff(merge_all(init), parts.last(), c);
        if exists|i: int| 0 <= i < init.len() && (#[trigger] init[i]).conflicts_with(c) {
            let i = choose|i: int| 0 <= i < init.len() && (#[trigger] init[i]).conflicts_with(c);
            assert(parts[i] == init[i]);
        }
        if exists|i: int| 0 <= i < parts.len() && (#[trigger] parts[i]).conflicts_with(c) {
            let i = choose|i: int| 0 <= i < parts.len() && (#[trigger] parts[i]).conflicts_with(c);
            if i < init.len() {
                assert(init[i] == parts[i]);
            }
        }
    } else {
        crate::conflict::lemma_empty_conflicts_with_nothing(c);
    }
}

/// Adding a part that nothing before it conflicts with keeps the parts
/// pairwise compatible, and the merge grows by that part.
pub proof fn lemma_parts_push(parts: Seq<ConflictView>, c: ConflictView)
    requires
        pairwise_compatible(parts),
        !merge_all(parts).conflicts_with(c),
    ensures
        pairwise_compatible(parts.push(c)),
        merge_all(parts.push(c)) == merge_all(parts).merge(c),
{
    lemma_merge_all_conflicts_iff(parts, c);
    let w = parts.push(c);
    assert(w.drop_last() =~= parts);
    assert forall|i: int, j: int| 0 <= i < j < w.len() implies !(#[trigger] w[i]).conflicts_with(
        #[trigger] w[j],
    ) by {
        assert(w[i] == parts[i]);
        if j < parts.len() {
            assert(w[j] == parts[j]);
        }
    }
}

pub open spec fn selection_consistent(sel: Selection) -> bool {
    &&& pairwise_compatible(selection_parts(sel))
    &&& sel.conflicts == merge_all(selection_parts(sel))
}

proof fn lemma_select_txs_consistent(txs: Seq<SignedTransaction>)
    ensures
        selection_consistent(select_txs(txs)),
        select_txs(txs).bundles == Seq::<Bundle>::empty(),
    decreases txs.len(),
{
    if txs.len() == 0 {
        assert(selection_parts(empty_selection()) =~= Seq::<ConflictView>::empty());
    } else {
        let prev = select_txs(txs.drop_last());
        lemma_select_txs_consistent(txs.drop_last());
        let t = txs.last().tx;
        let c = tx_conflicts(t);
        if !prev.conflicts.conflicts_with(c) {
            let next = offer_tx(prev, t);
            assert(selection_parts(next) =~= selection_parts(prev).push(c));
            lemma_parts_push(selection_parts(prev), c);
        }
    }
}

proof fn lemma_select_bundles_consistent(start: Selection, bundles: Seq<Bundle>)
    requires
        selection_consistent(start),
    ensures
        selection_consistent(select_bundles(start, bundles)),
    decreases bundles.len(),
{
    if bundles.len() > 0 {
        let prev = select_bundles(start, bundles.drop_last());
        lemma_select_bundles_consistent(start, bundles.drop_last());
        let b = bundles.last();
        let c = bundle_conflicts(b);
        if !prev.conflicts.conflicts_with(c) {
            let next = offer_bundle(prev, b);
            assert(selection_parts(next) =~= selection_parts(prev).push(c));
            lemma_parts_push(selection_parts(prev), c);
        }
    }
}

/// A partial block is a conflict-free set: of the transactions and
/// bundles it keeps (transactions first, each group in order), none
/// conflicts with one kept after it, and the block's conflict set is all
/// of their conflict sets merged.
pub proof fn lemma_partial_block_conflict_free(txs: Seq<SignedTransaction>, bundles: Seq<Bundle>)
    ensures
        pairwise_compatible(selection_parts(partial_selection(txs, bundles))),
        partial_selection(txs, bundles).conflicts == merge_all(
            selection_parts(partial_selection(txs, bundles)),
        ),
{
    lemma_select_txs_consistent(txs);
    lemma_select_bundles_consistent(select_txs(txs), bundles);
}

proof fn lemma_select_txs_drawn(txs: Seq<SignedTransaction>)
    ensures
        forall|k: int|
            0 <= k < select_txs(txs).txs.len() ==> exists|i: int|
                0 <= i < txs.len() && #[trigger] select_txs(txs).txs[k] == txs[i].tx,
        select_txs(txs).bundles == Seq::<Bundle>::empty(),
    decreases txs.len(),
{
    if txs.len() > 0 {
        let init = txs.drop_last();
        lemma_select_txs_drawn(init);
        let prev = select_txs(init);
        let cur = select_txs(txs);
        assert forall|k: int| 0 <= k < cur.txs.len() implies exists|i: int|
            0 <= i < txs.len() && #[trigger] cur.txs[k] == txs[i].tx by {
            if k < prev.txs.len() {
                assert(cur.txs[k] == prev.txs[k]);
                let i = choose|i: int| 0 <= i < init.len() && prev.txs[k] == init[i].tx;
                assert(init[i] == txs[i]);
            } else {
                assert(cur.txs[k] == txs[txs.len() - 1].tx);
            }
        }
    }
}

proof fn lemma_select_bundles_drawn(start: Selection, bundles: Seq<Bundle>)
    ensures
        forall|k: int|
            start.bundles.len() <= k < select_bundles(start, bundles).bundles.len() ==> exists|i: int|
                0 <= i < bundles.len() && #[trigger] select_bundles(start, bundles).bundles[k]
                    == bundles[i],
        select_bundles(start, bundles).txs == start.txs,
        select_bundles(start, bundles).bundles.len() >= start.bundles.len(),
        select_bundles(start, bundles).bundles.take(start.bundles.len() as int) == start.bundles,
    decreases bundles.len(),
{
    if bundles.len() == 0 {
        assert(start.bundles.take(start.bundles.len() as int) =~= start.bundles);
    } else {
        let init = bundles.drop_last();
        lemma_select_bundles_drawn(start, init);
        let prev = select_bundles(start, init);
        let cur = select_bundles(start, bundles);
        assert forall|k: int| start.bundles.len() <= k < cur.bundles.len() implies exists|i: int|
            0 <= i < bundles.len() && #[trigger] cur.bundles[k] == bundles[i] by {
            if k < prev.bundles.len() {
                assert(cur.bundles[k] == prev.bundles[k]);
                let i = choose|i: int| 0 <= i < init.len() && prev.bundles[k] == init[i];
                assert(init[i] == bundles[i]);
            } else {
                assert(cur.bundles[k] == bundles[bundles.len() - 1]);
            }
        }
        assert(cur.bundles.take(start.bundles.len() as int) =~= start.bundles);
    }
}

/// A partial block holds only what it was built from: each of its
/// transactions is one of the given transactions, and each of its bundles
/// is one of the given bundles.
pub proof fn lemma_partial_block_drawn_from_input(txs: Seq<SignedTransaction>, bundles: Seq<Bundle>)
    ensures
        forall|k: int|
            0 <= k < partial_selection(txs, bundles).txs.len() ==> exists|i: int|
                0 <= i < txs.len() && #[trigger] partial_selection(txs, bundles).txs[k] == txs[i].tx,
        forall|k: int|
            0 <= k < partial_selection(txs, bundles).bundles.len() ==> exists|i: int|
                0 <= i < bundles.len() && #[trigger] partial_selection(txs, bundles).bundles[k]
                    == bundles[i],
{
    lemma_select_txs_drawn(txs);
    lemma_select_bundles_drawn(select_txs(txs), bundles);
}


proof fn lemma_select_txs_keeps_prefix(txs: Seq<SignedTransaction>, i: int)
    requires
        0 <= i <= txs.len(),
    ensures
        select_txs(txs.take(i)).txs.len() <= select_txs(txs).txs.len(),
        forall|k: int|
            0 <= k < select_txs(txs.take(i)).txs.len() ==> #[trigger] select_txs(txs.take(i)).txs[k]
                == select_txs(txs).txs[k],
    decreases txs.len(),
{
    if i < txs.len() {
        assert(txs.drop_last().take(i) =~= txs.take(i));
        lemma_select_txs_keeps_prefix(txs.drop_last(), i);
    } else {
        assert(txs.take(i) =~= txs);
    }
}

proof fn lemma_select_bundles_keeps_prefix(start: Selection, bundles: Seq<Bundle>, j: int)
    requires
        0 <= j <= bundles.len(),
    ensures
        select_bundles(start, bundles.take(j)).txs == select_bundles(start, bundles).txs,
        select_bundles(start, bundles.take(j)).bundles.len() <= select_bundles(
            start,
            bundles,
        ).bundles.len(),
        forall|k: int|
            0 <= k < select_bundles(start, bundles.take(j)).bundles.len() ==> #[trigger] select_bundles(
                start,
                bundles.take(j),
            ).bundles[k] == select_bundles(start, bundles).bundles[k],
    decreases bundles.len(),
{
    if j < bundles.len() {
        assert(bundles.drop_last().take(j) =~= bundles.take(j));
        lemma_select_bundles_keeps_prefix(start, bundles.drop_last(), j);
    } else {
        assert(bundles.take(j) =~= bundles);
    }
}

/// The transaction pass of a partial block is first-fit: each pending
/// transaction is in the block unless it conflicts with what was kept
/// before it, and then some transaction of the block conflicts with it.
pub proof fn lemma_partial_block_first_fit_txs(
    txs: Seq<SignedTransaction>,
    bundles: Seq<Bundle>,
    i: int,
)
    requires
        0 <= i < txs.len(),
    ensures
        partial_selection(txs, bundles).txs.contains(txs[i].tx) || select_txs(
            txs.take(i),
        ).conflicts.conflicts_with(tx_conflicts(txs[i].tx)),
        partial_selection(txs, bundles).txs.contains(txs[i].tx) || exists|k: int|
            0 <= k < partial_selection(txs, bundles).txs.len() && tx_conflicts(
                #[trigger] partial_selection(txs, bundles).txs[k],
            ).conflicts_with(tx_conflicts(txs[i].tx)),
{
    let t = txs[i].tx;
    let c = tx_conflicts(t);
    let pre = select_txs(txs.take(i));
    let fin = partial_selection(txs, bundles);
    assert(txs.take(i + 1).drop_last() =~= txs.take(i));
    assert(txs.take(i + 1).last() == txs[i]);
    lemma_select_txs_keeps_prefix(txs, i);
    lemma_select_txs_keeps_prefix(txs, i + 1);
    lemma_select_bundles_drawn(select_txs(txs), bundles);
    assert(fin.txs == select_txs(txs).txs);
    if !pre.conflicts.conflicts_with(c) {
        let post = select_txs(txs.take(i + 1));
        assert(post.txs[pre.txs.len() as int] == t);
        assert(fin.txs[pre.txs.len() as int] == t);
    } else {
        lemma_select_txs_consistent(txs.take(i));
        let parts = selection_parts(pre);
        lemma_merge_all_conflicts_iff(parts, c);
        let p = choose|p: int| 0 <= p < parts.len() && (#[trigger] parts[p]).conflicts_with(c);
        assert(parts[p] == tx_conflicts(pre.txs[p]));
        assert(fin.txs[p] == pre.txs[p]);
    }
}

/// The bundle pass of a partial block is first-fit: each pending bundle is
/// in the block unless it conflicts with what was kept before it, and then
/// some transaction or bundle of the block conflicts with it.
pub proof fn lemma_partial_block_first_fit_bundles(
    txs: Seq<SignedTransaction>,
    bundles: Seq<Bundle>,
    j: int,
)
    requires
        0 <= j < bundles.len(),
    ensures
        partial_selection(txs, bundles).bundles.contains(bundles[j]) || select_bundles(
            select_txs(txs),
            bundles.take(j),
        ).conflicts.conflicts_with(bundle_conflicts(bundles[j])),
        partial_selection(txs, bundles).bundles.contains(bundles[j]) || exists|p: int|
            0 <= p < selection_parts(partial_selection(txs, bundles)).len() && (
            #[trigger] selection_parts(partial_selection(txs, bundles))[p]).conflicts_with(
                bundle_conflicts(bundles[j]),
            ),
{
    let start = select_txs(txs);
    let b = bundles[j];
    let c = bundle_conflicts(b);
    let pre = select_bundles(start, bundles.take(j));
    let fin = partial_selection(txs, bundles);
    assert(bundles.take(j + 1).drop_last() =~= bundles.take(j));
    assert(bundles.take(j + 1).last() == b);
    lemma_select_bundles_keeps_prefix(start, bundles, j);
    lemma_select_bundles_keeps_prefix(start, bundles, j + 1);
    if !pre.conflicts.conflicts_with(c) {
        let post = select_bundles(start, bundles.take(j + 1));
        assert(post.bundles[pre.bundles.len() as int] == b);
        assert(fin.bundles[pre.bundles.len() as int] == b);
    } else {
        lemma_select_txs_consistent(txs);
        lemma_select_bundles_consistent(start, bundles.take(j));
        let parts = selection_parts(pre);
        let all = selection_parts(fin);
        lemma_merge_all_conflicts_iff(parts, c);
        let p = choose|p: int| 0 <= p < parts.len() && (#[trigger] parts[p]).conflicts_with(c);
        let n = pre.txs.len() as int;
        if p < n {
            assert(parts[p] == tx_conflicts(pre.txs[p]));
            assert(all[p] == tx_conflicts(fin.txs[p]));
        } else {
            assert(parts[p] == bundle_conflicts(pre.bundles[p - n]));
            assert(all[p] == bundle_conflicts(fin.bundles[p - n]));
        }
        assert(all[p].conflicts_with(c));
    }
}

/// Gas and profit sums split over two lists.
pub proof fn lemma_gas_profit_concat(a: Seq<Transaction>, b: Seq<Transaction>)
    ensures
        gas_of(a + b) == gas_of(a) + gas_of(b),
        profit_of(a + b) == profit_of(a) + profit_of(b),
    decreases b.len(),
{
    if b.len() == 0 {
        assert(a + b =~= a);
    } else {
        assert((a + b).drop_last() =~= a + b.drop_last());
        assert((a + b).last() == b.last());
        lemma_gas_profit_concat(a, b.drop_last());
    }
}

proof fn lemma_select_txs_totals(txs: Seq<SignedTransaction>)
    ensures
        select_txs(txs).gas == gas_of(select_txs(txs).txs),
        select_txs(txs).profit == profit_of(select_txs(txs).txs),
        select_txs(txs).bundles == Seq::<Bundle>::empty(),
    decreases txs.len(),
{
    if txs.len() > 0 {
        lemma_select_txs_totals(txs.drop_last());
        let prev = select_txs(txs.drop_last());
        let t = txs.last().tx;
        assert(prev.txs.push(t).drop_last() =~= prev.txs);
    }
}

proof fn lemma_select_bundles_totals(start: Selection, bundles: Seq<Bundle>)
    requires
        start.gas == gas_of(start.txs) + gas_of(txs_of_bundles(start.bundles)),
        start.profit == profit_of(start.txs) + profit_of(txs_of_bundles(start.bundles)),
    ensures
        select_bundles(start, bundles).gas == gas_of(select_bundles(start, bundles).txs) + gas_of(
            txs_of_bundles(select_bundles(start, bundles).bundles),
        ),
        select_bundles(start, bundles).profit == profit_of(select_bundles(start, bundles).txs)
            + profit_of(txs_of_bundles(select_bundles(start, bundles).bundles)),
    decreases bundles.len(),
{
    if bundles.len() > 0 {
        lemma_select_bundles_totals(start, bundles.drop_last());
        let prev = select_bundles(start, bundles.drop_last());
        let b = bundles.last();
        if !prev.conflicts.conflicts_with(bundle_conflicts(b)) {
            assert(prev.bundles.push(b).drop_last() =~= prev.bundles);
            lemma_gas_profit_concat(txs_of_bundles(prev.bundles), b.transactions@);
        }
    }
}

/// The totals of a partial block are those of what it holds: its gas is
/// the sum of the gas limits of its transactions and of the transactions of
/// its bundles, and its profit estimate the sum of their gas price times gas
/// limit.
pub proof fn lemma_partial_block_totals(txs: Seq<SignedTransaction>, bundles: Seq<Bundle>)
    ensures
        partial_selection(txs, bundles).gas == gas_of(partial_selection(txs, bundles).txs)
            + gas_of(txs_of_bundles(partial_selection(txs, bundles).bundles)),
        partial_selection(txs, bundles).profit == profit_of(partial_selection(txs, bundles).txs)
            + profit_of(txs_of_bundles(partial_selection(txs, bundles).bundles)),
{
    lemma_select_txs_totals(txs);
    assert(txs_of_bundles(Seq::<Bundle>::empty()) =~= Seq::<Transaction>::empty());
    lemma_select_bundles_totals(select_txs(txs), bundles);
}

} // verus!
