//! The decisions of a merging node: which messages it keeps, in which
//! order it considers partial blocks, and which transactions make up the
//! block it submits.

use vstd::prelude::*;

use crate::bytes::bytes_eq;
use crate::conflict::{bundle_conflicts, tx_conflicts, ConflictSet, ConflictView};
use crate::partial::{
    lemma_gas_profit_concat, lemma_gas_profit_nonneg, lemma_gas_profit_prefix, lemma_merge_all_conflicts_iff, lemma_parts_push, merge_all, pairwise_compatible,
    profit_of, BlockError,
};
use crate::simulation::{
    cancelled_after, distinct_merger_ids, lemma_record_merger_keeps_ids_distinct, id_set, list_contains, record_cancelled, record_merger, remove_bundle, remove_tx,
    without_bundle, without_tx,
};
use crate::types::{
    spec_tx_hash, tx_profit, Bundle, Message, NodeConfig, NodeId, NodeInfo, NodeRole, PartialBlock,
    SignedTransaction, Transaction,
};

verus! {

/// The profit per unit of gas of a partial block, rounded down (a block
/// that uses no gas has density 0).
pub open spec fn profit_density(p: PartialBlock) -> u128 {
    if p.total_gas_used == 0 {
        0
    } else {
        p.estimated_profit / (p.total_gas_used as u128)
    }
}

/// The profit density of a partial block.
pub fn density_of(p: &PartialBlock) -> (d: u128)
    ensures
        d == profit_density(*p),
{
    if p.total_gas_used == 0 {
        0
    } else {
        let g = p.total_gas_used as u128;
        p.estimated_profit / g
    }
}

/// `perm` lists each index of `0..n` exactly once.
pub open spec fn is_permutation(perm: Seq<int>, n: int) -> bool {
    &&& perm.len() == n
    &&& forall|k: int| 0 <= k < n ==> 0 <= #[trigger] perm[k] < n
    &&& forall|k: int, l: int| 0 <= k < n && 0 <= l < n && k != l ==> perm[k] != perm[l]
    &&& forall|x: int| 0 <= x < n ==> #[trigger] lists_index(perm, x)
}

/// `x` is one of the entries of `perm`.
pub open spec fn lists_index(perm: Seq<int>, x: int) -> bool {
    exists|k: int| 0 <= k < perm.len() && #[trigger] perm[k] == x
}

/// `out` holds the blocks of `input`, highest profit density first; among
/// blocks of equal density, the one that came later in `input` comes first.
/// (This is a stable sort by ascending density, reversed.)
pub open spec fn is_density_order(input: Seq<PartialBlock>, out: Seq<PartialBlock>) -> bool {
    exists|perm: Seq<int>|
        {
            &&& is_permutation(perm, input.len() as int)
            &&& out.len() == input.len()
            &&& forall|k: int| 0 <= k < out.len() ==> out[k] == input[#[trigger] perm[k]]
            &&& forall|k: int, l: int|
                0 <= k < l < out.len() ==> profit_density(#[trigger] out[k]) > profit_density(
                    #[trigger] out[l],
                ) || (profit_density(out[k]) == profit_density(out[l]) && perm[k] > perm[l])
        }
}

/// Puts the partial blocks in the order a merger considers them: highest
/// profit density first, and among equal densities the later arrival first.
pub fn order_by_profit_density(partials: Vec<PartialBlock>) -> (out: Vec<PartialBlock>)
    ensures
        is_density_order(partials@, out@),
{
    let ghost input = partials@;
    let ghost n = input.len() as int;
    let mut rest = partials;
    let mut out: Vec<PartialBlock> = Vec::new();
    let ghost mut perm: Seq<int> = Seq::empty();
    while rest.len() > 0
        invariant
            n == input.len(),
            rest@ == input.take(n - out@.len()),
            out@.len() <= n,
            perm.len() == out@.len(),
            forall|k: int| 0 <= k < out@.len() ==> n - out@.len() <= #[trigger] perm[k] < n,
            forall|k: int, l: int|
                0 <= k < out@.len() && 0 <= l < out@.len() && k != l ==> perm[k] != perm[l],
            forall|x: int| n - out@.len() <= x < n ==> #[trigger] lists_index(perm, x),
            forall|k: int| 0 <= k < out@.len() ==> out@[k] == input[#[trigger] perm[k]],
            forall|k: int, l: int|
                0 <= k < l < out@.len() ==> profit_density(#[trigger] out@[k]) > profit_density(
                    #[trigger] out@[l],
                ) || (profit_density(out@[k]) == profit_density(out@[l]) && perm[k] > perm[l]),
        decreases rest@.len(),
    {
        let ghost idx = n - out@.len() - 1;
        let p = rest.pop().unwrap();
        proof {
            assert(p == input[idx]);
            assert(rest@ =~= input.take(idx));
        }
        let d = density_of(&p);
        let mut pos: usize = 0;
        while pos < out.len() && density_of(&out[pos]) >= d
            invariant
                0 <= pos <= out@.len(),
                forall|k: int| 0 <= k < pos ==> profit_density(#[trigger] out@[k]) >= d,
            decreases out@.len() - pos,
        {
            pos = pos + 1;
        }
        proof {
            // every block from `pos` on has a lower density than `p`
            assert forall|k: int| pos <= k < out@.len() implies profit_density(
                #[trigger] out@[k],
            ) < d by {
                if k > pos {
                    assert(profit_density(out@[pos as int]) > profit_density(out@[k]) || (
                    profit_density(out@[pos as int]) == profit_density(out@[k])));
                }
            }
        }
        let ghost old_out = out@;
        let ghost old_perm = perm;
        out.insert(pos, p);
        proof {
            perm = old_perm.insert(pos as int, idx);
            let m = out@.len();
            assert forall|k: int| 0 <= k < m implies out@[k] == input[#[trigger] perm[k]] by {
                if k < pos {
                    assert(out@[k] == old_out[k] && perm[k] == old_perm[k]);
                } else if k > pos {
                    assert(out@[k] == old_out[k - 1] && perm[k] == old_perm[k - 1]);
                }
            }
            assert forall|x: int| n - m <= x < n implies #[trigger] lists_index(perm, x) by {
                if x == idx {
                    assert(perm[pos as int] == x);
                } else {
                    assert(lists_index(old_perm, x));
                    let k0 = choose|k0: int| 0 <= k0 < m - 1 && #[trigger] old_perm[k0] == x;
                    if k0 < pos {
                        assert(perm[k0] == x);
                    } else {
                        assert(perm[k0 + 1] == x);
                    }
                }
            }
            assert forall|k: int| 0 <= k < m implies n - m <= #[trigger] perm[k] < n by {
                if k < pos {
                    assert(perm[k] == old_perm[k]);
                } else if k > pos {
                    assert(perm[k] == old_perm[k - 1]);
                }
            }
            assert forall|k: int, l: int| 0 <= k < m && 0 <= l < m && k != l implies perm[k]
                != perm[l] by {
                if k != pos && l != pos {
                    let k0 = if k < pos { k } else { k - 1 };
                    let l0 = if l < pos { l } else { l - 1 };
                    assert(perm[k] == old_perm[k0]);
                    assert(perm[l] == old_perm[l0]);
                } else if k == pos {
                    let l0 = if l < pos { l } else { l - 1 };
                    assert(perm[l] == old_perm[l0]);
                } else {
                    let k0 = if k < pos { k } else { k - 1 };
                    assert(perm[k] == old_perm[k0]);
                }
            }
            assert forall|k: int, l: int| 0 <= k < l < m implies profit_density(
                #[trigger] out@[k],
            ) > profit_density(#[trigger] out@[l]) || (profit_density(out@[k]) == profit_density(
                out@[l],
            ) && perm[k] > perm[l]) by {
                if l < pos {
                    assert(out@[k] == old_out[k] && out@[l] == old_out[l]);
                    assert(perm[k] == old_perm[k] && perm[l] == old_perm[l]);
                } else if l == pos {
                    assert(out@[k] == old_out[k] && perm[k] == old_perm[k]);
                    assert(profit_density(old_out[k]) >= d);
                } else if k == pos {
                    assert(out@[l] == old_out[l - 1]);
                    assert(profit_density(old_out[l - 1]) < d);
                } else if k < pos {
                    assert(out@[k] == old_out[k] && out@[l] == old_out[l - 1]);
                    assert(perm[k] == old_perm[k] && perm[l] == old_perm[l - 1]);
                } else {
                    assert(out@[k] == old_out[k - 1] && out@[l] == old_out[l - 1]);
                    assert(perm[k] == old_perm[k - 1] && perm[l] == old_perm[l - 1]);
                }
            }
        }
    }
    proof {
        assert(is_permutation(perm, n));
        assert(out@.len() == input.len());
    }
    out
}

/// Block `i` of `input` is considered before block `j`.
pub open spec fn considered_before(input: Seq<PartialBlock>, i: int, j: int) -> bool {
    profit_density(input[i]) > profit_density(input[j]) || (profit_density(input[i])
        == profit_density(input[j]) && i > j)
}

proof fn lemma_perms_agree_upto(
    input: Seq<PartialBlock>,
    p1: Seq<int>,
    p2: Seq<int>,
    k: int,
)
    requires
        is_permutation(p1, input.len() as int),
        is_permutation(p2, input.len() as int),
        forall|a: int, b: int|
            0 <= a < b < input.len() ==> considered_before(input, #[trigger] p1[a], #[trigger] p1[b]),
        forall|a: int, b: int|
            0 <= a < b < input.len() ==> considered_before(input, #[trigger] p2[a], #[trigger] p2[b]),
        0 <= k <= input.len(),
    ensures
        forall|m: int| 0 <= m < k ==> p1[m] == p2[m],
    decreases k,
{
    if k > 0 {
        lemma_perms_agree_upto(input, p1, p2, k - 1);
        let n = input.len() as int;
        let i = k - 1;
        let a = p1[i];
        let b = p2[i];
        if a != b {
            assert(lists_index(p2, a));
            assert(lists_index(p1, b));
            let l = choose|l: int| 0 <= l < n && #[trigger] p2[l] == a;
            let m = choose|m: int| 0 <= m < n && #[trigger] p1[m] == b;
            if l < i {
                assert(p1[l] == p2[l]);
            }
            if m < i {
                assert(p1[m] == p2[m]);
            }
            assert(l != i && m != i);
            assert(l > i && m > i);
            assert(considered_before(input, p2[i], p2[l]));
            assert(considered_before(input, p1[i], p1[m]));
            assert(false);
        }
    }
}

/// The order in which a merger considers partial blocks is determined by
/// the blocks alone: there is only one density order of a sequence.
pub proof fn lemma_density_order_unique(
    input: Seq<PartialBlock>,
    o1: Seq<PartialBlock>,
    o2: Seq<PartialBlock>,
)
    requires
        is_density_order(input, o1),
        is_density_order(input, o2),
    ensures
        o1 == o2,
{
    let n = input.len() as int;
    let p1 = choose|perm: Seq<int>|
        {
            &&& is_permutation(perm, n)
            &&& o1.len() == input.len()
            &&& forall|k: int| 0 <= k < o1.len() ==> o1[k] == input[#[trigger] perm[k]]
            &&& forall|k: int, l: int|
                0 <= k < l < o1.len() ==> profit_density(#[trigger] o1[k]) > profit_density(
                    #[trigger] o1[l],
                ) || (profit_density(o1[k]) == profit_density(o1[l]) && perm[k] > perm[l])
        };
    let p2 = choose|perm: Seq<int>|
        {
            &&& is_permutation(perm, n)
            &&& o2.len() == input.len()
            &&& forall|k: int| 0 <= k < o2.len() ==> o2[k] == input[#[trigger] perm[k]]
            &&& forall|k: int, l: int|
                0 <= k < l < o2.len() ==> profit_density(#[trigger] o2[k]) > profit_density(
                    #[trigger] o2[l],
                ) || (profit_density(o2[k]) == profit_density(o2[l]) && perm[k] > perm[l])
        };
    assert forall|a: int, b: int| 0 <= a < b < n implies considered_before(
        input,
        #[trigger] p1[a],
        #[trigger] p1[b],
    ) by {
        assert(o1[a] == input[p1[a]] && o1[b] == input[p1[b]]);
    }
    assert forall|a: int, b: int| 0 <= a < b < n implies considered_before(
        input,
        #[trigger] p2[a],
        #[trigger] p2[b],
    ) by {
        assert(o2[a] == input[p2[a]] && o2[b] == input[p2[b]]);
    }
    lemma_perms_agree_upto(input, p1, p2, n);
    assert forall|k: int| 0 <= k < n implies o1[k] == o2[k] by {
        assert(o1[k] == input[p1[k]]);
        assert(o2[k] == input[p2[k]]);
        assert(p1[k] == p2[k]);
    }
    assert(o1 =~= o2);
}

/// The transactions of the given bundles, bundle after bundle.
pub open spec fn txs_of_bundles(bundles: Seq<Bundle>) -> Seq<Transaction>
    decreases bundles.len(),
{
    if bundles.len() == 0 {
        Seq::empty()
    } else {
        txs_of_bundles(bundles.drop_last()) + bundles.last().transactions@
    }
}

/// Everything a partial block submits: its transactions, then the
/// transactions of its bundles, bundle after bundle.
pub open spec fn block_txs(p: PartialBlock) -> Seq<Transaction> {
    p.transactions@ + txs_of_bundles(p.bundles@)
}

/// What the merge of the latency-sensitive orderflow and the ordered
/// partial blocks has kept so far, with an unbounded profit total.
pub struct MergeSelection {
    pub conflicts: ConflictView,
    pub txs: Seq<Transaction>,
    pub profit: int,
    /// The partial blocks kept, in order.
    pub blocks: Seq<PartialBlock>,
    /// The latency-sensitive transactions kept, in order.
    pub extra: Seq<Transaction>,
    /// The latency-sensitive bundles kept, in order.
    pub extra_bundles: Seq<Bundle>,
}

pub open spec fn empty_merge() -> MergeSelection {
    MergeSelection {
        conflicts: ConflictView::empty(),
        txs: Seq::empty(),
        profit: 0,
        blocks: Seq::empty(),
        extra: Seq::empty(),
        extra_bundles: Seq::empty(),
    }
}

/// `sel` with the partial block `p` added whole, bundles included, if
/// `p`'s conflict set does not conflict with what was kept.
pub open spec fn offer_partial(sel: MergeSelection, p: PartialBlock) -> MergeSelection {
    if sel.conflicts.conflicts_with(p.conflicts@) {
        sel
    } else {
        MergeSelection {
            conflicts: sel.conflicts.merge(p.conflicts@),
            txs: sel.txs + block_txs(p),
            profit: sel.profit + p.estimated_profit,
            blocks: sel.blocks.push(p),
            ..sel
        }
    }
}

/// `sel` with the latency-sensitive transaction `tx` added, if it does not
/// conflict with what was kept.
pub open spec fn offer_latency_sensitive(sel: MergeSelection, tx: Transaction) -> MergeSelection {
    if sel.conflicts.conflicts_with(tx_conflicts(tx)) {
        sel
    } else {
        MergeSelection {
            conflicts: sel.conflicts.merge(tx_conflicts(tx)),
            txs: sel.txs.push(tx),
            profit: sel.profit + tx_profit(tx),
            extra: sel.extra.push(tx),
            ..sel
        }
    }
}

/// `sel` with the latency-sensitive bundle `b` added, if it does not
/// conflict with what was kept.
pub open spec fn offer_latency_sensitive_bundle(sel: MergeSelection, b: Bundle) -> MergeSelection {
    if sel.conflicts.conflicts_with(bundle_conflicts(b)) {
        sel
    } else {
        MergeSelection {
            conflicts: sel.conflicts.merge(bundle_conflicts(b)),
            txs: sel.txs + b.transactions@,
            profit: sel.profit + profit_of(b.transactions@),
            extra_bundles: sel.extra_bundles.push(b),
            ..sel
        }
    }
}

/// The first-fit pass over the latency-sensitive transactions, in order,
/// starting from nothing.
pub open spec fn select_latency_sensitive(txs: Seq<SignedTransaction>) -> MergeSelection
    decreases txs.len(),
{
    if txs.len() == 0 {
        empty_merge()
    } else {
        offer_latency_sensitive(select_latency_sensitive(txs.drop_last()), txs.last().tx)
    }
}

/// The first-fit pass over the latency-sensitive bundles, in order,
/// starting from `start`.
pub open spec fn select_latency_sensitive_bundles(start: MergeSelection, bundles: Seq<Bundle>) -> MergeSelection
    decreases bundles.len(),
{
    if bundles.len() == 0 {
        start
    } else {
        offer_latency_sensitive_bundle(
            select_latency_sensitive_bundles(start, bundles.drop_last()),
            bundles.last(),
        )
    }
}

/// The first-fit pass over the partial blocks, in the given order,
/// starting from `start`.
pub open spec fn merge_partials(start: MergeSelection, ordered: Seq<PartialBlock>) -> MergeSelection
    decreases ordered.len(),
{
    if ordered.len() == 0 {
        start
    } else {
        offer_partial(merge_partials(start, ordered.drop_last()), ordered.last())
    }
}

/// What the final block holds, given the partial blocks in the order they
/// are considered and the latency-sensitive orderflow: the
/// latency-sensitive transactions have priority and are taken first, then
/// the latency-sensitive bundles, then the partial blocks, each first-fit.
pub open spec fn block_selection(
    ordered: Seq<PartialBlock>,
    ls_txs: Seq<SignedTransaction>,
    ls_bundles: Seq<Bundle>,
) -> MergeSelection {
    merge_partials(
        select_latency_sensitive_bundles(select_latency_sensitive(ls_txs), ls_bundles),
        ordered,
    )
}

/// The block a merger submits.
pub struct FinalBlock {
    pub transactions: Vec<Transaction>,
    pub total_profit: u128,
}

/// `r` is what assembling `sel` gives: the block, when its profit total
/// fits a `u128`, and an overflow error otherwise.
pub open spec fn block_outcome(sel: MergeSelection, r: Result<FinalBlock, BlockError>) -> bool {
    match r {
        Ok(b) => sel.profit <= u128::MAX && b.transactions@ == sel.txs && b.total_profit
            == sel.profit,
        Err(_) => sel.profit > u128::MAX,
    }
}

proof fn lemma_merge_partials_grows(start: MergeSelection, ordered: Seq<PartialBlock>)
    ensures
        start.profit <= merge_partials(start, ordered).profit,
    decreases ordered.len(),
{
    if ordered.len() > 0 {
        lemma_merge_partials_grows(start, ordered.drop_last());
    }
}

proof fn lemma_merge_partials_prefix(start: MergeSelection, ordered: Seq<PartialBlock>, i: int)
    requires
        0 <= i <= ordered.len(),
    ensures
        merge_partials(start, ordered.take(i)).profit <= merge_partials(start, ordered).profit,
    decreases ordered.len(),
{
    if i < ordered.len() {
        assert(ordered.drop_last().take(i) =~= ordered.take(i));
        lemma_merge_partials_prefix(start, ordered.drop_last(), i);
    } else {
        assert(ordered.take(i) =~= ordered);
    }
}

proof fn lemma_latency_sensitive_prefix(txs: Seq<SignedTransaction>, i: int)
    requires
        0 <= i <= txs.len(),
    ensures
        select_latency_sensitive(txs.take(i)).profit <= select_latency_sensitive(txs).profit,
    decreases txs.len(),
{
    if i < txs.len() {
        assert(txs.drop_last().take(i) =~= txs.take(i));
        lemma_latency_sensitive_prefix(txs.drop_last(), i);
        let t = txs.last().tx;
        assert(t.gas_price * t.gas_limit >= 0) by (nonlinear_arith);
    } else {
        assert(txs.take(i) =~= txs);
    }
}

proof fn lemma_latency_sensitive_bundles_grows(start: MergeSelection, bundles: Seq<Bundle>)
    ensures
        start.profit <= select_latency_sensitive_bundles(start, bundles).profit,
    decreases bundles.len(),
{
    if bundles.len() > 0 {
        lemma_latency_sensitive_bundles_grows(start, bundles.drop_last());
        lemma_gas_profit_nonneg(bundles.last().transactions@);
    }
}

proof fn lemma_latency_sensitive_bundles_prefix(start: MergeSelection, bundles: Seq<Bundle>, i: int)
    requires
        0 <= i <= bundles.len(),
    ensures
        select_latency_sensitive_bundles(start, bundles.take(i)).profit
            <= select_latency_sensitive_bundles(start, bundles).profit,
    decreases bundles.len(),
{
    if i < bundles.len() {
        assert(bundles.drop_last().take(i) =~= bundles.take(i));
        lemma_latency_sensitive_bundles_prefix(start, bundles.drop_last(), i);
        lemma_gas_profit_nonneg(bundles.last().transactions@);
    } else {
        assert(bundles.take(i) =~= bundles);
    }
}

/// Adds the profits of a bundle's transactions to `profit`, one at a time.
fn add_bundle_profit(bundle: &Bundle, profit: u128) -> (r: Result<u128, BlockError>)
    ensures
        match r {
            Ok(p) => p == profit + profit_of(bundle.transactions@),
            Err(_) => profit + profit_of(bundle.transactions@) > u128::MAX,
        },
{
    let txs = &bundle.transactions;
    let mut p = profit;
    let mut j: usize = 0;
    while j < txs.len()
        invariant
            0 <= j <= txs@.len(),
            txs@ == bundle.transactions@,
            p == profit + profit_of(txs@.take(j as int)),
        decreases txs@.len() - j,
    {
        let t = &txs[j];
        proof {
            assert(txs@.take(j + 1).drop_last() =~= txs@.take(j as int));
            lemma_gas_profit_prefix(txs@, j + 1);
            lemma_gas_profit_nonneg(txs@.take(j + 1));
        }
        let limit = t.gas_limit as u128;
        match t.gas_price.checked_mul(limit) {
            Some(q) => {
                match p.checked_add(q) {
                    Some(p2) => {
                        p = p2;
                    },
                    None => {
                        return Err(BlockError::ArithmeticOverflow);
                    },
                }
            },
            None => {
                proof {
                    assert(p + t.gas_price * t.gas_limit > u128::MAX) by (nonlinear_arith)
                        requires
                            t.gas_price * limit > u128::MAX,
                            p >= 0,
                            limit == t.gas_limit,
                    ;
                }
                return Err(BlockError::ArithmeticOverflow);
            },
        }
        j = j + 1;
    }
    assert(txs@.take(j as int) =~= txs@);
    Ok(p)
}

/// Appends the transactions of the bundles, bundle after bundle.
fn append_bundle_txs(out: &mut Vec<Transaction>, bundles: Vec<Bundle>)
    ensures
        final(out)@ == old(out)@ + txs_of_bundles(bundles@),
{
    let ghost all = bundles@;
    let ghost start = out@;
    let mut rest = bundles;
    let ghost mut i: int = 0;
    while rest.len() > 0
        invariant
            0 <= i <= all.len(),
            rest@ == all.skip(i),
            out@ == start + txs_of_bundles(all.take(i)),
        decreases rest@.len(),
    {
        let b = rest.remove(0);
        proof {
            assert(all[i] == b);
            assert(all.take(i + 1).drop_last() =~= all.take(i));
            assert(all.take(i + 1).last() == b);
        }
        let mut txs = b.transactions;
        out.append(&mut txs);
        proof {
            assert(out@ =~= start + txs_of_bundles(all.take(i + 1)));
            i = i + 1;
            assert(rest@ =~= all.skip(i));
        }
    }
    assert(all.take(i) =~= all);
}

/// Builds a block from the latency-sensitive orderflow and the partial
/// blocks in the order given: first each latency-sensitive transaction
/// that does not conflict with those kept before it, then each
/// latency-sensitive bundle that does not conflict with what was kept,
/// then each partial block whose conflict set does not conflict with what
/// was kept, submitted whole with its bundles.  Fails exactly when the
/// profit total does not fit a `u128`.
pub fn merge_ordered(
    ordered: Vec<PartialBlock>,
    ls_txs: Vec<SignedTransaction>,
    ls_bundles: Vec<Bundle>,
) -> (r: Result<FinalBlock, BlockError>)
    ensures
        block_outcome(block_selection(ordered@, ls_txs@, ls_bundles@), r),
{
    let ghost all = ordered@;
    let ghost all_ls = ls_txs@;
    let ghost all_lb = ls_bundles@;
    let mut conflicts = ConflictSet::new();
    let mut final_txs: Vec<Transaction> = Vec::new();
    let mut total_profit: u128 = 0;
    let mut rest_ls = ls_txs;
    let ghost mut k: int = 0;
    while rest_ls.len() > 0
        invariant
            0 <= k <= all_ls.len(),
            all == ordered@,
            all_ls == ls_txs@,
            all_lb == ls_bundles@,
            rest_ls@ == all_ls.skip(k),
            ({
                let sel = select_latency_sensitive(all_ls.take(k));
                &&& conflicts@ == sel.conflicts
                &&& final_txs@ == sel.txs
                &&& total_profit == sel.profit
            }),
        decreases rest_ls@.len(),
    {
        let stx = rest_ls.remove(0);
        let tx = stx.tx;
        proof {
            assert(all_ls[k] == stx);
            assert(all_ls.take(k + 1).drop_last() =~= all_ls.take(k));
            assert(all_ls.take(k + 1).last() == stx);
            lemma_latency_sensitive_prefix(all_ls, k + 1);
            let s1 = select_latency_sensitive(all_ls);
            lemma_latency_sensitive_bundles_grows(s1, all_lb);
            lemma_merge_partials_grows(select_latency_sensitive_bundles(s1, all_lb), all);
        }
        let tx_set = ConflictSet::for_transaction(&tx);
        if !conflicts.conflicts_with(&tx_set) {
            conflicts.merge(&tx_set);
            let limit = tx.gas_limit as u128;
            match tx.gas_price.checked_mul(limit) {
                Some(q) => {
                    match total_profit.checked_add(q) {
                        Some(p) => {
                            total_profit = p;
                        },
                        None => {
                            return Err(BlockError::ArithmeticOverflow);
                        },
                    }
                },
                None => {
                    proof {
                        assert(total_profit + tx.gas_price * tx.gas_limit > u128::MAX)
                            by (nonlinear_arith)
                            requires
                                tx.gas_price * limit > u128::MAX,
                                total_profit >= 0,
                                limit == tx.gas_limit,
                        ;
                    }
                    return Err(BlockError::ArithmeticOverflow);
                },
            }
            final_txs.push(tx);
        }
        proof {
            k = k + 1;
            assert(rest_ls@ =~= all_ls.skip(k));
        }
    }
    proof {
        assert(all_ls.take(k) =~= all_ls);
    }
    let ghost s1 = select_latency_sensitive(all_ls);
    let mut rest_lb = ls_bundles;
    let ghost mut m: int = 0;
    while rest_lb.len() > 0
        invariant
            0 <= m <= all_lb.len(),
            all == ordered@,
            all_ls == ls_txs@,
            all_lb == ls_bundles@,
            s1 == select_latency_sensitive(all_ls),
            rest_lb@ == all_lb.skip(m),
            ({
                let sel = select_latency_sensitive_bundles(s1, all_lb.take(m));
                &&& conflicts@ == sel.conflicts
                &&& final_txs@ == sel.txs
                &&& total_profit == sel.profit
            }),
        decreases rest_lb@.len(),
    {
        let bundle = rest_lb.remove(0);
        proof {
            assert(all_lb[m] == bundle);
            assert(all_lb.take(m + 1).drop_last() =~= all_lb.take(m));
            assert(all_lb.take(m + 1).last() == bundle);
            lemma_latency_sensitive_bundles_prefix(s1, all_lb, m + 1);
            lemma_merge_partials_grows(select_latency_sensitive_bundles(s1, all_lb), all);
        }
        let bundle_set = ConflictSet::for_bundle(&bundle);
        if !conflicts.conflicts_with(&bundle_set) {
            conflicts.merge(&bundle_set);
            match add_bundle_profit(&bundle, total_profit) {
                Ok(p) => {
                    total_profit = p;
                },
                Err(e) => {
                    return Err(e);
                },
            }
            let mut btxs = bundle.transactions;
            final_txs.append(&mut btxs);
        }
        proof {
            m = m + 1;
            assert(rest_lb@ =~= all_lb.skip(m));
        }
    }
    proof {
        assert(all_lb.take(m) =~= all_lb);
    }
    let ghost start = select_latency_sensitive_bundles(s1, all_lb);
    let mut rest = ordered;
    let ghost mut i: int = 0;
    while rest.len() > 0
        invariant
            0 <= i <= all.len(),
            all == ordered@,
            all_ls == ls_txs@,
            all_lb == ls_bundles@,
            start == select_latency_sensitive_bundles(select_latency_sensitive(all_ls), all_lb),
            rest@ == all.skip(i),
            ({
                let sel = merge_partials(start, all.take(i));
                &&& conflicts@ == sel.conflicts
                &&& final_txs@ == sel.txs
                &&& total_profit == sel.profit
            }),
        decreases rest@.len(),
    {
        let partial = rest.remove(0);
        proof {
            assert(all[i] == partial);
            assert(all.take(i + 1).drop_last() =~= all.take(i));
            assert(all.take(i + 1).last() == partial);
            lemma_merge_partials_prefix(start, all, i + 1);
        }
        let ghost whole = partial;
        let PartialBlock { transactions, bundles, estimated_profit, conflicts: part_conflicts, .. } =
            partial;
        if !conflicts.conflicts_with(&part_conflicts) {
            conflicts.merge(&part_conflicts);
            let mut part_txs = transactions;
            final_txs.append(&mut part_txs);
            append_bundle_txs(&mut final_txs, bundles);
            assert(final_txs@ =~= merge_partials(start, all.take(i)).txs + block_txs(whole));
            match total_profit.checked_add(estimated_profit) {
                Some(p) => {
                    total_profit = p;
                },
                None => {
                    return Err(BlockError::ArithmeticOverflow);
                },
            }
        }
        proof {
            i = i + 1;
            assert(rest@ =~= all.skip(i));
        }
    }
    proof {
        assert(all.take(i) =~= all);
    }
    Ok(FinalBlock { transactions: final_txs, total_profit })
}

/// The block a merger builds: the latency-sensitive transactions are taken
/// first, then the latency-sensitive bundles, each first-fit; then the
/// partial blocks, put in profit-density order (see
/// `order_by_profit_density`), are merged first-fit, each with its bundles.
/// Fails exactly when the profit total does not fit a `u128`.
pub fn assemble_block(
    partials: Vec<PartialBlock>,
    ls_txs: Vec<SignedTransaction>,
    ls_bundles: Vec<Bundle>,
) -> (r: Result<FinalBlock, BlockError>)
    ensures
        exists|ordered: Seq<PartialBlock>|
            is_density_order(partials@, ordered) && block_outcome(
                #[trigger] block_selection(ordered, ls_txs@, ls_bundles@),
                r,
            ),
{
    let ordered = order_by_profit_density(partials);
    let r = merge_ordered(ordered, ls_txs, ls_bundles);
    assert(is_density_order(partials@, ordered@) && block_outcome(
        block_selection(ordered@, ls_txs@, ls_bundles@),
        r,
    ));
    r
}

/// What the given partial blocks submit, block after block.
pub open spec fn txs_of_blocks(blocks: Seq<PartialBlock>) -> Seq<Transaction>
    decreases blocks.len(),
{
    if blocks.len() == 0 {
        Seq::empty()
    } else {
        txs_of_blocks(blocks.drop_last()) + block_txs(blocks.last())
    }
}

/// The conflict sets of what a merge kept: those of the kept
/// latency-sensitive transactions, then of the kept latency-sensitive
/// bundles, then the kept partial blocks' sets, each group in order.
pub open spec fn merge_parts(sel: MergeSelection) -> Seq<ConflictView> {
    sel.extra.map_values(|t: Transaction| tx_conflicts(t)) + sel.extra_bundles.map_values(
        |b: Bundle| bundle_conflicts(b),
    ) + sel.blocks.map_values(|p: PartialBlock| p.conflicts@)
}

pub open spec fn merge_consistent(sel: MergeSelection) -> bool {
    &&& pairwise_compatible(merge_parts(sel))
    &&& sel.conflicts == merge_all(merge_parts(sel))
    &&& sel.txs == sel.extra + txs_of_bundles(sel.extra_bundles) + txs_of_blocks(sel.blocks)
}

proof fn lemma_select_latency_sensitive_consistent(txs: Seq<SignedTransaction>)
    ensures
        merge_consistent(select_latency_sensitive(txs)),
        select_latency_sensitive(txs).blocks == Seq::<PartialBlock>::empty(),
        select_latency_sensitive(txs).extra_bundles == Seq::<Bundle>::empty(),
    decreases txs.len(),
{
    if txs.len() == 0 {
        assert(merge_parts(empty_merge()) =~= Seq::<ConflictView>::empty());
        assert(empty_merge().txs =~= Seq::<Transaction>::empty() + txs_of_bundles(Seq::empty())
            + txs_of_blocks(Seq::empty()));
    } else {
        let prev = select_latency_sensitive(txs.drop_last());
        lemma_select_latency_sensitive_consistent(txs.drop_last());
        let t = txs.last().tx;
        if !prev.conflicts.conflicts_with(tx_conflicts(t)) {
            let next = offer_latency_sensitive(prev, t);
            assert(merge_parts(next) =~= merge_parts(prev).push(tx_conflicts(t)));
            lemma_parts_push(merge_parts(prev), tx_conflicts(t));
            assert(next.txs =~= next.extra + txs_of_bundles(next.extra_bundles) + txs_of_blocks(
                next.blocks,
            ));
        }
    }
}

proof fn lemma_select_latency_sensitive_bundles_consistent(start: MergeSelection, bundles: Seq<Bundle>)
    requires
        merge_consistent(start),
        start.blocks == Seq::<PartialBlock>::empty(),
    ensures
        merge_consistent(select_latency_sensitive_bundles(start, bundles)),
        select_latency_sensitive_bundles(start, bundles).blocks == Seq::<PartialBlock>::empty(),
        select_latency_sensitive_bundles(start, bundles).extra == start.extra,
    decreases bundles.len(),
{
    if bundles.len() > 0 {
        let prev = select_latency_sensitive_bundles(start, bundles.drop_last());
        lemma_select_latency_sensitive_bundles_consistent(start, bundles.drop_last());
        let b = bundles.last();
        if !prev.conflicts.conflicts_with(bundle_conflicts(b)) {
            let next = offer_latency_sensitive_bundle(prev, b);
            assert(merge_parts(next) =~= merge_parts(prev).push(bundle_conflicts(b)));
            lemma_parts_push(merge_parts(prev), bundle_conflicts(b));
            assert(next.extra_bundles.drop_last() =~= prev.extra_bundles);
            assert(next.txs =~= next.extra + txs_of_bundles(next.extra_bundles) + txs_of_blocks(
                next.blocks,
            ));
        }
    }
}

proof fn lemma_merge_partials_consistent(start: MergeSelection, ordered: Seq<PartialBlock>)
    requires
        merge_consistent(start),
    ensures
        merge_consistent(merge_partials(start, ordered)),
        merge_partials(start, ordered).extra == start.extra,
        merge_partials(start, ordered).extra_bundles == start.extra_bundles,
    decreases ordered.len(),
{
    if ordered.len() > 0 {
        let prev = merge_partials(start, ordered.drop_last());
        lemma_merge_partials_consistent(start, ordered.drop_last());
        let p = ordered.last();
        if !prev.conflicts.conflicts_with(p.conflicts@) {
            let next = offer_partial(prev, p);
            assert(merge_parts(next) =~= merge_parts(prev).push(p.conflicts@));
            lemma_parts_push(merge_parts(prev), p.conflicts@);
            assert(next.blocks.drop_last() =~= prev.blocks);
            assert(next.txs =~= next.extra + txs_of_bundles(next.extra_bundles) + txs_of_blocks(
                next.blocks,
            ));
        }
    }
}

/// The final block is conflict-free: of the latency-sensitive
/// transactions, latency-sensitive bundles and partial blocks it keeps
/// (in that order, each group in the order considered), none conflicts
/// with one kept after it.  Its transactions are the kept latency-sensitive
/// transactions, then the transactions of the kept latency-sensitive
/// bundles, then everything the kept partial blocks hold, bundles included.
pub proof fn lemma_final_block_conflict_free(
    ordered: Seq<PartialBlock>,
    ls_txs: Seq<SignedTransaction>,
    ls_bundles: Seq<Bundle>,
)
    ensures
        pairwise_compatible(merge_parts(block_selection(ordered, ls_txs, ls_bundles))),
        block_selection(ordered, ls_txs, ls_bundles).conflicts == merge_all(
            merge_parts(block_selection(ordered, ls_txs, ls_bundles)),
        ),
        block_selection(ordered, ls_txs, ls_bundles).txs == block_selection(
            ordered,
            ls_txs,
            ls_bundles,
        ).extra + txs_of_bundles(block_selection(ordered, ls_txs, ls_bundles).extra_bundles)
            + txs_of_blocks(block_selection(ordered, ls_txs, ls_bundles).blocks),
{
    lemma_select_latency_sensitive_consistent(ls_txs);
    lemma_select_latency_sensitive_bundles_consistent(select_latency_sensitive(ls_txs), ls_bundles);
    lemma_merge_partials_consistent(
        select_latency_sensitive_bundles(select_latency_sensitive(ls_txs), ls_bundles),
        ordered,
    );
}

proof fn lemma_latency_sensitive_keeps_prefix(txs: Seq<SignedTransaction>, i: int)
    requires
        0 <= i <= txs.len(),
    ensures
        select_latency_sensitive(txs.take(i)).extra.is_prefix_of(select_latency_sensitive(txs).extra),
    decreases txs.len(),
{
    let pre = select_latency_sensitive(txs.take(i));
    let fin = select_latency_sensitive(txs);
    if i < txs.len() {
        assert(txs.drop_last().take(i) =~= txs.take(i));
        lemma_latency_sensitive_keeps_prefix(txs.drop_last(), i);
        let mid = select_latency_sensitive(txs.drop_last());
        assert(fin.extra.subrange(0, pre.extra.len() as int) =~= mid.extra.subrange(
            0,
            pre.extra.len() as int,
        ));
    } else {
        assert(txs.take(i) =~= txs);
        assert(fin.extra.subrange(0, fin.extra.len() as int) =~= fin.extra);
    }
}

proof fn lemma_latency_sensitive_bundles_keeps_prefix(
    start: MergeSelection,
    bundles: Seq<Bundle>,
    j: int,
)
    requires
        0 <= j <= bundles.len(),
    ensures
        select_latency_sensitive_bundles(start, bundles.take(j)).extra
            == select_latency_sensitive_bundles(start, bundles).extra,
        select_latency_sensitive_bundles(start, bundles.take(j)).blocks
            == select_latency_sensitive_bundles(start, bundles).blocks,
        select_latency_sensitive_bundles(start, bundles.take(j)).extra_bundles.is_prefix_of(
            select_latency_sensitive_bundles(start, bundles).extra_bundles,
        ),
    decreases bundles.len(),
{
    let pre = select_latency_sensitive_bundles(start, bundles.take(j));
    let fin = select_latency_sensitive_bundles(start, bundles);
    if j < bundles.len() {
        assert(bundles.drop_last().take(j) =~= bundles.take(j));
        lemma_latency_sensitive_bundles_keeps_prefix(start, bundles.drop_last(), j);
        let mid = select_latency_sensitive_bundles(start, bundles.drop_last());
        let n = pre.extra_bundles.len() as int;
        assert(fin.extra_bundles.subrange(0, n) =~= mid.extra_bundles.subrange(0, n));
    } else {
        assert(bundles.take(j) =~= bundles);
        assert(fin.extra_bundles.subrange(0, fin.extra_bundles.len() as int) =~= fin.extra_bundles);
    }
}

proof fn lemma_merge_partials_keeps_prefix(start: MergeSelection, ordered: Seq<PartialBlock>, j: int)
    requires
        0 <= j <= ordered.len(),
    ensures
        merge_partials(start, ordered.take(j)).extra == merge_partials(start, ordered).extra,
        merge_partials(start, ordered.take(j)).extra_bundles == merge_partials(
            start,
            ordered,
        ).extra_bundles,
        merge_partials(start, ordered.take(j)).blocks.is_prefix_of(
            merge_partials(start, ordered).blocks,
        ),
    decreases ordered.len(),
{
    let pre = merge_partials(start, ordered.take(j));
    let fin = merge_partials(start, ordered);
    if j < ordered.len() {
        assert(ordered.drop_last().take(j) =~= ordered.take(j));
        lemma_merge_partials_keeps_prefix(start, ordered.drop_last(), j);
        let mid = merge_partials(start, ordered.drop_last());
        let n = pre.blocks.len() as int;
        assert(fin.blocks.subrange(0, n) =~= mid.blocks.subrange(0, n));
    } else {
        assert(ordered.take(j) =~= ordered);
        assert(fin.blocks.subrange(0, fin.blocks.len() as int) =~= fin.blocks);
    }
}

/// When one merge kept a first part of what another kept, group by group,
/// its conflict sets are a first part of the other's.
proof fn lemma_merge_parts_prefix(a: MergeSelection, b: MergeSelection)
    requires
        a.extra.is_prefix_of(b.extra),
        a.extra_bundles.is_prefix_of(b.extra_bundles),
        a.blocks.is_prefix_of(b.blocks),
        a.extra.len() < b.extra.len() ==> a.extra_bundles.len() == 0 && a.blocks.len() == 0,
        a.extra_bundles.len() < b.extra_bundles.len() ==> a.blocks.len() == 0,
    ensures
        merge_parts(a).is_prefix_of(merge_parts(b)),
{
    let pa = merge_parts(a);
    let pb = merge_parts(b);
    let ea = a.extra.len() as int;
    let ba = a.extra_bundles.len() as int;
    let eb = b.extra.len() as int;
    let bb = b.extra_bundles.len() as int;
    assert forall|p: int| 0 <= p < pa.len() implies pa[p] == pb[p] by {
        if p < ea {
            assert(a.extra[p] == b.extra[p]);
        } else if p < ea + ba {
            assert(a.extra_bundles[p - ea] == b.extra_bundles[p - eb]);
        } else {
            assert(a.blocks[p - ea - ba] == b.blocks[p - eb - bb]);
        }
    }
    assert(pa =~= pb.subrange(0, pa.len() as int));
}

/// A conflict with the merge of a first part of some parts is a conflict
/// with one of the parts.
proof fn lemma_conflict_in_prefix(pre: Seq<ConflictView>, parts: Seq<ConflictView>, c: ConflictView)
    requires
        pre.is_prefix_of(parts),
        merge_all(pre).conflicts_with(c),
    ensures
        exists|p: int| 0 <= p < parts.len() && (#[trigger] parts[p]).conflicts_with(c),
{
    lemma_merge_all_conflicts_iff(pre, c);
    let p = choose|p: int| 0 <= p < pre.len() && (#[trigger] pre[p]).conflicts_with(c);
    assert(pre[p] == parts.subrange(0, pre.len() as int)[p]);
    assert(parts[p].conflicts_with(c));
}

/// The latency-sensitive pass of a merger is first-fit: each
/// latency-sensitive transaction is in the final block unless it conflicts
/// with the latency-sensitive transactions kept before it, and then one of
/// the block's latency-sensitive transactions conflicts with it.
pub proof fn lemma_final_block_first_fit_latency_sensitive(
    ordered: Seq<PartialBlock>,
    ls_txs: Seq<SignedTransaction>,
    ls_bundles: Seq<Bundle>,
    i: int,
)
    requires
        0 <= i < ls_txs.len(),
    ensures
        (block_selection(ordered, ls_txs, ls_bundles).extra.contains(ls_txs[i].tx) && block_selection(
            ordered,
            ls_txs,
            ls_bundles,
        ).txs.contains(ls_txs[i].tx)) || select_latency_sensitive(
            ls_txs.take(i),
        ).conflicts.conflicts_with(tx_conflicts(ls_txs[i].tx)),
        block_selection(ordered, ls_txs, ls_bundles).extra.contains(ls_txs[i].tx) || exists|k: int|
            0 <= k < block_selection(ordered, ls_txs, ls_bundles).extra.len() && tx_conflicts(
                #[trigger] block_selection(ordered, ls_txs, ls_bundles).extra[k],
            ).conflicts_with(tx_conflicts(ls_txs[i].tx)),
{
    let t = ls_txs[i].tx;
    let c = tx_conflicts(t);
    let ls = select_latency_sensitive(ls_txs);
    let mid = select_latency_sensitive_bundles(ls, ls_bundles);
    let sel = block_selection(ordered, ls_txs, ls_bundles);
    let pre = select_latency_sensitive(ls_txs.take(i));
    lemma_final_block_conflict_free(ordered, ls_txs, ls_bundles);
    lemma_select_latency_sensitive_consistent(ls_txs);
    lemma_select_latency_sensitive_bundles_consistent(ls, ls_bundles);
    lemma_merge_partials_consistent(mid, ordered);
    assert(sel.extra == ls.extra);
    assert(ls_txs.take(i + 1).drop_last() =~= ls_txs.take(i));
    assert(ls_txs.take(i + 1).last() == ls_txs[i]);
    lemma_latency_sensitive_keeps_prefix(ls_txs, i);
    lemma_latency_sensitive_keeps_prefix(ls_txs, i + 1);
    if !pre.conflicts.conflicts_with(c) {
        let post = select_latency_sensitive(ls_txs.take(i + 1));
        let n = pre.extra.len() as int;
        assert(post.extra[n] == t);
        assert(post.extra[n] == ls.extra.subrange(0, post.extra.len() as int)[n]);
        assert(sel.extra[n] == t);
        assert(sel.txs[n] == t);
    } else {
        lemma_select_latency_sensitive_consistent(ls_txs.take(i));
        let parts = merge_parts(pre);
        lemma_merge_all_conflicts_iff(parts, c);
        let p = choose|p: int| 0 <= p < parts.len() && (#[trigger] parts[p]).conflicts_with(c);
        assert(parts[p] == tx_conflicts(pre.extra[p]));
        assert(pre.extra[p] == ls.extra.subrange(0, pre.extra.len() as int)[p]);
        assert(sel.extra[p] == pre.extra[p]);
    }
}

/// The latency-sensitive bundle pass of a merger is first-fit: each
/// latency-sensitive bundle is in the final block unless it conflicts with
/// what was kept before it, and then something the block keeps conflicts
/// with it.
pub proof fn lemma_final_block_first_fit_latency_sensitive_bundles(
    ordered: Seq<PartialBlock>,
    ls_txs: Seq<SignedTransaction>,
    ls_bundles: Seq<Bundle>,
    j: int,
)
    requires
        0 <= j < ls_bundles.len(),
    ensures
        block_selection(ordered, ls_txs, ls_bundles).extra_bundles.contains(ls_bundles[j])
            || select_latency_sensitive_bundles(
            select_latency_sensitive(ls_txs),
            ls_bundles.take(j),
        ).conflicts.conflicts_with(bundle_conflicts(ls_bundles[j])),
        block_selection(ordered, ls_txs, ls_bundles).extra_bundles.contains(ls_bundles[j])
            || exists|p: int|
            0 <= p < merge_parts(block_selection(ordered, ls_txs, ls_bundles)).len() && (
            #[trigger] merge_parts(block_selection(ordered, ls_txs, ls_bundles))[p]).conflicts_with(
                bundle_conflicts(ls_bundles[j]),
            ),
{
    let b = ls_bundles[j];
    let c = bundle_conflicts(b);
    let ls = select_latency_sensitive(ls_txs);
    let mid = select_latency_sensitive_bundles(ls, ls_bundles);
    let sel = block_selection(ordered, ls_txs, ls_bundles);
    let pre = select_latency_sensitive_bundles(ls, ls_bundles.take(j));
    lemma_select_latency_sensitive_consistent(ls_txs);
    lemma_select_latency_sensitive_bundles_consistent(ls, ls_bundles);
    lemma_select_latency_sensitive_bundles_consistent(ls, ls_bundles.take(j));
    lemma_merge_partials_consistent(mid, ordered);
    lemma_merge_partials_keeps_prefix(mid, ordered, 0);
    assert(ordered.take(0) =~= Seq::<PartialBlock>::empty());
    assert(sel.extra_bundles == mid.extra_bundles);
    assert(ls_bundles.take(j + 1).drop_last() =~= ls_bundles.take(j));
    assert(ls_bundles.take(j + 1).last() == b);
    lemma_latency_sensitive_bundles_keeps_prefix(ls, ls_bundles, j);
    lemma_latency_sensitive_bundles_keeps_prefix(ls, ls_bundles, j + 1);
    if !pre.conflicts.conflicts_with(c) {
        let post = select_latency_sensitive_bundles(ls, ls_bundles.take(j + 1));
        let n = pre.extra_bundles.len() as int;
        assert(post.extra_bundles[n] == b);
        assert(post.extra_bundles[n] == mid.extra_bundles.subrange(
            0,
            post.extra_bundles.len() as int,
        )[n]);
        assert(sel.extra_bundles[n] == b);
    } else {
        assert(pre.extra.is_prefix_of(sel.extra));
        assert(pre.blocks.is_prefix_of(sel.blocks));
        lemma_merge_parts_prefix(pre, sel);
        lemma_conflict_in_prefix(merge_parts(pre), merge_parts(sel), c);
    }
}

/// The partial-block pass of a merger is first-fit: each partial block,
/// in the order considered, is in the final block unless it conflicts with
/// what was kept before it, and then something the block keeps conflicts
/// with it.
pub proof fn lemma_final_block_first_fit_partials(
    ordered: Seq<PartialBlock>,
    ls_txs: Seq<SignedTransaction>,
    ls_bundles: Seq<Bundle>,
    j: int,
)
    requires
        0 <= j < ordered.len(),
    ensures
        block_selection(ordered, ls_txs, ls_bundles).blocks.contains(ordered[j]) || merge_partials(
            select_latency_sensitive_bundles(select_latency_sensitive(ls_txs), ls_bundles),
            ordered.take(j),
        ).conflicts.conflicts_with(ordered[j].conflicts@),
        block_selection(ordered, ls_txs, ls_bundles).blocks.contains(ordered[j]) || exists|p: int|
            0 <= p < merge_parts(block_selection(ordered, ls_txs, ls_bundles)).len() && (
            #[trigger] merge_parts(block_selection(ordered, ls_txs, ls_bundles))[p]).conflicts_with(
                ordered[j].conflicts@,
            ),
{
    let blk = ordered[j];
    let c = blk.conflicts@;
    let ls = select_latency_sensitive(ls_txs);
    let mid = select_latency_sensitive_bundles(ls, ls_bundles);
    let sel = block_selection(ordered, ls_txs, ls_bundles);
    let pre = merge_partials(mid, ordered.take(j));
    lemma_select_latency_sensitive_consistent(ls_txs);
    lemma_select_latency_sensitive_bundles_consistent(ls, ls_bundles);
    lemma_merge_partials_consistent(mid, ordered.take(j));
    assert(ordered.take(j + 1).drop_last() =~= ordered.take(j));
    assert(ordered.take(j + 1).last() == blk);
    lemma_merge_partials_keeps_prefix(mid, ordered, j);
    lemma_merge_partials_keeps_prefix(mid, ordered, j + 1);
    if !pre.conflicts.conflicts_with(c) {
        let post = merge_partials(mid, ordered.take(j + 1));
        let n = pre.blocks.len() as int;
        assert(post.blocks[n] == blk);
        assert(post.blocks[n] == sel.blocks.subrange(0, post.blocks.len() as int)[n]);
        assert(sel.blocks[n] == blk);
    } else {
        assert(pre.extra =~= sel.extra.subrange(0, pre.extra.len() as int));
        assert(pre.extra_bundles =~= sel.extra_bundles.subrange(
            0,
            pre.extra_bundles.len() as int,
        ));
        lemma_merge_parts_prefix(pre, sel);
        lemma_conflict_in_prefix(merge_parts(pre), merge_parts(sel), c);
    }
}

/// The profit estimates of the given partial blocks, summed.
pub open spec fn estimated_profits(blocks: Seq<PartialBlock>) -> int
    decreases blocks.len(),
{
    if blocks.len() == 0 {
        0
    } else {
        estimated_profits(blocks.drop_last()) + blocks.last().estimated_profit
    }
}

pub open spec fn merge_totals_match(sel: MergeSelection) -> bool {
    sel.profit == profit_of(sel.extra) + profit_of(txs_of_bundles(sel.extra_bundles))
        + estimated_profits(sel.blocks)
}

proof fn lemma_merge_totals(
    ordered: Seq<PartialBlock>,
    ls_txs: Seq<SignedTransaction>,
    ls_bundles: Seq<Bundle>,
)
    ensures
        merge_totals_match(select_latency_sensitive(ls_txs)),
        merge_totals_match(select_latency_sensitive_bundles(select_latency_sensitive(ls_txs), ls_bundles)),
        merge_totals_match(block_selection(ordered, ls_txs, ls_bundles)),
    decreases ordered.len() + ls_bundles.len() + ls_txs.len(),
{
    let ls = select_latency_sensitive(ls_txs);
    let mid = select_latency_sensitive_bundles(ls, ls_bundles);
    if ordered.len() > 0 {
        lemma_merge_totals(ordered.drop_last(), ls_txs, ls_bundles);
        let prev = merge_partials(mid, ordered.drop_last());
        let p = ordered.last();
        if !prev.conflicts.conflicts_with(p.conflicts@) {
            assert(prev.blocks.push(p).drop_last() =~= prev.blocks);
        }
    } else if ls_bundles.len() > 0 {
        lemma_merge_totals(ordered, ls_txs, ls_bundles.drop_last());
        let prev = select_latency_sensitive_bundles(ls, ls_bundles.drop_last());
        let b = ls_bundles.last();
        lemma_select_latency_sensitive_consistent(ls_txs);
        lemma_select_latency_sensitive_bundles_consistent(ls, ls_bundles.drop_last());
        if !prev.conflicts.conflicts_with(bundle_conflicts(b)) {
            assert(prev.extra_bundles.push(b).drop_last() =~= prev.extra_bundles);
            lemma_gas_profit_concat(txs_of_bundles(prev.extra_bundles), b.transactions@);
        }
    } else if ls_txs.len() > 0 {
        lemma_merge_totals(ordered, ls_txs.drop_last(), ls_bundles);
        let prev = select_latency_sensitive(ls_txs.drop_last());
        let t = ls_txs.last().tx;
        lemma_select_latency_sensitive_consistent(ls_txs.drop_last());
        if !prev.conflicts.conflicts_with(tx_conflicts(t)) {
            assert(prev.extra.push(t).drop_last() =~= prev.extra);
        }
    } else {
        assert(txs_of_bundles(Seq::<Bundle>::empty()) =~= Seq::<Transaction>::empty());
    }
}

/// The profit of a final block is that of what it holds: the gas price
/// times gas limit of each kept latency-sensitive transaction and of each
/// transaction of a kept latency-sensitive bundle, plus the profit
/// estimate of each kept partial block.
pub proof fn lemma_final_block_profit(
    ordered: Seq<PartialBlock>,
    ls_txs: Seq<SignedTransaction>,
    ls_bundles: Seq<Bundle>,
)
    ensures
        block_selection(ordered, ls_txs, ls_bundles).profit == profit_of(
            block_selection(ordered, ls_txs, ls_bundles).extra,
        ) + profit_of(txs_of_bundles(block_selection(ordered, ls_txs, ls_bundles).extra_bundles))
            + estimated_profits(block_selection(ordered, ls_txs, ls_bundles).blocks),
{
    lemma_merge_totals(ordered, ls_txs, ls_bundles);
}

/// `r` is what a timer tick gives when there was something to build:
/// the block assembled from `sel`, or the overflow error.
pub open spec fn tick_outcome(sel: MergeSelection, r: Result<Option<FinalBlock>, BlockError>) -> bool {
    match r {
        Ok(Some(b)) => block_outcome(sel, Ok(b)),
        Ok(None) => false,
        Err(e) => block_outcome(sel, Err(e)),
    }
}

/// The state of a merging node: the partial blocks and latency-sensitive
/// orderflow received since the last block, the identifiers cancelled so
/// far, and the other mergers it knows.  As in `SimulationState`, the map
/// of mergers and the set of cancelled identifiers are held as vectors.
pub struct MergingState {
    id: NodeId,
    region: String,
    partial_blocks: Vec<PartialBlock>,
    latency_sensitive_txs: Vec<SignedTransaction>,
    latency_sensitive_bundles: Vec<Bundle>,
    cancelled: Vec<crate::types::Hash>,
    other_mergers: Vec<NodeInfo>,
}

impl MergingState {
    pub closed spec fn node_id(&self) -> NodeId {
        self.id
    }

    pub closed spec fn region(&self) -> Seq<char> {
        self.region@
    }

    pub closed spec fn partial_blocks(&self) -> Seq<PartialBlock> {
        self.partial_blocks@
    }

    pub closed spec fn latency_sensitive_txs(&self) -> Seq<SignedTransaction> {
        self.latency_sensitive_txs@
    }

    pub closed spec fn latency_sensitive_bundles(&self) -> Seq<Bundle> {
        self.latency_sensitive_bundles@
    }

    /// The identifiers of cancelled transactions and bundles.
    pub closed spec fn cancelled(&self) -> Set<Seq<u8>> {
        id_set(self.cancelled@)
    }

    /// The other mergers known, in the order they became known.
    pub closed spec fn other_mergers(&self) -> Seq<NodeInfo> {
        self.other_mergers@
    }

    /// A merger as deployed with `config`, with nothing received yet.
    pub fn new(config: NodeConfig) -> (s: Self)
        ensures
            s.node_id() == config.id,
            s.region() == config.region@,
            s.partial_blocks() == Seq::<PartialBlock>::empty(),
            s.latency_sensitive_txs() == Seq::<SignedTransaction>::empty(),
            s.latency_sensitive_bundles() == Seq::<Bundle>::empty(),
            s.cancelled() == Set::<Seq<u8>>::empty(),
            s.other_mergers() == Seq::<NodeInfo>::empty(),
            distinct_merger_ids(s.other_mergers()),
    {
        let s = MergingState {
            id: config.id,
            region: config.region,
            partial_blocks: Vec::new(),
            latency_sensitive_txs: Vec::new(),
            latency_sensitive_bundles: Vec::new(),
            cancelled: Vec::new(),
            other_mergers: Vec::new(),
        };
        assert(s.cancelled() =~= Set::<Seq<u8>>::empty());
        s
    }

    /// The announcement the node broadcasts when it starts.
    pub fn announcement(&self) -> (info: NodeInfo)
        ensures
            info.id == self.node_id(),
            info.role == NodeRole::Merging,
            info.region@ == self.region(),
    {
        NodeInfo { id: self.id, role: NodeRole::Merging, region: self.region.clone() }
    }

    /// Reacts to a message: partial blocks are kept; transactions and
    /// bundles are kept only when latency-sensitive and not cancelled;
    /// cancellations are recorded and drop the latency-sensitive orderflow
    /// they name; announcements of other mergers are recorded.  A merger
    /// sends nothing in reply.
    pub fn on_message(&mut self, msg: Message)
        ensures
            distinct_merger_ids(old(self).other_mergers()) ==> distinct_merger_ids(
                final(self).other_mergers(),
            ),
            final(self).node_id() == old(self).node_id(),
            final(self).region() == old(self).region(),
            final(self).partial_blocks() == (match msg {
                Message::PartialBlock(p) => old(self).partial_blocks().push(p),
                _ => old(self).partial_blocks(),
            }),
            final(self).latency_sensitive_txs() == (match msg {
                Message::Transaction(tx) => if tx.is_latency_sensitive && !old(
                    self,
                ).cancelled().contains(spec_tx_hash(tx.tx)) {
                    old(self).latency_sensitive_txs().push(tx)
                } else {
                    old(self).latency_sensitive_txs()
                },
                Message::Cancellation(c) => match c.tx_hash {
                    Some(h) => without_tx(old(self).latency_sensitive_txs(), h@),
                    None => old(self).latency_sensitive_txs(),
                },
                _ => old(self).latency_sensitive_txs(),
            }),
            final(self).latency_sensitive_bundles() == (match msg {
                Message::Bundle(b) => if b.is_latency_sensitive && !old(self).cancelled().contains(
                    b.id@,
                ) {
                    old(self).latency_sensitive_bundles().push(b)
                } else {
                    old(self).latency_sensitive_bundles()
                },
                Message::Cancellation(c) => match c.bundle_id {
                    Some(b) => without_bundle(old(self).latency_sensitive_bundles(), b@),
                    None => old(self).latency_sensitive_bundles(),
                },
                _ => old(self).latency_sensitive_bundles(),
            }),
            final(self).cancelled() == (match msg {
                Message::Cancellation(c) => cancelled_after(old(self).cancelled(), c),
                _ => old(self).cancelled(),
            }),
            final(self).other_mergers() == (match msg {
                Message::NodeAnnouncement(info) => if info.role == NodeRole::Merging && info.id@
                    != old(self).node_id()@ {
                    record_merger(old(self).other_mergers(), info)
                } else {
                    old(self).other_mergers()
                },
                _ => old(self).other_mergers(),
            }),
    {
        match msg {
            Message::PartialBlock(p) => {
                self.partial_blocks.push(p);
            },
            Message::Transaction(tx) => {
                if tx.is_latency_sensitive {
                    let h = tx.tx.hash();
                    if !list_contains(&self.cancelled, &h) {
                        self.latency_sensitive_txs.push(tx);
                    }
                }
            },
            Message::Bundle(b) => {
                if b.is_latency_sensitive {
                    if !list_contains(&self.cancelled, &b.id) {
                        self.latency_sensitive_bundles.push(b);
                    }
                }
            },
            Message::Cancellation(c) => {
                record_cancelled(&mut self.cancelled, &c);
                if let Some(h) = c.tx_hash {
                    let mut txs: Vec<SignedTransaction> = Vec::new();
                    core::mem::swap(&mut txs, &mut self.latency_sensitive_txs);
                    self.latency_sensitive_txs = remove_tx(txs, &h);
                }
                if let Some(id) = c.bundle_id {
                    let mut bundles: Vec<Bundle> = Vec::new();
                    core::mem::swap(&mut bundles, &mut self.latency_sensitive_bundles);
                    self.latency_sensitive_bundles = remove_bundle(bundles, &id);
                }
            },
            Message::NodeAnnouncement(info) => {
                let is_merger = match info.role {
                    NodeRole::Merging => true,
                    NodeRole::Simulation => false,
                };
                if is_merger && !bytes_eq(&info.id, &self.id) {
                    proof {
                        if distinct_merger_ids(self.other_mergers@) {
                            lemma_record_merger_keeps_ids_distinct(self.other_mergers@, info);
                        }
                    }
                    crate::simulation::record_merger_in(&mut self.other_mergers, info);
                }
            },
        }
    }

    /// What the merger does when its block timer fires: everything received
    /// is taken.  With nothing received there is no block.  Otherwise the
    /// block is assembled from the latency-sensitive transactions and
    /// bundles and the partial blocks (see `assemble_block`).  Fails
    /// exactly when the profit total does not fit a `u128`.
    pub fn take_block(&mut self) -> (r: Result<Option<FinalBlock>, BlockError>)
        ensures
            final(self).node_id() == old(self).node_id(),
            final(self).region() == old(self).region(),
            final(self).other_mergers() == old(self).other_mergers(),
            final(self).cancelled() == old(self).cancelled(),
            final(self).partial_blocks() == Seq::<PartialBlock>::empty(),
            final(self).latency_sensitive_txs() == Seq::<SignedTransaction>::empty(),
            final(self).latency_sensitive_bundles() == Seq::<Bundle>::empty(),
            (old(self).partial_blocks().len() == 0 && old(self).latency_sensitive_txs().len() == 0
                && old(self).latency_sensitive_bundles().len() == 0) ==> r == Ok::<
                Option<FinalBlock>,
                BlockError,
            >(None),
            !(old(self).partial_blocks().len() == 0 && old(self).latency_sensitive_txs().len() == 0
                && old(self).latency_sensitive_bundles().len() == 0) ==> exists|
                ordered: Seq<PartialBlock>,
            |
                is_density_order(old(self).partial_blocks(), ordered) && tick_outcome(
                    #[trigger] block_selection(
                        ordered,
                        old(self).latency_sensitive_txs(),
                        old(self).latency_sensitive_bundles(),
                    ),
                    r,
                ),
    {
        let mut partials: Vec<PartialBlock> = Vec::new();
        core::mem::swap(&mut partials, &mut self.partial_blocks);
        let mut ls_txs: Vec<SignedTransaction> = Vec::new();
        core::mem::swap(&mut ls_txs, &mut self.latency_sensitive_txs);
        let mut ls_bundles: Vec<Bundle> = Vec::new();
        core::mem::swap(&mut ls_bundles, &mut self.latency_sensitive_bundles);
        if partials.len() == 0 && ls_txs.len() == 0 && ls_bundles.len() == 0 {
            return Ok(None);
        }
        let ghost p0 = partials@;
        let ghost l0 = ls_txs@;
        let ghost b0 = ls_bundles@;
        let built = assemble_block(partials, ls_txs, ls_bundles);
        let ghost ordered = choose|o: Seq<PartialBlock>|
            is_density_order(p0, o) && block_outcome(#[trigger] block_selection(o, l0, b0), built);
        let r = match built {
            Ok(b) => Ok(Some(b)),
            Err(e) => Err(e),
        };
        assert(p0 == old(self).partial_blocks() && l0 == old(self).latency_sensitive_txs() && b0
            == old(self).latency_sensitive_bundles());
        assert(is_density_order(old(self).partial_blocks(), ordered) && tick_outcome(
            block_selection(
                ordered,
                old(self).latency_sensitive_txs(),
                old(self).latency_sensitive_bundles(),
            ),
            r,
        ));
        r
    }
}

} // verus!
