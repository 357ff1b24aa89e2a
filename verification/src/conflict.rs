//! Conflict detection: which accounts a set of transactions touches and
//! which nonces it consumes, and when two such sets cannot go into the
//! same block.

use vstd::prelude::*;

use crate::bytes::bytes_eq;
use crate::types::{Address, Bundle, Transaction};

verus! {

/// The mathematical content of a conflict set: the touched accounts and,
/// per sender address, the highest consumed nonce.
#[verifier::ext_equal]
pub struct ConflictView {
    pub accounts: Set<Seq<u8>>,
    pub nonces: Map<Seq<u8>, u64>,
}

/// The nonce map after folding `m2` into `m1`: each address keeps the
/// higher of its two nonces.
pub open spec fn merge_nonces(m1: Map<Seq<u8>, u64>, m2: Map<Seq<u8>, u64>) -> Map<Seq<u8>, u64> {
    Map::new(
        |a: Seq<u8>| m1.contains_key(a) || m2.contains_key(a),
        |a: Seq<u8>|
            if m1.contains_key(a) && m2.contains_key(a) {
                if m1[a] >= m2[a] {
                    m1[a]
                } else {
                    m2[a]
                }
            } else if m1.contains_key(a) {
                m1[a]
            } else {
                m2[a]
            },
    )
}

impl ConflictView {
    pub open spec fn empty() -> ConflictView {
        ConflictView { accounts: Set::empty(), nonces: Map::empty() }
    }

    /// Two sets conflict when they share an account, or when `self` has
    /// consumed, for an address that both mention, a nonce at least as
    /// high as the one `other` consumed.
    pub open spec fn conflicts_with(self, other: ConflictView) -> bool {
        ||| exists|a: Seq<u8>| #[trigger]
            self.accounts.contains(a) && other.accounts.contains(a)
        ||| exists|a: Seq<u8>|
            #[trigger] self.nonces.contains_key(a) && other.nonces.contains_key(a) && self.nonces[a]
                >= other.nonces[a]
    }

    /// The union of the accounts, and per address the higher nonce.
    pub open spec fn merge(self, other: ConflictView) -> ConflictView {
        ConflictView {
            accounts: self.accounts.union(other.accounts),
            nonces: merge_nonces(self.nonces, other.nonces),
        }
    }
}

/// The accounts a transaction touches and the nonce it consumes.
pub open spec fn tx_conflicts(tx: Transaction) -> ConflictView {
    ConflictView { accounts: set![tx.from@, tx.to@], nonces: map![tx.from@ => tx.nonce] }
}

/// Every sender and receiver address of the given transactions.
pub open spec fn accounts_of_txs(txs: Seq<Transaction>) -> Set<Seq<u8>> {
    Set::new(
        |a: Seq<u8>| exists|i: int| 0 <= i < txs.len() && (txs[i].from@ == a || txs[i].to@ == a),
    )
}

/// The accounts a bundle touches; a bundle consumes no nonces.
pub open spec fn bundle_conflicts(b: Bundle) -> ConflictView {
    ConflictView { accounts: accounts_of_txs(b.transactions@), nonces: Map::empty() }
}

pub open spec fn account_set(v: Seq<Address>) -> Set<Seq<u8>> {
    Set::new(|a: Seq<u8>| exists|i: int| 0 <= i < v.len() && v[i]@ == a)
}

pub open spec fn nonce_map(v: Seq<(Address, u64)>) -> Map<Seq<u8>, u64> {
    Map::new(
        |a: Seq<u8>| exists|i: int| 0 <= i < v.len() && v[i].0@ == a,
        |a: Seq<u8>| v[choose|i: int| 0 <= i < v.len() && v[i].0@ == a].1,
    )
}

pub open spec fn distinct_accounts(v: Seq<Address>) -> bool {
    forall|i: int, j: int| 0 <= i < v.len() && 0 <= j < v.len() && i != j ==> v[i]@ != v[j]@
}

pub open spec fn distinct_keys(v: Seq<(Address, u64)>) -> bool {
    forall|i: int, j: int| 0 <= i < v.len() && 0 <= j < v.len() && i != j ==> v[i].0@ != v[j].0@
}

/// The accounts touched and the nonces consumed by a set of transactions.
/// Each account is held once, and each address has at most one nonce.
///
/// The set and the map are held as vectors under a type invariant:
/// vstd specifies `HashSet` and `HashMap` only for key types with a proven
/// hashing model (the integer types, `bool` and boxes of them), and a
/// byte-array address is not one of them.
#[derive(Debug)]
pub struct ConflictSet {
    touched_accounts: Vec<Address>,
    consumed_nonces: Vec<(Address, u64)>,
}

fn copy_accounts(v: &Vec<Address>) -> (r: Vec<Address>)
    ensures
        r@ == v@,
{
    let mut r: Vec<Address> = Vec::new();
    let mut i: usize = 0;
    while i < v.len()
        invariant
            0 <= i <= v@.len(),
            r@ == v@.take(i as int),
        decreases v@.len() - i,
    {
        r.push(v[i]);
        assert(r@ =~= v@.take(i + 1));
        i = i + 1;
    }
    assert(v@.take(i as int) =~= v@);
    r
}

fn copy_entries(v: &Vec<(Address, u64)>) -> (r: Vec<(Address, u64)>)
    ensures
        r@ == v@,
{
    let mut r: Vec<(Address, u64)> = Vec::new();
    let mut i: usize = 0;
    while i < v.len()
        invariant
            0 <= i <= v@.len(),
            r@ == v@.take(i as int),
        decreases v@.len() - i,
    {
        r.push(v[i]);
        assert(r@ =~= v@.take(i + 1));
        i = i + 1;
    }
    assert(v@.take(i as int) =~= v@);
    r
}

impl Clone for ConflictSet {
    /// A copy holding the same accounts and nonces.
    fn clone(&self) -> (r: Self)
        ensures
            r@ == self@,
    {
        proof {
            use_type_invariant(self);
        }
        ConflictSet {
            touched_accounts: copy_accounts(&self.touched_accounts),
            consumed_nonces: copy_entries(&self.consumed_nonces),
        }
    }
}

impl View for ConflictSet {
    type V = ConflictView;

    open spec fn view(&self) -> ConflictView {
        self.model()
    }
}

proof fn lemma_nonce_map_at(v: Seq<(Address, u64)>, i: int)
    requires
        distinct_keys(v),
        0 <= i < v.len(),
    ensures
        nonce_map(v).contains_key(v[i].0@),
        nonce_map(v)[v[i].0@] == v[i].1,
{
    let a = v[i].0@;
    assert(exists|j: int| 0 <= j < v.len() && v[j].0@ == a);
    let j = choose|j: int| 0 <= j < v.len() && v[j].0@ == a;
    assert(j == i);
}

proof fn lemma_nonce_map_push(v: Seq<(Address, u64)>, e: (Address, u64))
    requires
        distinct_keys(v),
        !nonce_map(v).contains_key(e.0@),
    ensures
        distinct_keys(v.push(e)),
        nonce_map(v.push(e)) == nonce_map(v).insert(e.0@, e.1),
{
    let w = v.push(e);
    assert forall|i: int, j: int| 0 <= i < w.len() && 0 <= j < w.len() && i != j implies w[i].0@
        != w[j].0@ by {
        if i < v.len() && j < v.len() {
        } else if i < v.len() {
            assert(v[i].0@ == w[i].0@);
        } else {
            assert(v[j].0@ == w[j].0@);
        }
    }
    assert forall|a: Seq<u8>| #[trigger] nonce_map(w).contains_key(a) implies nonce_map(
        v,
    ).insert(e.0@, e.1).contains_key(a) by {
        let j = choose|j: int| 0 <= j < w.len() && w[j].0@ == a;
        if j < v.len() {
            assert(v[j].0@ == a);
        }
    }
    assert forall|a: Seq<u8>| #[trigger] nonce_map(v).insert(e.0@, e.1).contains_key(a) implies nonce_map(
        w,
    ).contains_key(a) by {
        if a == e.0@ {
            assert(w[v.len() as int].0@ == a);
        } else {
            let j = choose|j: int| 0 <= j < v.len() && v[j].0@ == a;
            assert(w[j].0@ == a);
        }
    }
    assert forall|a: Seq<u8>| #[trigger] nonce_map(w).contains_key(a) implies nonce_map(w)[a]
        == nonce_map(v).insert(e.0@, e.1)[a] by {
        let j = choose|j: int| 0 <= j < w.len() && w[j].0@ == a;
        lemma_nonce_map_at(w, j);
        if j < v.len() {
            assert(v[j] == w[j]);
            lemma_nonce_map_at(v, j);
        }
    }
    assert(nonce_map(w) =~= nonce_map(v).insert(e.0@, e.1));
}

proof fn lemma_nonce_map_update(v: Seq<(Address, u64)>, i: int, n: u64)
    requires
        distinct_keys(v),
        0 <= i < v.len(),
    ensures
        distinct_keys(v.update(i, (v[i].0, n))),
        nonce_map(v.update(i, (v[i].0, n))) == nonce_map(v).insert(v[i].0@, n),
{
    let w = v.update(i, (v[i].0, n));
    let k = v[i].0@;
    assert forall|p: int, q: int| 0 <= p < w.len() && 0 <= q < w.len() && p != q implies w[p].0@
        != w[q].0@ by {
        assert(w[p].0@ == v[p].0@);
        assert(w[q].0@ == v[q].0@);
    }
    assert forall|a: Seq<u8>| #[trigger] nonce_map(w).contains_key(a) <==> nonce_map(v).insert(
        k,
        n,
    ).contains_key(a) by {
        if nonce_map(w).contains_key(a) {
            let j = choose|j: int| 0 <= j < w.len() && w[j].0@ == a;
            assert(v[j].0@ == a);
        }
        if nonce_map(v).insert(k, n).contains_key(a) {
            if a == k {
                assert(w[i].0@ == a);
            } else {
                let j = choose|j: int| 0 <= j < v.len() && v[j].0@ == a;
                assert(w[j].0@ == a);
            }
        }
    }
    assert forall|a: Seq<u8>| #[trigger] nonce_map(w).contains_key(a) implies nonce_map(w)[a]
        == nonce_map(v).insert(k, n)[a] by {
        let j = choose|j: int| 0 <= j < w.len() && w[j].0@ == a;
        lemma_nonce_map_at(w, j);
        if j != i {
            lemma_nonce_map_at(v, j);
        }
    }
    assert(nonce_map(w) =~= nonce_map(v).insert(k, n));
}

impl ConflictSet {
    #[verifier::type_invariant]
    spec fn well_formed(self) -> bool {
        &&& distinct_accounts(self.touched_accounts@)
        &&& distinct_keys(self.consumed_nonces@)
    }

    pub closed spec fn model(&self) -> ConflictView {
        ConflictView {
            accounts: account_set(self.touched_accounts@),
            nonces: nonce_map(self.consumed_nonces@),
        }
    }

    /// An empty set: nothing touched, no nonce consumed.
    pub fn new() -> (s: Self)
        ensures
            s@ == ConflictView::empty(),
    {
        let s = ConflictSet { touched_accounts: Vec::new(), consumed_nonces: Vec::new() };
        assert(s@.accounts =~= Set::empty());
        assert(s@.nonces =~= Map::empty());
        s
    }

    fn position_of_account(v: &Vec<Address>, account: &Address) -> (r: Option<usize>)
        ensures
            match r {
                Some(i) => i < v@.len() && v@[i as int]@ == account@,
                None => !account_set(v@).contains(account@),
            },
    {
        let mut i: usize = 0;
        while i < v.len()
            invariant
                0 <= i <= v@.len(),
                forall|j: int| 0 <= j < i ==> v@[j]@ != account@,
            decreases v@.len() - i,
        {
            if bytes_eq(&v[i], account) {
                return Some(i);
            }
            i = i + 1;
        }
        None
    }

    fn position_of_nonce(v: &Vec<(Address, u64)>, account: &Address) -> (r: Option<usize>)
        ensures
            match r {
                Some(i) => i < v@.len() && v@[i as int].0@ == account@,
                None => !nonce_map(v@).contains_key(account@),
            },
    {
        let mut i: usize = 0;
        while i < v.len()
            invariant
                0 <= i <= v@.len(),
                forall|j: int| 0 <= j < i ==> v@[j].0@ != account@,
            decreases v@.len() - i,
        {
            if bytes_eq(&v[i].0, account) {
                return Some(i);
            }
            i = i + 1;
        }
        None
    }

    /// The touched accounts, each once.
    pub fn accounts(&self) -> (r: Vec<Address>)
        ensures
            account_set(r@) == self@.accounts,
            distinct_accounts(r@),
    {
        proof {
            use_type_invariant(self);
        }
        copy_accounts(&self.touched_accounts)
    }

    /// The consumed nonces, one entry per address.
    pub fn nonces(&self) -> (r: Vec<(Address, u64)>)
        ensures
            nonce_map(r@) == self@.nonces,
            distinct_keys(r@),
    {
        proof {
            use_type_invariant(self);
        }
        copy_entries(&self.consumed_nonces)
    }

    /// Whether the set touches `account`.
    pub fn touches(&self, account: &Address) -> (r: bool)
        ensures
            r == self@.accounts.contains(account@),
    {
        match Self::position_of_account(&self.touched_accounts, account) {
            Some(i) => {
                assert(self@.accounts.contains(self.touched_accounts@[i as int]@));
                true
            },
            None => false,
        }
    }

    /// The nonce consumed for `account`, if any.
    pub fn nonce_of(&self, account: &Address) -> (r: Option<u64>)
        ensures
            r == (if self@.nonces.contains_key(account@) {
                Some(self@.nonces[account@])
            } else {
                None
            }),
    {
        proof {
            use_type_invariant(self);
        }
        match Self::position_of_nonce(&self.consumed_nonces, account) {
            Some(i) => {
                proof {
                    lemma_nonce_map_at(self.consumed_nonces@, i as int);
                }
                Some(self.consumed_nonces[i].1)
            },
            None => None,
        }
    }

    /// Records that `account` is touched.
    pub fn touch_account(&mut self, account: Address)
        ensures
            final(self)@.accounts == old(self)@.accounts.insert(account@),
            final(self)@.nonces == old(self)@.nonces,
    {
        proof {
            use_type_invariant(&*self);
        }
        match Self::position_of_account(&self.touched_accounts, &account) {
            Some(i) => {
                assert(self@.accounts =~= old(self)@.accounts.insert(account@));
            },
            None => {
                let ghost v = self.touched_accounts@;
                let mut accounts: Vec<Address> = Vec::new();
                core::mem::swap(&mut accounts, &mut self.touched_accounts);
                accounts.push(account);
                proof {
                    let w = accounts@;
                    assert(w[v.len() as int] == account);
                    assert forall|i: int, j: int|
                        0 <= i < w.len() && 0 <= j < w.len() && i != j implies w[i]@ != w[j]@ by {
                        if i < v.len() && j < v.len() {
                            assert(w[i] == v[i] && w[j] == v[j]);
                        } else if i < v.len() {
                            assert(w[i] == v[i]);
                            assert(account_set(v).contains(v[i]@));
                        } else {
                            assert(w[j] == v[j]);
                            assert(account_set(v).contains(v[j]@));
                        }
                    }
                    assert forall|a: Seq<u8>| #[trigger]
                        account_set(w).contains(a) <==> account_set(v).insert(account@).contains(
                            a,
                        ) by {
                        if account_set(w).contains(a) {
                            let j = choose|j: int| 0 <= j < w.len() && w[j]@ == a;
                            if j < v.len() {
                                assert(v[j]@ == a);
                            }
                        }
                        if account_set(v).contains(a) {
                            let j = choose|j: int| 0 <= j < v.len() && v[j]@ == a;
                            assert(w[j]@ == a);
                        }
                    }
                    assert(account_set(w) =~= account_set(v).insert(account@));
                }
                self.touched_accounts = accounts;
            },
        }
    }

    /// Records that `account` consumed `nonce`, replacing any nonce
    /// recorded for it before.
    pub fn consume_nonce(&mut self, account: Address, nonce: u64)
        ensures
            final(self)@.accounts == old(self)@.accounts,
            final(self)@.nonces == old(self)@.nonces.insert(account@, nonce),
    {
        proof {
            use_type_invariant(&*self);
        }
        let ghost v = self.consumed_nonces@;
        match Self::position_of_nonce(&self.consumed_nonces, &account) {
            Some(i) => {
                proof {
                    lemma_nonce_map_update(v, i as int, nonce);
                }
                let mut entries: Vec<(Address, u64)> = Vec::new();
                core::mem::swap(&mut entries, &mut self.consumed_nonces);
                let key = entries[i].0;
                entries.set(i, (key, nonce));
                assert(entries@ == v.update(i as int, (v[i as int].0, nonce)));
                self.consumed_nonces = entries;
            },
            None => {
                proof {
                    lemma_nonce_map_push(v, (account, nonce));
                }
                let mut entries: Vec<(Address, u64)> = Vec::new();
                core::mem::swap(&mut entries, &mut self.consumed_nonces);
                entries.push((account, nonce));
                self.consumed_nonces = entries;
            },
        }
    }

    /// Whether `self` conflicts with `other`: they share a touched account,
    /// or for some address both consumed a nonce and `self`'s is at least
    /// as high as `other`'s.
    pub fn conflicts_with(&self, other: &ConflictSet) -> (r: bool)
        ensures
            r == self@.conflicts_with(other@),
    {
        proof {
            use_type_invariant(self);
            use_type_invariant(other);
        }
        let mut i: usize = 0;
        while i < self.touched_accounts.len()
            invariant
                0 <= i <= self.touched_accounts@.len(),
                forall|j: int| 0 <= j < i ==> !other@.accounts.contains(self.touched_accounts@[j]@),
            decreases self.touched_accounts@.len() - i,
        {
            if other.touches(&self.touched_accounts[i]) {
                assert(self@.accounts.contains(self.touched_accounts@[i as int]@));
                return true;
            }
            i = i + 1;
        }
        assert forall|a: Seq<u8>| !(#[trigger] self@.accounts.contains(a) && other@.accounts.contains(
            a,
        )) by {
            if self@.accounts.contains(a) {
                let j = choose|j: int|
                    0 <= j < self.touched_accounts@.len() && self.touched_accounts@[j]@ == a;
            }
        }
        let mut k: usize = 0;
        while k < self.consumed_nonces.len()
            invariant
                0 <= k <= self.consumed_nonces@.len(),
                distinct_keys(self.consumed_nonces@),
                forall|j: int|
                    0 <= j < k ==> !(other@.nonces.contains_key(self.consumed_nonces@[j].0@)
                        && self.consumed_nonces@[j].1 >= other@.nonces[self.consumed_nonces@[j].0@]),
            decreases self.consumed_nonces@.len() - k,
        {
            let entry = self.consumed_nonces[k];
            match other.nonce_of(&entry.0) {
                Some(m) => {
                    if entry.1 >= m {
                        proof {
                            lemma_nonce_map_at(self.consumed_nonces@, k as int);
                        }
                        assert(self@.nonces.contains_key(entry.0@));
                        return true;
                    }
                },
                None => {},
            }
            k = k + 1;
        }
        assert forall|a: Seq<u8>|
            !(#[trigger] self@.nonces.contains_key(a) && other@.nonces.contains_key(a)
                && self@.nonces[a] >= other@.nonces[a]) by {
            if self@.nonces.contains_key(a) {
                let j = choose|j: int|
                    0 <= j < self.consumed_nonces@.len() && self.consumed_nonces@[j].0@ == a;
                lemma_nonce_map_at(self.consumed_nonces@, j);
            }
        }
        false
    }

    /// Folds `other` into `self`: all of its accounts are added, and each of
    /// its nonces is kept where it is higher than the one already held.
    pub fn merge(&mut self, other: &ConflictSet)
        ensures
            final(self)@ == old(self)@.merge(other@),
    {
        proof {
            use_type_invariant(other);
        }
        let ghost start = self@;
        let mut i: usize = 0;
        while i < other.touched_accounts.len()
            invariant
                0 <= i <= other.touched_accounts@.len(),
                self@.nonces == start.nonces,
                self@.accounts == start.accounts.union(
                    account_set(other.touched_accounts@.take(i as int)),
                ),
            decreases other.touched_accounts@.len() - i,
        {
            let ghost before = self@.accounts;
            self.touch_account(other.touched_accounts[i]);
            proof {
                let t = other.touched_accounts@;
                let t1 = t.take(i + 1);
                let t0 = t.take(i as int);
                assert forall|a: Seq<u8>| #[trigger]
                    account_set(t1).contains(a) <==> account_set(t0).insert(t[i as int]@).contains(a) by {
                    if account_set(t1).contains(a) {
                        let j = choose|j: int| 0 <= j < t1.len() && t1[j]@ == a;
                        if j < i {
                            assert(t0[j]@ == a);
                        }
                    }
                    if account_set(t0).contains(a) {
                        let j = choose|j: int| 0 <= j < t0.len() && t0[j]@ == a;
                        assert(t1[j]@ == a);
                    }
                    if a == t[i as int]@ {
                        assert(t1[i as int]@ == a);
                    }
                }
                assert(account_set(t1) =~= account_set(t0).insert(t[i as int]@));
                assert(self@.accounts =~= start.accounts.union(account_set(t.take(i + 1))));
            }
            i = i + 1;
        }
        proof {
            assert(other.touched_accounts@.take(i as int) =~= other.touched_accounts@);
        }
        let mut k: usize = 0;
        while k < other.consumed_nonces.len()
            invariant
                0 <= k <= other.consumed_nonces@.len(),
                distinct_keys(other.consumed_nonces@),
                self@.accounts == start.merge(other@).accounts,
                self@.nonces == merge_nonces(start.nonces, nonce_map(other.consumed_nonces@.take(k as int))),
            decreases other.consumed_nonces@.len() - k,
        {
            let entry = other.consumed_nonces[k];
            let ghost o = other.consumed_nonces@;
            let ghost prefix = o.take(k as int);
            proof {
                assert(prefix.push(entry) =~= o.take(k + 1));
                assert(distinct_keys(prefix));
                if nonce_map(prefix).contains_key(entry.0@) {
                    let j = choose|j: int| 0 <= j < prefix.len() && prefix[j].0@ == entry.0@;
                    assert(o[j].0@ == o[k as int].0@);
                }
                lemma_nonce_map_push(prefix, entry);
            }
            match self.nonce_of(&entry.0) {
                Some(m) => {
                    if entry.1 > m {
                        self.consume_nonce(entry.0, entry.1);
                    } else {
                        assert(self@.nonces.insert(entry.0@, m) =~= self@.nonces);
                    }
                },
                None => {
                    self.consume_nonce(entry.0, entry.1);
                },
            }
            proof {
                let m1 = start.nonces;
                let m2 = nonce_map(prefix);
                assert(merge_nonces(m1, m2.insert(entry.0@, entry.1)) =~= merge_nonces(m1, m2).insert(
                    entry.0@,
                    merge_nonces(m1, m2.insert(entry.0@, entry.1))[entry.0@],
                ));
                assert(self@.nonces =~= merge_nonces(m1, nonce_map(o.take(k + 1))));
            }
            k = k + 1;
        }
        proof {
            assert(other.consumed_nonces@.take(k as int) =~= other.consumed_nonces@);
        }
    }

    /// The conflict set of a single transaction: its sender and receiver
    /// are touched, and the sender consumes the transaction's nonce.
    pub fn for_transaction(tx: &Transaction) -> (c: ConflictSet)
        ensures
            c@ == tx_conflicts(*tx),
    {
        let mut c = ConflictSet::new();
        c.touch_account(tx.from);
        c.touch_account(tx.to);
        c.consume_nonce(tx.from, tx.nonce);
        assert(c@.accounts =~= set![tx.from@, tx.to@]);
        assert(c@.nonces =~= map![tx.from@ => tx.nonce]);
        c
    }

    /// The conflict set of a bundle: every sender and receiver of its
    /// transactions is touched; no nonce is recorded.
    pub fn for_bundle(bundle: &Bundle) -> (c: ConflictSet)
        ensures
            c@ == bundle_conflicts(*bundle),
    {
        let mut c = ConflictSet::new();
        let txs = &bundle.transactions;
        let mut i: usize = 0;
        while i < txs.len()
            invariant
                0 <= i <= txs@.len(),
                txs@ == bundle.transactions@,
                c@.nonces == Map::<Seq<u8>, u64>::empty(),
                c@.accounts == accounts_of_txs(txs@.take(i as int)),
            decreases txs@.len() - i,
        {
            c.touch_account(txs[i].from);
            c.touch_account(txs[i].to);
            proof {
                let t = txs@;
                let t1 = t.take(i + 1);
                let t0 = t.take(i as int);
                assert forall|a: Seq<u8>| #[trigger]
                    accounts_of_txs(t1).contains(a) <==> c@.accounts.contains(a) by {
                    if accounts_of_txs(t1).contains(a) {
                        let j = choose|j: int|
                            0 <= j < t1.len() && (t1[j].from@ == a || t1[j].to@ == a);
                        if j < i {
                            assert(t0[j] == t[j]);
                            assert(accounts_of_txs(t0).contains(a));
                        }
                    }
                    if accounts_of_txs(t0).contains(a) {
                        let j = choose|j: int|
                            0 <= j < t0.len() && (t0[j].from@ == a || t0[j].to@ == a);
                        assert(t1[j] == t[j]);
                    }
                    if a == t[i as int].from@ || a == t[i as int].to@ {
                        assert(t1[i as int] == t[i as int]);
                    }
                }
                assert(c@.accounts =~= accounts_of_txs(t.take(i + 1)));
            }
            i = i + 1;
        }
        assert(txs@.take(i as int) =~= txs@);
        c
    }
}

/// An empty set conflicts with nothing, and nothing conflicts with it.
pub proof fn lemma_empty_conflicts_with_nothing(c: ConflictView)
    ensures
        !ConflictView::empty().conflicts_with(c),
        !c.conflicts_with(ConflictView::empty()),
{
}

/// Merging into an empty set gives the merged set back, and merging an
/// empty set changes nothing.
pub proof fn lemma_merge_empty(a: ConflictView)
    ensures
        ConflictView::empty().merge(a) == a,
        a.merge(ConflictView::empty()) == a,
{
    assert(ConflictView::empty().merge(a).accounts =~= a.accounts);
    assert(ConflictView::empty().merge(a).nonces =~= a.nonces);
    assert(a.merge(ConflictView::empty()).accounts =~= a.accounts);
    assert(a.merge(ConflictView::empty()).nonces =~= a.nonces);
}

/// Merging a set into itself changes nothing.
pub proof fn lemma_merge_idempotent(a: ConflictView)
    ensures
        a.merge(a) == a,
{
    assert(a.merge(a).accounts =~= a.accounts);
    assert(a.merge(a).nonces =~= a.nonces);
}

/// The order of two merges does not matter.
pub proof fn lemma_merge_commutative(a: ConflictView, b: ConflictView)
    ensures
        a.merge(b) == b.merge(a),
{
    assert(a.merge(b).accounts =~= b.merge(a).accounts);
    assert(a.merge(b).nonces =~= b.merge(a).nonces);
}

/// How merges are grouped does not matter.
pub proof fn lemma_merge_associative(a: ConflictView, b: ConflictView, c: ConflictView)
    ensures
        a.merge(b).merge(c) == a.merge(b.merge(c)),
{
    assert(a.merge(b).merge(c).accounts =~= a.merge(b.merge(c)).accounts);
    assert(a.merge(b).merge(c).nonces =~= a.merge(b.merge(c)).nonces);
}

/// A merged set conflicts with `c` exactly when one of its two parts does.
pub proof fn lemma_merge_conflicts_iff(a: ConflictView, b: ConflictView, c: ConflictView)
    ensures
        a.merge(b).conflicts_with(c) <==> (a.conflicts_with(c) || b.conflicts_with(c)),
{
    let m = a.merge(b);
    if m.conflicts_with(c) {
        if exists|k: Seq<u8>| #[trigger] m.accounts.contains(k) && c.accounts.contains(k) {
            let k = choose|k: Seq<u8>| #[trigger] m.accounts.contains(k) && c.accounts.contains(k);
            if a.accounts.contains(k) {
                assert(a.conflicts_with(c));
            } else {
                assert(b.conflicts_with(c));
            }
        } else {
            let k = choose|k: Seq<u8>|
                #[trigger] m.nonces.contains_key(k) && c.nonces.contains_key(k) && m.nonces[k]
                    >= c.nonces[k];
            if a.nonces.contains_key(k) && a.nonces[k] >= c.nonces[k] {
                assert(a.conflicts_with(c));
            } else {
                assert(b.nonces.contains_key(k));
                assert(b.conflicts_with(c));
            }
        }
    }
    if a.conflicts_with(c) {
        if exists|k: Seq<u8>| #[trigger] a.accounts.contains(k) && c.accounts.contains(k) {
            let k = choose|k: Seq<u8>| #[trigger] a.accounts.contains(k) && c.accounts.contains(k);
            assert(m.accounts.contains(k));
        } else {
            let k = choose|k: Seq<u8>|
                #[trigger] a.nonces.contains_key(k) && c.nonces.contains_key(k) && a.nonces[k]
                    >= c.nonces[k];
            assert(m.nonces.contains_key(k));
        }
    }
    if b.conflicts_with(c) {
        if exists|k: Seq<u8>| #[trigger] b.accounts.contains(k) && c.accounts.contains(k) {
            let k = choose|k: Seq<u8>| #[trigger] b.accounts.contains(k) && c.accounts.contains(k);
            assert(m.accounts.contains(k));
        } else {
            let k = choose|k: Seq<u8>|
                #[trigger] b.nonces.contains_key(k) && c.nonces.contains_key(k) && b.nonces[k]
                    >= c.nonces[k];
            assert(m.nonces.contains_key(k));
        }
    }
}

/// Once a set that touches something or consumes a nonce has been merged
/// into another, it conflicts with the result: nothing can be added twice.
pub proof fn lemma_merged_part_conflicts(a: ConflictView, b: ConflictView)
    requires
        (exists|k: Seq<u8>| b.accounts.contains(k)) || (exists|k: Seq<u8>| b.nonces.contains_key(k)),
    ensures
        a.merge(b).conflicts_with(b),
{
    let m = a.merge(b);
    if exists|k: Seq<u8>| b.accounts.contains(k) {
        let k = choose|k: Seq<u8>| b.accounts.contains(k);
        assert(m.accounts.contains(k) && b.accounts.contains(k));
    } else {
        let k = choose|k: Seq<u8>| b.nonces.contains_key(k);
        assert(m.nonces.contains_key(k) && b.nonces.contains_key(k) && m.nonces[k] >= b.nonces[k]);
    }
}

/// Two sets conflict in one direction or the other exactly when they share
/// a touched account or both consumed a nonce for the same address.
pub proof fn lemma_conflict_either_way(a: ConflictView, b: ConflictView)
    ensures
        (a.conflicts_with(b) || b.conflicts_with(a)) <==> ((exists|k: Seq<u8>|
            #[trigger] a.accounts.contains(k) && b.accounts.contains(k)) || (exists|k: Seq<u8>|
            #[trigger] a.nonces.contains_key(k) && b.nonces.contains_key(k))),
{
    if exists|k: Seq<u8>| #[trigger] a.nonces.contains_key(k) && b.nonces.contains_key(k) {
        let k = choose|k: Seq<u8>| #[trigger] a.nonces.contains_key(k) && b.nonces.contains_key(k);
        if a.nonces[k] >= b.nonces[k] {
            assert(a.conflicts_with(b));
        } else {
            assert(b.conflicts_with(a));
        }
    }
    if exists|k: Seq<u8>| #[trigger] b.accounts.contains(k) && a.accounts.contains(k) {
        let k = choose|k: Seq<u8>| #[trigger] b.accounts.contains(k) && a.accounts.contains(k);
        assert(a.accounts.contains(k) && b.accounts.contains(k));
    }
    if exists|k: Seq<u8>|
        #[trigger] b.nonces.contains_key(k) && a.nonces.contains_key(k) && b.nonces[k] >= a.nonces[k] {
        let k = choose|k: Seq<u8>|
            #[trigger] b.nonces.contains_key(k) && a.nonces.contains_key(k) && b.nonces[k]
                >= a.nonces[k];
        assert(a.nonces.contains_key(k) && b.nonces.contains_key(k));
    }
}

/// Every address with a consumed nonce is also a touched account.
pub open spec fn nonces_within_accounts(c: ConflictView) -> bool {
    forall|k: Seq<u8>| #[trigger] c.nonces.contains_key(k) ==> c.accounts.contains(k)
}

/// The sets built for a transaction or a bundle record nonces only for
/// touched accounts, and merging keeps that so.
pub proof fn lemma_nonces_within_accounts(tx: Transaction, b: Bundle, c1: ConflictView, c2: ConflictView)
    ensures
        nonces_within_accounts(tx_conflicts(tx)),
        nonces_within_accounts(bundle_conflicts(b)),
        nonces_within_accounts(c1) && nonces_within_accounts(c2) ==> nonces_within_accounts(
            c1.merge(c2),
        ),
{
}

/// Between sets that record nonces only for touched accounts, conflict is
/// symmetric: either both conflict with each other or neither does.
pub proof fn lemma_conflict_symmetric(a: ConflictView, b: ConflictView)
    requires
        nonces_within_accounts(a),
        nonces_within_accounts(b),
    ensures
        a.conflicts_with(b) <==> b.conflicts_with(a),
{
    if a.conflicts_with(b) && !(exists|k: Seq<u8>| #[trigger] a.accounts.contains(k) && b.accounts.contains(k)) {
        let k = choose|k: Seq<u8>|
            #[trigger] a.nonces.contains_key(k) && b.nonces.contains_key(k) && a.nonces[k] >= b.nonces[k];
        assert(a.accounts.contains(k) && b.accounts.contains(k));
    }
    if b.conflicts_with(a) && !(exists|k: Seq<u8>| #[trigger] b.accounts.contains(k) && a.accounts.contains(k)) {
        let k = choose|k: Seq<u8>|
            #[trigger] b.nonces.contains_key(k) && a.nonces.contains_key(k) && b.nonces[k] >= a.nonces[k];
        assert(a.accounts.contains(k) && b.accounts.contains(k));
    }
    if exists|k: Seq<u8>| #[trigger] a.accounts.contains(k) && b.accounts.contains(k) {
        let k = choose|k: Seq<u8>| #[trigger] a.accounts.contains(k) && b.accounts.contains(k);
        assert(b.accounts.contains(k) && a.accounts.contains(k));
    }
    if exists|k: Seq<u8>| #[trigger] b.accounts.contains(k) && a.accounts.contains(k) {
        let k = choose|k: Seq<u8>| #[trigger] b.accounts.contains(k) && a.accounts.contains(k);
        assert(a.accounts.contains(k) && b.accounts.contains(k));
    }
}

} // verus!
