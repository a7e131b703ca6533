//! The pool store: pending transactions keyed by hash, kept in insertion
//! order, which is also the order in which they are packaged.

use vstd::prelude::*;
use crate::types::{hash_eq, TxHash, SignedTransaction};

verus! {

/// Total declared cycle cost of `s`.
pub open spec fn sum_cycles(s: Seq<SignedTransaction>) -> nat
    decreases s.len(),
{
    if s.len() == 0 {
        0
    } else {
        sum_cycles(s.drop_last()) + s.last().cycles as nat
    }
}

/// Whether some transaction of `s` has hash `h`.
pub open spec fn has_hash(s: Seq<SignedTransaction>, h: TxHash) -> bool {
    exists|i: int| 0 <= i < s.len() && s[i].hash == h
}

/// No two transactions of `s` share a hash.
pub open spec fn unique_hashes(s: Seq<SignedTransaction>) -> bool {
    forall|i: int, j: int| 0 <= i < j < s.len() ==> #[trigger] s[i].hash != #[trigger] s[j].hash
}

/// The transaction of `s` with hash `h`, if any.
pub open spec fn find_tx(s: Seq<SignedTransaction>, h: TxHash) -> Option<SignedTransaction> {
    if has_hash(s, h) {
        Some(s[choose|i: int| 0 <= i < s.len() && s[i].hash == h])
    } else {
        None
    }
}

/// `s` without the transactions whose hash is in `hs`, order kept.
pub open spec fn without(s: Seq<SignedTransaction>, hs: Seq<TxHash>) -> Seq<SignedTransaction> {
    s.filter(|t: SignedTransaction| !hs.contains(t.hash))
}

/// Greedy selection over `s` in order. A transaction costing more than
/// `cycles_limit` or `gas_limit` is passed over; otherwise it is taken while
/// it fits in the `remaining` cycles and fewer than `count_left` were taken,
/// and selection stops at the first one that does not fit.
pub open spec fn select(
    s: Seq<SignedTransaction>,
    cycles_limit: nat,
    gas_limit: nat,
    remaining: nat,
    count_left: nat,
) -> Seq<SignedTransaction>
    decreases s.len(),
{
    if s.len() == 0 || count_left == 0 {
        Seq::empty()
    } else if s[0].cycles > cycles_limit || s[0].cycles > gas_limit {
        select(s.drop_first(), cycles_limit, gas_limit, remaining, count_left)
    } else if s[0].cycles > remaining {
        Seq::empty()
    } else {
        seq![s[0]] + select(
            s.drop_first(),
            cycles_limit,
            gas_limit,
            (remaining - s[0].cycles) as nat,
            (count_left - 1) as nat,
        )
    }
}

/// The hashes that packaging proposes from `s`.
pub open spec fn package_of(
    s: Seq<SignedTransaction>,
    cycles_limit: nat,
    gas_limit: nat,
    tx_num_limit: nat,
) -> Seq<TxHash> {
    select(s, cycles_limit, gas_limit, cycles_limit, tx_num_limit).map_values(
        |t: SignedTransaction| t.hash,
    )
}

/// Why an insert was refused.
#[derive(Clone, Copy, Debug, PartialEq, Eq, Structural)]
pub enum InsertError {
    /// A transaction with the same hash is already pending.
    Duplicate,
    /// The pending cycle total would exceed the pool's capacity.
    Full,
}

/// Pending transactions in insertion order, with their running cycle total
/// held under a fixed capacity.
pub struct PoolStore {
    txs: Vec<SignedTransaction>,
    total_cycles: u64,
    capacity: u64,
}

impl View for PoolStore {
    type V = Seq<SignedTransaction>;

    closed spec fn view(&self) -> Seq<SignedTransaction> {
        self.txs@
    }
}

proof fn lemma_sum_push(s: Seq<SignedTransaction>, t: SignedTransaction)
    ensures
        sum_cycles(s.push(t)) == sum_cycles(s) + t.cycles,
{
    assert(s.push(t).drop_last() =~= s);
}

proof fn lemma_sum_filter_le(s: Seq<SignedTransaction>, p: spec_fn(SignedTransaction) -> bool)
    ensures
        sum_cycles(s.filter(p)) <= sum_cycles(s),
    decreases s.len(),
{
    reveal_with_fuel(Seq::filter, 1);
    if s.len() > 0 {
        lemma_sum_filter_le(s.drop_last(), p);
        if p(s.last()) {
            lemma_sum_push(s.drop_last().filter(p), s.last());
        }
    }
}

proof fn lemma_filter_take_step(s: Seq<SignedTransaction>, p: spec_fn(SignedTransaction) -> bool, i: int)
    requires
        0 <= i < s.len(),
    ensures
        s.take(i + 1).filter(p) == if p(s[i]) {
            s.take(i).filter(p).push(s[i])
        } else {
            s.take(i).filter(p)
        },
{
    reveal_with_fuel(Seq::filter, 1);
    assert(s.take(i + 1).drop_last() =~= s.take(i));
}

impl PoolStore {
    /// The running total matches the transactions, stays within capacity,
    /// and no hash occurs twice.
    pub closed spec fn wf(&self) -> bool {
        &&& unique_hashes(self.txs@)
        &&& self.total_cycles == sum_cycles(self.txs@)
        &&& self.total_cycles <= self.capacity
    }

    /// The cycle capacity the store was created with.
    pub closed spec fn spec_capacity(&self) -> nat {
        self.capacity as nat
    }

    /// An empty store holding at most `capacity` cycles in total.
    pub fn new(capacity: u64) -> (r: PoolStore)
        ensures
            r.wf(),
            r@ == Seq::<SignedTransaction>::empty(),
            r.spec_capacity() == capacity,
    {
        PoolStore { txs: Vec::new(), total_cycles: 0, capacity }
    }

    /// Number of pending transactions.
    pub fn len(&self) -> (r: usize)
        ensures
            r == self@.len(),
    {
        self.txs.len()
    }

    /// Total cycle cost of the pending transactions.
    pub fn total_cycles(&self) -> (r: u64)
        requires
            self.wf(),
        ensures
            r == sum_cycles(self@),
    {
        self.total_cycles
    }

    /// Whether a transaction with hash `h` is pending.
    pub fn contains(&self, h: &TxHash) -> (r: bool)
        ensures
            r == has_hash(self@, *h),
    {
        let mut i: usize = 0;
        while i < self.txs.len()
            invariant
                i <= self.txs@.len(),
                forall|j: int| 0 <= j < i ==> #[trigger] self.txs@[j].hash != *h,
            decreases self.txs@.len() - i,
        {
            if hash_eq(&self.txs[i].hash, h) {
                return true;
            }
            i = i + 1;
        }
        false
    }

    /// The pending transaction with hash `h`, if any.
    pub fn get(&self, h: &TxHash) -> (r: Option<SignedTransaction>)
        requires
            self.wf(),
        ensures
            r == find_tx(self@, *h),
    {
        let mut i: usize = 0;
        while i < self.txs.len()
            invariant
                self.wf(),
                i <= self.txs@.len(),
                forall|j: int| 0 <= j < i ==> #[trigger] self.txs@[j].hash != *h,
            decreases self.txs@.len() - i,
        {
            if hash_eq(&self.txs[i].hash, h) {
                let ghost c = choose|c: int| 0 <= c < self.txs@.len() && self.txs@[c].hash == *h;
                assert(self.txs@[c].hash == self.txs@[i as int].hash);
                assert(c == i);
                return Some(self.txs[i]);
            }
            i = i + 1;
        }
        None
    }

    /// Adds `tx` at the end of the order. Fails with `Duplicate` when its
    /// hash is pending, else with `Full` when the cycle total would pass the
    /// capacity; on failure nothing changes.
    pub fn insert(&mut self, tx: SignedTransaction) -> (r: Result<(), InsertError>)
        requires
            old(self).wf(),
        ensures
            final(self).wf(),
            final(self).spec_capacity() == old(self).spec_capacity(),
            has_hash(old(self)@, tx.hash) ==> r == Err::<(), InsertError>(InsertError::Duplicate),
            !has_hash(old(self)@, tx.hash) && sum_cycles(old(self)@) + tx.cycles
                > old(self).spec_capacity() ==> r == Err::<(), InsertError>(InsertError::Full),
            r is Ok <==> !has_hash(old(self)@, tx.hash) && sum_cycles(old(self)@) + tx.cycles
                <= old(self).spec_capacity(),
            r is Ok ==> final(self)@ == old(self)@.push(tx),
            r is Err ==> final(self)@ == old(self)@,
    {
        if self.contains(&tx.hash) {
            return Err(InsertError::Duplicate);
        }
        if tx.cycles > self.capacity - self.total_cycles {
            return Err(InsertError::Full);
        }
        proof {
            lemma_sum_push(self.txs@, tx);
        }
        self.txs.push(tx);
        self.total_cycles = self.total_cycles + tx.cycles;
        Ok(())
    }

    /// Removes every pending transaction whose hash is in `hashes`; hashes
    /// that are not pending are passed over.
    pub fn remove(&mut self, hashes: &[TxHash])
        requires
            old(self).wf(),
        ensures
            final(self).wf(),
            final(self).spec_capacity() == old(self).spec_capacity(),
            final(self)@ == without(old(self)@, hashes@),
    {
        let ghost s = self.txs@;
        let ghost p = |t: SignedTransaction| !hashes@.contains(t.hash);
        let mut kept: Vec<SignedTransaction> = Vec::new();
        let mut kept_cycles: u64 = 0;
        let mut i: usize = 0;
        proof {
            assert(s.take(0).filter(p) =~= Seq::<SignedTransaction>::empty()) by {
                reveal_with_fuel(Seq::filter, 1);
            }
        }
        while i < self.txs.len()
            invariant
                self.wf(),
                s == self.txs@,
                p == (|t: SignedTransaction| !hashes@.contains(t.hash)),
                i <= s.len(),
                kept@ == s.take(i as int).filter(p),
                kept_cycles == sum_cycles(kept@),
            decreases s.len() - i,
        {
            let t = self.txs[i];
            let mut found = false;
            let mut j: usize = 0;
            while j < hashes.len()
                invariant
                    j <= hashes@.len(),
                    found == exists|k: int| 0 <= k < j && hashes@[k] == t.hash,
                decreases hashes@.len() - j,
            {
                if hash_eq(&hashes[j], &t.hash) {
                    found = true;
                }
                j = j + 1;
            }
            proof {
                lemma_filter_take_step(s, p, i as int);
                if found {
                    let k = choose|k: int| 0 <= k < hashes@.len() && hashes@[k] == t.hash;
                    assert(hashes@.contains(t.hash));
                } else {
                    assert(!hashes@.contains(t.hash));
                }
            }
            if !found {
                proof {
                    lemma_sum_push(kept@, t);
                    lemma_sum_filter_le(s.take(i + 1), p);
                    lemma_sum_take_le(s, i + 1);
                }
                kept.push(t);
                kept_cycles = kept_cycles + t.cycles;
            }
            i = i + 1;
        }
        proof {
            assert(s.take(s.len() as int) =~= s);
            lemma_sum_filter_le(s, p);
            lemma_filter_unique(s, p);
        }
        self.txs = kept;
        self.total_cycles = kept_cycles;
    }
}

impl PoolStore {
    /// For each hash of `hashes`, in order, the pending transaction with that
    /// hash or `None`.
    pub fn lookup(&self, hashes: &[TxHash]) -> (r: Vec<Option<SignedTransaction>>)
        requires
            self.wf(),
        ensures
            r@.len() == hashes@.len(),
            forall|i: int| 0 <= i < hashes@.len() ==> #[trigger] r@[i] == find_tx(self@, hashes@[i]),
    {
        let mut r: Vec<Option<SignedTransaction>> = Vec::new();
        let mut i: usize = 0;
        while i < hashes.len()
            invariant
                self.wf(),
                i <= hashes@.len(),
                r@.len() == i,
                forall|j: int| 0 <= j < i ==> #[trigger] r@[j] == find_tx(self@, hashes@[j]),
            decreases hashes@.len() - i,
        {
            let found = self.get(&hashes[i]);
            r.push(found);
            i = i + 1;
        }
        r
    }

    /// The hashes to propose: pending transactions in insertion order,
    /// greedily taken while their cycle sum stays within `cycles_limit` and
    /// their number within `tx_num_limit`. One that alone costs more than
    /// `cycles_limit` or `gas_limit` is passed over and stays pending.
    /// Nothing in the store changes.
    pub fn package(&self, cycles_limit: u64, gas_limit: u64, tx_num_limit: u64) -> (r: Vec<TxHash>)
        requires
            self.wf(),
        ensures
            r@ == package_of(self@, cycles_limit as nat, gas_limit as nat, tx_num_limit as nat),
    {
        let ghost s = self.txs@;
        let ghost target = select(s, cycles_limit as nat, gas_limit as nat, cycles_limit as nat, tx_num_limit as nat);
        let ghost mut chosen: Seq<SignedTransaction> = Seq::empty();
        let mut r: Vec<TxHash> = Vec::new();
        let mut remaining: u64 = cycles_limit;
        let mut count_left: u64 = tx_num_limit;
        let mut i: usize = 0;
        let mut stopped = false;
        assert(s.subrange(0, s.len() as int) =~= s);
        while i < self.txs.len() && !stopped
            invariant
                s == self.txs@,
                stopped ==> select(s.subrange(i as int, s.len() as int), cycles_limit as nat, gas_limit as nat, remaining as nat, count_left as nat) == Seq::<SignedTransaction>::empty(),
                i <= s.len(),
                target == select(s, cycles_limit as nat, gas_limit as nat, cycles_limit as nat, tx_num_limit as nat),
                chosen + select(s.subrange(i as int, s.len() as int), cycles_limit as nat, gas_limit as nat, remaining as nat, count_left as nat) == target,
                r@ == chosen.map_values(|t: SignedTransaction| t.hash),
            decreases s.len() - i + if stopped { 0int } else { 1int },
        {
            let ghost rest = s.subrange(i as int, s.len() as int);
            assert(rest.drop_first() =~= s.subrange(i + 1, s.len() as int));
            let t = self.txs[i];
            if count_left == 0 {
                stopped = true;
            } else if t.cycles > cycles_limit || t.cycles > gas_limit {
                i = i + 1;
            } else if t.cycles > remaining {
                stopped = true;
            } else {
                proof {
                    assert(chosen.push(t) + select(rest.drop_first(), cycles_limit as nat, gas_limit as nat, (remaining - t.cycles) as nat, (count_left - 1) as nat)
                        =~= chosen + (seq![t] + select(rest.drop_first(), cycles_limit as nat, gas_limit as nat, (remaining - t.cycles) as nat, (count_left - 1) as nat)));
                    chosen = chosen.push(t);
                }
                r.push(t.hash);
                proof {
                    assert(r@ =~= chosen.map_values(|t: SignedTransaction| t.hash));
                }
                remaining = remaining - t.cycles;
                count_left = count_left - 1;
                i = i + 1;
            }
        }
        proof {
            if i == s.len() {
                assert(s.subrange(i as int, s.len() as int).len() == 0);
            }
            assert(chosen =~= target);
        }
        r
    }
}

/// No two pending transactions share a hash, whatever inserts, removals and
/// refusals led to the store.
pub proof fn lemma_pool_hashes_unique(p: &PoolStore)
    requires
        p.wf(),
    ensures
        unique_hashes(p@),
{
}

/// What greedy selection takes costs at most the cycles it was given and
/// holds at most the number of transactions it was allowed.
pub proof fn lemma_select_within(
    s: Seq<SignedTransaction>,
    cycles_limit: nat,
    gas_limit: nat,
    remaining: nat,
    count_left: nat,
)
    ensures
        sum_cycles(select(s, cycles_limit, gas_limit, remaining, count_left)) <= remaining,
        select(s, cycles_limit, gas_limit, remaining, count_left).len() <= count_left,
    decreases s.len(),
{
    if s.len() == 0 || count_left == 0 {
    } else if s[0].cycles > cycles_limit || s[0].cycles > gas_limit {
        lemma_select_within(s.drop_first(), cycles_limit, gas_limit, remaining, count_left);
    } else if s[0].cycles > remaining {
    } else {
        let rest = select(s.drop_first(), cycles_limit, gas_limit, (remaining - s[0].cycles) as nat, (count_left - 1) as nat);
        lemma_select_within(s.drop_first(), cycles_limit, gas_limit, (remaining - s[0].cycles) as nat, (count_left - 1) as nat);
        lemma_sum_prepend(s[0], rest);
    }
}

proof fn lemma_sum_prepend(t: SignedTransaction, s: Seq<SignedTransaction>)
    ensures
        sum_cycles(seq![t] + s) == t.cycles + sum_cycles(s),
    decreases s.len(),
{
    if s.len() == 0 {
        assert((seq![t] + s).drop_last() =~= Seq::<SignedTransaction>::empty());
        assert((seq![t] + s).last() == t);
        assert(sum_cycles(Seq::<SignedTransaction>::empty()) == 0);
    } else {
        assert((seq![t] + s).drop_last() =~= seq![t] + s.drop_last());
        assert((seq![t] + s).last() == s.last());
        lemma_sum_prepend(t, s.drop_last());
    }
}

/// The transactions that packaging proposes from a pool cost at most
/// `cycles_limit` together, number at most `tx_num_limit`, and each is a
/// pending transaction that costs no more than the gas limit.
pub proof fn lemma_package_within_limits(
    s: Seq<SignedTransaction>,
    cycles_limit: nat,
    gas_limit: nat,
    tx_num_limit: nat,
)
    ensures
        sum_cycles(select(s, cycles_limit, gas_limit, cycles_limit, tx_num_limit)) <= cycles_limit,
        select(s, cycles_limit, gas_limit, cycles_limit, tx_num_limit).len() <= tx_num_limit,
        package_of(s, cycles_limit, gas_limit, tx_num_limit) == select(
            s,
            cycles_limit,
            gas_limit,
            cycles_limit,
            tx_num_limit,
        ).map_values(|t: SignedTransaction| t.hash),
        forall|i: int| 0 <= i < select(s, cycles_limit, gas_limit, cycles_limit, tx_num_limit).len() ==>
            s.contains(#[trigger] select(s, cycles_limit, gas_limit, cycles_limit, tx_num_limit)[i])
            && select(s, cycles_limit, gas_limit, cycles_limit, tx_num_limit)[i].cycles <= gas_limit,
{
    lemma_select_within(s, cycles_limit, gas_limit, cycles_limit, tx_num_limit);
    lemma_select_members(s, cycles_limit, gas_limit, cycles_limit, tx_num_limit);
}

proof fn lemma_select_members(
    s: Seq<SignedTransaction>,
    cycles_limit: nat,
    gas_limit: nat,
    remaining: nat,
    count_left: nat,
)
    ensures
        forall|i: int| 0 <= i < select(s, cycles_limit, gas_limit, remaining, count_left).len() ==>
            s.contains(#[trigger] select(s, cycles_limit, gas_limit, remaining, count_left)[i])
            && select(s, cycles_limit, gas_limit, remaining, count_left)[i].cycles <= gas_limit
            && select(s, cycles_limit, gas_limit, remaining, count_left)[i].cycles <= cycles_limit,
    decreases s.len(),
{
    if s.len() == 0 || count_left == 0 {
    } else {
        let d = s.drop_first();
        if s[0].cycles > cycles_limit || s[0].cycles > gas_limit {
            lemma_select_members(d, cycles_limit, gas_limit, remaining, count_left);
            let sel = select(d, cycles_limit, gas_limit, remaining, count_left);
            assert(select(s, cycles_limit, gas_limit, remaining, count_left) == sel);
            assert forall|i: int| 0 <= i < sel.len() implies s.contains(#[trigger] sel[i]) by {
                let k = choose|k: int| 0 <= k < d.len() && d[k] == sel[i];
                assert(s[k + 1] == sel[i]);
            }
        } else if s[0].cycles > remaining {
        } else {
            lemma_select_members(d, cycles_limit, gas_limit, (remaining - s[0].cycles) as nat, (count_left - 1) as nat);
            let rest = select(d, cycles_limit, gas_limit, (remaining - s[0].cycles) as nat, (count_left - 1) as nat);
            assert(select(s, cycles_limit, gas_limit, remaining, count_left) == seq![s[0]] + rest);
            assert forall|i: int| 0 <= i < (seq![s[0]] + rest).len() implies s.contains(#[trigger] (seq![s[0]] + rest)[i])
                && (seq![s[0]] + rest)[i].cycles <= gas_limit && (seq![s[0]] + rest)[i].cycles <= cycles_limit by {
                if i == 0 {
                    assert(s[0] == (seq![s[0]] + rest)[i]);
                } else {
                    assert((seq![s[0]] + rest)[i] == rest[i - 1]);
                    assert(d.contains(rest[i - 1]));
                    let k = choose|k: int| 0 <= k < d.len() && d[k] == rest[i - 1];
                    assert(s[k + 1] == rest[i - 1]);
                }
            }
        }
    }
}

/// Packaging reads nothing but the pending transactions and the limits:
/// two stores with the same pending transactions, packaged under the same
/// limits, propose the same hashes in the same order.
pub proof fn lemma_package_deterministic(
    a: &PoolStore,
    b: &PoolStore,
    cycles_limit: nat,
    gas_limit: nat,
    tx_num_limit: nat,
)
    requires
        a@ == b@,
    ensures
        package_of(a@, cycles_limit, gas_limit, tx_num_limit) == package_of(
            b@,
            cycles_limit,
            gas_limit,
            tx_num_limit,
        ),
{
}

/// After the hashes `hs` are removed, looking up any of them finds nothing,
/// whether or not it was pending before.
pub proof fn lemma_lookup_after_remove(s: Seq<SignedTransaction>, hs: Seq<TxHash>)
    ensures
        forall|i: int| 0 <= i < hs.len() ==> #[trigger] find_tx(without(s, hs), hs[i]) is None,
{
    let p = |t: SignedTransaction| !hs.contains(t.hash);
    assert forall|i: int| 0 <= i < hs.len() implies #[trigger] find_tx(without(s, hs), hs[i]) is None by {
        if has_hash(without(s, hs), hs[i]) {
            let k = choose|k: int| 0 <= k < without(s, hs).len() && without(s, hs)[k].hash == hs[i];
            s.lemma_filter_pred(p, k);
            assert(hs.contains(hs[i]));
        }
    }
}

proof fn lemma_sum_take_le(s: Seq<SignedTransaction>, n: int)
    requires
        0 <= n <= s.len(),
    ensures
        sum_cycles(s.take(n)) <= sum_cycles(s),
    decreases s.len(),
{
    if n < s.len() {
        assert(s.drop_last().take(n) =~= s.take(n));
        lemma_sum_take_le(s.drop_last(), n);
    } else {
        assert(s.take(n) =~= s);
    }
}

proof fn lemma_filter_unique(s: Seq<SignedTransaction>, p: spec_fn(SignedTransaction) -> bool)
    requires
        unique_hashes(s),
    ensures
        unique_hashes(s.filter(p)),
        forall|t: SignedTransaction| #[trigger] s.filter(p).contains(t) ==> s.contains(t),
    decreases s.len(),
{
    reveal_with_fuel(Seq::filter, 1);
    if s.len() > 0 {
        let d = s.drop_last();
        assert(unique_hashes(d));
        lemma_filter_unique(d, p);
        let f = d.filter(p);
        if p(s.last()) {
            assert forall|t: SignedTransaction| #[trigger] f.push(s.last()).contains(t) implies s.contains(t) by {
                if t != s.last() {
                    let k = choose|k: int| 0 <= k < f.push(s.last()).len() && f.push(s.last())[k] == t;
                    assert(f.contains(t));
                    let m = choose|m: int| 0 <= m < d.len() && d[m] == t;
                    assert(s[m] == t);
                } else {
                    assert(s[s.len() - 1] == t);
                }
            }
            assert forall|i: int, j: int| 0 <= i < j < f.push(s.last()).len() implies #[trigger] f.push(s.last())[i].hash
                != #[trigger] f.push(s.last())[j].hash by {
                if j == f.len() {
                    assert(f.contains(f[i]));
                    let m = choose|m: int| 0 <= m < d.len() && d[m] == f[i];
                    assert(s[m] == f[i]);
                    assert(s[s.len() - 1] == s.last());
                }
            }
        } else {
            assert forall|t: SignedTransaction| #[trigger] f.contains(t) implies s.contains(t) by {
                let m = choose|m: int| 0 <= m < d.len() && d[m] == t;
                assert(s[m] == t);
            }
        }
    }
}

} // verus!
