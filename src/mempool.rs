//! The mempool: a pool store behind the published chain parameters, and the
//! admission decisions for one transaction.
//!
//! Adapter calls (storage, authorization, network) are made by the caller:
//! each step here says which call comes next, or what the outcome is, from
//! what the previous call answered.

use vstd::prelude::*;
use crate::pool::{find_tx, has_hash, package_of, without, InsertError, PoolStore};
use crate::types::{ChainArgs, SignedTransaction, TxHash};

verus! {

/// Where a transaction came from: this node, or a peer that relayed it.
#[derive(Clone, Copy, Debug, PartialEq, Eq, Structural)]
pub enum Provenance {
    Local,
    RemoteRelay,
}

/// The adapter checks that admission runs, in this order.
#[derive(Clone, Copy, Debug, PartialEq, Eq, Structural)]
pub enum AdapterCheck {
    /// Is the transaction already committed?
    StorageExist,
    /// Is it properly signed and authorized?
    Authorization,
    /// Is it valid for the chain's rules?
    Transaction,
}

/// What an adapter check answered.
#[derive(Clone, Copy, Debug, PartialEq, Eq, Structural)]
pub enum CheckOutcome {
    Passed,
    Rejected,
    Canceled,
}

/// Why a transaction was not admitted.
#[derive(Clone, Copy, Debug, PartialEq, Eq, Structural)]
pub enum AdmitError {
    /// Larger than the chain's `max_tx_size`.
    Oversized,
    /// Already committed on chain.
    AlreadyOnChain,
    /// The adapter refused its authorization.
    Unauthorized,
    /// The adapter found it invalid.
    InvalidTransaction,
    /// Already pending.
    Duplicate,
    /// The pool has no room for its cycles.
    PoolFull,
    /// The caller's context was canceled during a check.
    Canceled,
}

/// The next thing admission needs.
#[derive(Clone, Copy, Debug, PartialEq, Eq, Structural)]
pub enum AdmitStep {
    /// Run this adapter check and hand its outcome to `admit_on_check`.
    Check(AdapterCheck),
    /// Every check passed: insert with `Mempool::admit_insert`.
    Insert,
    /// Admission ends with this error; the pool is untouched.
    Reject(AdmitError),
}

/// What to do once a transaction was inserted: a local one is broadcast,
/// a relayed one earns its peer a good report. Neither is awaited by
/// admission, and neither undoes the insert.
#[derive(Clone, Copy, Debug, PartialEq, Eq, Structural)]
pub enum FollowUp {
    Broadcast,
    ReportGood,
}

/// The first step of admitting `tx` under `args`.
pub open spec fn admit_start_spec(args: ChainArgs, tx: SignedTransaction) -> AdmitStep {
    if tx.size > args.max_tx_size {
        AdmitStep::Reject(AdmitError::Oversized)
    } else {
        AdmitStep::Check(AdapterCheck::StorageExist)
    }
}

/// The step after `check` answered `outcome`.
pub open spec fn admit_on_check_spec(check: AdapterCheck, outcome: CheckOutcome) -> AdmitStep {
    match outcome {
        CheckOutcome::Canceled => AdmitStep::Reject(AdmitError::Canceled),
        CheckOutcome::Rejected => AdmitStep::Reject(
            match check {
                AdapterCheck::StorageExist => AdmitError::AlreadyOnChain,
                AdapterCheck::Authorization => AdmitError::Unauthorized,
                AdapterCheck::Transaction => AdmitError::InvalidTransaction,
            },
        ),
        CheckOutcome::Passed => match check {
            AdapterCheck::StorageExist => AdmitStep::Check(AdapterCheck::Authorization),
            AdapterCheck::Authorization => AdmitStep::Check(AdapterCheck::Transaction),
            AdapterCheck::Transaction => AdmitStep::Insert,
        },
    }
}

/// Admission starts with the size check against the current chain
/// parameters; only a transaction that fits goes on to the adapter.
pub fn admit_start(args: &ChainArgs, tx: &SignedTransaction) -> (r: AdmitStep)
    ensures
        r == admit_start_spec(*args, *tx),
{
    if tx.size > args.max_tx_size {
        AdmitStep::Reject(AdmitError::Oversized)
    } else {
        AdmitStep::Check(AdapterCheck::StorageExist)
    }
}

/// The step after an adapter check: the first refusal or cancellation ends
/// admission with its error, and a pass moves on to the next check, or to
/// the insert after the last one.
pub fn admit_on_check(check: AdapterCheck, outcome: CheckOutcome) -> (r: AdmitStep)
    ensures
        r == admit_on_check_spec(check, outcome),
{
    match outcome {
        CheckOutcome::Canceled => AdmitStep::Reject(AdmitError::Canceled),
        CheckOutcome::Rejected => AdmitStep::Reject(
            match check {
                AdapterCheck::StorageExist => AdmitError::AlreadyOnChain,
                AdapterCheck::Authorization => AdmitError::Unauthorized,
                AdapterCheck::Transaction => AdmitError::InvalidTransaction,
            },
        ),
        CheckOutcome::Passed => match check {
            AdapterCheck::StorageExist => AdmitStep::Check(AdapterCheck::Authorization),
            AdapterCheck::Authorization => AdmitStep::Check(AdapterCheck::Transaction),
            AdapterCheck::Transaction => AdmitStep::Insert,
        },
    }
}

/// The pool store together with the chain parameters in force.
pub struct Mempool {
    pool: PoolStore,
    args: ChainArgs,
}

impl Mempool {
    pub closed spec fn wf(&self) -> bool {
        self.pool.wf()
    }

    /// The pending transactions, in insertion order.
    pub closed spec fn pending(&self) -> Seq<SignedTransaction> {
        self.pool@
    }

    /// The chain parameters in force.
    pub closed spec fn spec_args(&self) -> ChainArgs {
        self.args
    }

    /// The cycle capacity of the pool.
    pub closed spec fn capacity(&self) -> nat {
        self.pool.spec_capacity()
    }

    /// An empty mempool holding at most `capacity` cycles, under `args`.
    pub fn new(capacity: u64, args: ChainArgs) -> (r: Mempool)
        ensures
            r.wf(),
            r.pending() == Seq::<SignedTransaction>::empty(),
            r.spec_args() == args,
            r.capacity() == capacity,
    {
        Mempool { pool: PoolStore::new(capacity), args }
    }

    /// The chain parameters in force.
    pub fn args(&self) -> (r: ChainArgs)
        ensures
            r == self.spec_args(),
    {
        self.args
    }

    /// Number of pending transactions.
    pub fn len(&self) -> (r: usize)
        ensures
            r == self.pending().len(),
    {
        self.pool.len()
    }

    /// Publishes new chain parameters, replacing the old ones whole. Pending
    /// transactions stay, also those that the new gas limit excludes from
    /// packaging.
    pub fn set_args(&mut self, state_root: [u8; 32], timeout_gap: u64, gas_limit: u64, max_tx_size: u64)
        requires
            old(self).wf(),
        ensures
            final(self).wf(),
            final(self).pending() == old(self).pending(),
            final(self).capacity() == old(self).capacity(),
            final(self).spec_args() == (ChainArgs { state_root, timeout_gap, gas_limit, max_tx_size }),
    {
        self.args = ChainArgs { state_root, timeout_gap, gas_limit, max_tx_size };
    }

    /// Inserts a transaction that passed every adapter check. A hash that is
    /// pending gives `Duplicate` and a pool without room `PoolFull`, with
    /// nothing changed; otherwise the transaction is pending last and the
    /// result says what to do next for its provenance.
    pub fn admit_insert(&mut self, tx: SignedTransaction, provenance: Provenance) -> (r: Result<FollowUp, AdmitError>)
        requires
            old(self).wf(),
        ensures
            final(self).wf(),
            final(self).spec_args() == old(self).spec_args(),
            final(self).capacity() == old(self).capacity(),
            has_hash(old(self).pending(), tx.hash) ==> r == Err::<FollowUp, AdmitError>(AdmitError::Duplicate),
            !has_hash(old(self).pending(), tx.hash) && crate::pool::sum_cycles(old(self).pending()) + tx.cycles
                > old(self).capacity() ==> r == Err::<FollowUp, AdmitError>(AdmitError::PoolFull),
            r is Ok <==> !has_hash(old(self).pending(), tx.hash) && crate::pool::sum_cycles(old(self).pending())
                + tx.cycles <= old(self).capacity(),
            r is Ok ==> final(self).pending() == old(self).pending().push(tx) && r == Ok::<FollowUp, AdmitError>(
                match provenance {
                    Provenance::Local => FollowUp::Broadcast,
                    Provenance::RemoteRelay => FollowUp::ReportGood,
                },
            ),
            r is Err ==> final(self).pending() == old(self).pending(),
    {
        match self.pool.insert(tx) {
            Err(InsertError::Duplicate) => Err(AdmitError::Duplicate),
            Err(InsertError::Full) => Err(AdmitError::PoolFull),
            Ok(()) => match provenance {
                Provenance::Local => Ok(FollowUp::Broadcast),
                Provenance::RemoteRelay => Ok(FollowUp::ReportGood),
            },
        }
    }

    /// The hashes to propose for a block, under the cycle and count limits
    /// and the gas limit in force. Nothing changes.
    pub fn package(&self, cycles_limit: u64, tx_num_limit: u64) -> (r: Vec<TxHash>)
        requires
            self.wf(),
        ensures
            r@ == package_of(
                self.pending(),
                cycles_limit as nat,
                self.spec_args().gas_limit as nat,
                tx_num_limit as nat,
            ),
    {
        self.pool.package(cycles_limit, self.args.gas_limit, tx_num_limit)
    }

    /// Removes committed transactions; hashes that are not pending are
    /// passed over.
    pub fn flush(&mut self, tx_hashes: &[TxHash])
        requires
            old(self).wf(),
        ensures
            final(self).wf(),
            final(self).spec_args() == old(self).spec_args(),
            final(self).capacity() == old(self).capacity(),
            final(self).pending() == without(old(self).pending(), tx_hashes@),
            forall|i: int| 0 <= i < tx_hashes@.len() ==> #[trigger] find_tx(final(self).pending(), tx_hashes@[i]) is None,
    {
        self.pool.remove(tx_hashes);
        proof {
            crate::pool::lemma_lookup_after_remove(old(self).pool@, tx_hashes@);
        }
    }

    /// For each hash, in order, the pending transaction or `None`.
    pub fn lookup(&self, tx_hashes: &[TxHash]) -> (r: Vec<Option<SignedTransaction>>)
        requires
            self.wf(),
        ensures
            r@.len() == tx_hashes@.len(),
            forall|i: int| 0 <= i < tx_hashes@.len() ==> #[trigger] r@[i] == find_tx(self.pending(), tx_hashes@[i]),
    {
        self.pool.lookup(tx_hashes)
    }

    /// Whether a transaction with hash `h` is pending.
    pub fn contains(&self, h: &TxHash) -> (r: bool)
        ensures
            r == has_hash(self.pending(), *h),
    {
        self.pool.contains(h)
    }
}

} // verus!
