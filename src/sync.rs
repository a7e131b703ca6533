//! Reconciling a proposed transaction order with the local pool.
//!
//! `ensure_order_txs` runs as: `ensure_order_start` on the order; when it
//! asks, query storage for the missing hashes and hand the answer to
//! `ensure_order_on_storage`; when that asks, pull the rest from peers, admit
//! each pulled transaction as relayed, and end with `ensure_order_finish`.

use vstd::prelude::*;
use crate::mempool::{AdmitError, Mempool};
use crate::pool::has_hash;
use crate::types::{hash_eq, SignedTransaction, TxHash};

verus! {

/// Why synchronizing an order failed.
#[derive(Clone, Copy, Debug, PartialEq, Eq, Structural)]
pub enum SyncError {
    /// Some hash of the order is still not pending after pulling.
    OrderIncomplete,
    /// Pulling failed more often than the retry budget allows.
    NetworkError,
    /// The caller's context was canceled.
    Canceled,
}

/// The next thing `ensure_order_txs` needs.
pub enum EnsureStep {
    /// Nothing is missing: succeed without any adapter call.
    Done,
    /// Ask storage for these hashes at or below the given height.
    QueryStorage(Vec<TxHash>),
    /// Pull these hashes from peers.
    Pull(Vec<TxHash>),
    /// Fail with this error.
    Fail(SyncError),
}

/// The hashes of `order` that are not pending in `pending`, in order.
pub open spec fn missing_of(pending: Seq<SignedTransaction>, order: Seq<TxHash>) -> Seq<TxHash> {
    order.filter(|h: TxHash| !has_hash(pending, h))
}

/// The hashes of `wanted` for which storage gave nothing, in order.
pub open spec fn unresolved_of(wanted: Seq<TxHash>, stored: Seq<Option<SignedTransaction>>) -> Seq<TxHash>
    decreases wanted.len(),
{
    if wanted.len() == 0 {
        Seq::empty()
    } else {
        let prev = unresolved_of(wanted.drop_last(), stored);
        if stored[wanted.len() - 1] is None {
            prev.push(wanted.last())
        } else {
            prev
        }
    }
}

/// The hashes of `order` that the mempool does not hold, in order.
pub fn missing_hashes(mp: &Mempool, order: &[TxHash]) -> (r: Vec<TxHash>)
    requires
        mp.wf(),
    ensures
        r@ == missing_of(mp.pending(), order@),
{
    let ghost p = |h: TxHash| !has_hash(mp.pending(), h);
    let mut r: Vec<TxHash> = Vec::new();
    let mut i: usize = 0;
    proof {
        reveal_with_fuel(Seq::filter, 1);
        assert(order@.take(0) =~= Seq::<TxHash>::empty());
    }
    while i < order.len()
        invariant
            mp.wf(),
            i <= order@.len(),
            p == (|h: TxHash| !has_hash(mp.pending(), h)),
            r@ == order@.take(i as int).filter(p),
        decreases order@.len() - i,
    {
        proof {
            reveal_with_fuel(Seq::filter, 1);
            assert(order@.take(i + 1).drop_last() =~= order@.take(i as int));
            assert(order@.take(i + 1).last() == order@[i as int]);
        }
        if !mp.contains(&order[i]) {
            r.push(order[i]);
        }
        i = i + 1;
    }
    assert(order@.take(order@.len() as int) =~= order@);
    r
}

/// First step of `ensure_order_txs`: succeed at once, with no adapter call,
/// when every hash of the order is pending; else ask storage for the
/// missing ones.
pub fn ensure_order_start(mp: &Mempool, order: &[TxHash]) -> (r: EnsureStep)
    requires
        mp.wf(),
    ensures
        missing_of(mp.pending(), order@).len() == 0 ==> r is Done,
        missing_of(mp.pending(), order@).len() > 0 ==> (r matches EnsureStep::QueryStorage(hs) && hs@
            == missing_of(mp.pending(), order@)),
{
    let missing = missing_hashes(mp, order);
    if missing.len() == 0 {
        EnsureStep::Done
    } else {
        EnsureStep::QueryStorage(missing)
    }
}

/// Second step: storage answered `stored`, one entry per hash of `wanted`.
/// Succeed when it had them all; else pull the rest.
pub fn ensure_order_on_storage(wanted: &[TxHash], stored: &[Option<SignedTransaction>]) -> (r: EnsureStep)
    requires
        stored@.len() == wanted@.len(),
    ensures
        unresolved_of(wanted@, stored@).len() == 0 ==> r is Done,
        unresolved_of(wanted@, stored@).len() > 0 ==> (r matches EnsureStep::Pull(hs) && hs@
            == unresolved_of(wanted@, stored@)),
{
    let rest = unresolved_hashes(wanted, stored);
    if rest.len() == 0 {
        EnsureStep::Done
    } else {
        EnsureStep::Pull(rest)
    }
}

/// A pull failed on its `attempt`-th try (counting from one): try again
/// while the budget of `max_attempts` allows and the context stands, else
/// fail.
pub fn ensure_order_on_pull_error(wanted: Vec<TxHash>, attempt: u64, max_attempts: u64, canceled: bool) -> (r: EnsureStep)
    ensures
        canceled ==> r == EnsureStep::Fail(SyncError::Canceled),
        !canceled && attempt >= max_attempts ==> r == EnsureStep::Fail(SyncError::NetworkError),
        !canceled && attempt < max_attempts ==> (r matches EnsureStep::Pull(hs) && hs@ == wanted@),
{
    if canceled {
        EnsureStep::Fail(SyncError::Canceled)
    } else if attempt >= max_attempts {
        EnsureStep::Fail(SyncError::NetworkError)
    } else {
        EnsureStep::Pull(wanted)
    }
}

/// Last step, after the pulled transactions went through admission:
/// succeed when each pulled hash is pending now, else the order is
/// incomplete.
pub fn ensure_order_finish(mp: &Mempool, pulled: &[TxHash]) -> (r: EnsureStep)
    requires
        mp.wf(),
    ensures
        missing_of(mp.pending(), pulled@).len() == 0 ==> r is Done,
        missing_of(mp.pending(), pulled@).len() > 0 ==> r == EnsureStep::Fail(SyncError::OrderIncomplete),
{
    let missing = missing_hashes(mp, pulled);
    if missing.len() == 0 {
        EnsureStep::Done
    } else {
        EnsureStep::Fail(SyncError::OrderIncomplete)
    }
}

/// Whether one pulled transaction was admitted for a synchronized order:
/// one already pending counts as admitted.
pub open spec fn admitted_for_sync(r: Result<(), AdmitError>) -> bool {
    match r {
        Ok(()) => true,
        Err(AdmitError::Duplicate) => true,
        Err(_) => false,
    }
}

/// The outcome of `sync_propose_txs` from the admission result of each
/// proposed transaction: the first error other than `Duplicate`, if any.
pub open spec fn propose_outcome(results: Seq<Result<(), AdmitError>>) -> Result<(), AdmitError>
    decreases results.len(),
{
    if results.len() == 0 {
        Ok(())
    } else if admitted_for_sync(results[0]) {
        propose_outcome(results.drop_first())
    } else {
        results[0]
    }
}

/// The result of a batch of relayed admissions: it succeeds when each
/// member was admitted or already pending, and else fails with the first
/// other error.
pub fn sync_propose_outcome(results: &[Result<(), AdmitError>]) -> (r: Result<(), AdmitError>)
    ensures
        r == propose_outcome(results@),
        r is Ok <==> forall|i: int| 0 <= i < results@.len() ==> admitted_for_sync(#[trigger] results@[i]),
{
    let mut i: usize = 0;
    assert(results@.subrange(0, results@.len() as int) =~= results@);
    while i < results.len()
        invariant
            i <= results@.len(),
            propose_outcome(results@.subrange(i as int, results@.len() as int)) == propose_outcome(results@),
            forall|j: int| 0 <= j < i ==> admitted_for_sync(#[trigger] results@[j]),
        decreases results@.len() - i,
    {
        let ghost rest = results@.subrange(i as int, results@.len() as int);
        assert(rest.drop_first() =~= results@.subrange(i + 1, results@.len() as int));
        assert(rest[0] == results@[i as int]);
        match results[i] {
            Ok(()) => {},
            Err(AdmitError::Duplicate) => {},
            Err(e) => {
                return Err(e);
            },
        }
        i = i + 1;
    }
    assert(results@.subrange(i as int, results@.len() as int).len() == 0);
    Ok(())
}

/// The hashes of `wanted` whose entry in `found` is `None`, in order: what
/// is left to fetch after a lookup.
pub fn unresolved_hashes(wanted: &[TxHash], found: &[Option<SignedTransaction>]) -> (r: Vec<TxHash>)
    requires
        found@.len() == wanted@.len(),
    ensures
        r@ == unresolved_of(wanted@, found@),
{
    let mut rest: Vec<TxHash> = Vec::new();
    let mut i: usize = 0;
    while i < wanted.len()
        invariant
            found@.len() == wanted@.len(),
            i <= wanted@.len(),
            rest@ == unresolved_of(wanted@.take(i as int), found@),
        decreases wanted@.len() - i,
    {
        proof {
            assert(wanted@.take(i + 1).drop_last() =~= wanted@.take(i as int));
            assert(wanted@.take(i + 1).last() == wanted@[i as int]);
        }
        if found[i].is_none() {
            rest.push(wanted[i]);
        }
        i = i + 1;
    }
    assert(wanted@.take(wanted@.len() as int) =~= wanted@);
    rest
}

/// Each gap of `pending` filled with the next answer of `stored`, in order;
/// `None` when a gap meets a missing answer or no answer at all.
pub open spec fn fill_gaps(
    pending: Seq<Option<SignedTransaction>>,
    stored: Seq<Option<SignedTransaction>>,
) -> Option<Seq<SignedTransaction>>
    decreases pending.len(),
{
    if pending.len() == 0 {
        Some(Seq::empty())
    } else {
        match pending[0] {
            Some(t) => match fill_gaps(pending.drop_first(), stored) {
                Some(rest) => Some(seq![t] + rest),
                None => None,
            },
            None => if stored.len() == 0 || stored[0] is None {
                None
            } else {
                match fill_gaps(pending.drop_first(), stored.drop_first()) {
                    Some(rest) => Some(seq![stored[0].unwrap()] + rest),
                    None => None,
                }
            },
        }
    }
}

/// Joins a pool lookup with what storage answered for its gaps (asked in
/// the order of `unresolved_hashes`). Succeeds with the transactions in the
/// order of `pending` when every gap is answered, and else fails with the
/// position of a gap that was not.
pub fn fill_from_storage(
    pending: &[Option<SignedTransaction>],
    stored: &[Option<SignedTransaction>],
) -> (r: Result<Vec<SignedTransaction>, usize>)
    ensures
        r is Ok <==> fill_gaps(pending@, stored@) is Some,
        r matches Ok(v) ==> fill_gaps(pending@, stored@) == Some(v@),
        r matches Err(i) ==> i < pending@.len() && pending@[i as int] is None,
{
    let mut out: Vec<SignedTransaction> = Vec::new();
    let mut i: usize = 0;
    let mut j: usize = 0;
    assert(pending@.subrange(0, pending@.len() as int) =~= pending@);
    assert(stored@.subrange(0, stored@.len() as int) =~= stored@);
    while i < pending.len()
        invariant
            i <= pending@.len(),
            j <= stored@.len(),
            fill_gaps(pending@, stored@) == match fill_gaps(
                pending@.subrange(i as int, pending@.len() as int),
                stored@.subrange(j as int, stored@.len() as int),
            ) {
                Some(rest) => Some(out@ + rest),
                None => None::<Seq<SignedTransaction>>,
            },
        decreases pending@.len() - i,
    {
        let ghost p = pending@.subrange(i as int, pending@.len() as int);
        let ghost q = stored@.subrange(j as int, stored@.len() as int);
        assert(p.drop_first() =~= pending@.subrange(i + 1, pending@.len() as int));
        assert(p[0] == pending@[i as int]);
        match pending[i] {
            Some(t) => {
                proof {
                    match fill_gaps(p.drop_first(), q) {
                        Some(rest) => {
                            assert(out@.push(t) + rest =~= out@ + (seq![t] + rest));
                        },
                        None => {},
                    }
                }
                out.push(t);
            },
            None => {
                if j >= stored.len() {
                    return Err(i);
                }
                match stored[j] {
                    None => {
                        assert(q[0] == stored@[j as int]);
                        return Err(i);
                    },
                    Some(t) => {
                        proof {
                            assert(q[0] == stored@[j as int]);
                            assert(q.drop_first() =~= stored@.subrange(j + 1, stored@.len() as int));
                            match fill_gaps(p.drop_first(), q.drop_first()) {
                                Some(rest) => {
                                    assert(out@.push(t) + rest =~= out@ + (seq![t] + rest));
                                },
                                None => {},
                            }
                        }
                        out.push(t);
                        j = j + 1;
                    },
                }
            },
        }
        i = i + 1;
    }
    proof {
        assert(pending@.subrange(i as int, pending@.len() as int).len() == 0);
        assert(out@ + Seq::<SignedTransaction>::empty() =~= out@);
    }
    Ok(out)
}

/// Once every hash of an order is pending, `ensure_order_txs` on it again
/// succeeds at its first step, with no adapter call.
pub proof fn lemma_ensure_order_idempotent(pending: Seq<SignedTransaction>, order: Seq<TxHash>)
    requires
        forall|i: int| 0 <= i < order.len() ==> has_hash(pending, #[trigger] order[i]),
    ensures
        missing_of(pending, order).len() == 0,
    decreases order.len(),
{
    reveal_with_fuel(Seq::filter, 1);
    if order.len() > 0 {
        lemma_ensure_order_idempotent(pending, order.drop_last());
        assert(has_hash(pending, order[order.len() - 1]));
    }
}

} // verus!
