use mempool_core::mempool::{
    admit_on_check, admit_start, AdapterCheck, AdmitError, AdmitStep, CheckOutcome, FollowUp,
    Mempool, Provenance,
};
use mempool_core::pool::{InsertError, PoolStore};
use mempool_core::sync::{
    ensure_order_finish, ensure_order_on_pull_error, ensure_order_on_storage, ensure_order_start,
    fill_from_storage, missing_hashes, unresolved_hashes, sync_propose_outcome, EnsureStep, SyncError,
};
use mempool_core::types::{hash_eq, ChainArgs, SignedTransaction, TxHash};

fn h(n: u8) -> TxHash {
    [n; 32]
}

fn tx(n: u8, cycles: u64) -> SignedTransaction {
    SignedTransaction { hash: h(n), sender: [n; 20], nonce: n as u64, cycles, size: 100 }
}

fn args(gas_limit: u64) -> ChainArgs {
    ChainArgs { state_root: [0; 32], timeout_gap: 20, gas_limit, max_tx_size: 1024 }
}

fn pool_with(txs: &[SignedTransaction]) -> Mempool {
    let mut mp = Mempool::new(1_000_000, args(1000));
    for t in txs {
        assert!(mp.admit_insert(*t, Provenance::Local).is_ok());
    }
    mp
}

#[test]
fn hash_eq_compares_every_byte() {
    let a = h(1);
    let mut b = h(1);
    assert!(hash_eq(&a, &b));
    b[31] = 2;
    assert!(!hash_eq(&a, &b));
}

#[test]
fn package_skips_what_does_not_fit() {
    let mp = pool_with(&[tx(1, 10), tx(2, 95)]);
    assert_eq!(mp.package(100, 10), vec![h(1)]);
}

#[test]
fn package_passes_over_a_tx_larger_than_the_limit() {
    let mp = pool_with(&[tx(1, 150), tx(2, 30), tx(3, 40)]);
    assert_eq!(mp.package(100, 10), vec![h(2), h(3)]);
    assert_eq!(mp.len(), 3);
}

#[test]
fn package_respects_count_and_cycle_limits() {
    let mp = pool_with(&[tx(1, 20), tx(2, 30), tx(3, 40), tx(4, 5)]);
    let r = mp.package(100, 2);
    assert_eq!(r, vec![h(1), h(2)]);
    let r = mp.package(60, 10);
    assert_eq!(r, vec![h(1), h(2)]);
    let total: u64 = mp.lookup(&r).iter().map(|t| t.unwrap().cycles).sum();
    assert!(total <= 60);
    assert_eq!(mp.package(100, 0), Vec::<TxHash>::new());
}

#[test]
fn package_is_deterministic() {
    let mp = pool_with(&[tx(1, 20), tx(2, 30), tx(3, 40)]);
    let a = mp.package(80, 5);
    let b = mp.package(80, 5);
    assert_eq!(a, b);
    assert_eq!(a, vec![h(1), h(2)]);
}

#[test]
fn insert_same_hash_twice_is_duplicate() {
    let mut mp = Mempool::new(1000, args(1000));
    assert_eq!(mp.admit_insert(tx(7, 10), Provenance::Local), Ok(FollowUp::Broadcast));
    assert_eq!(mp.admit_insert(tx(7, 10), Provenance::RemoteRelay), Err(AdmitError::Duplicate));
    assert_eq!(mp.len(), 1);
}

#[test]
fn relayed_insert_reports_good_peer() {
    let mut mp = Mempool::new(1000, args(1000));
    assert_eq!(mp.admit_insert(tx(3, 10), Provenance::RemoteRelay), Ok(FollowUp::ReportGood));
}

#[test]
fn insert_over_capacity_is_full() {
    let mut mp = Mempool::new(100, args(1000));
    assert!(mp.admit_insert(tx(1, 60), Provenance::Local).is_ok());
    assert_eq!(mp.admit_insert(tx(2, 41), Provenance::Local), Err(AdmitError::PoolFull));
    assert!(mp.admit_insert(tx(3, 40), Provenance::Local).is_ok());
    assert_eq!(mp.len(), 2);
}

#[test]
fn pool_store_insert_errors() {
    let mut p = PoolStore::new(50);
    assert_eq!(p.insert(tx(1, 50)), Ok(()));
    assert_eq!(p.insert(tx(1, 0)), Err(InsertError::Duplicate));
    assert_eq!(p.insert(tx(2, 1)), Err(InsertError::Full));
    assert_eq!(p.total_cycles(), 50);
}

#[test]
fn flush_then_lookup_finds_nothing() {
    let mut mp = pool_with(&[tx(1, 10), tx(2, 20), tx(3, 30)]);
    mp.flush(&[h(2), h(9)]);
    assert_eq!(mp.lookup(&[h(2), h(9)]), vec![None, None]);
    assert_eq!(mp.lookup(&[h(3), h(1)]), vec![Some(tx(3, 30)), Some(tx(1, 10))]);
    assert_eq!(mp.len(), 2);
    mp.flush(&[h(2)]);
    assert_eq!(mp.len(), 2);
}

#[test]
fn flush_frees_capacity() {
    let mut mp = Mempool::new(100, args(1000));
    assert!(mp.admit_insert(tx(1, 100), Provenance::Local).is_ok());
    mp.flush(&[h(1)]);
    assert!(mp.admit_insert(tx(2, 100), Provenance::Local).is_ok());
}

#[test]
fn lower_gas_limit_excludes_but_keeps_tx() {
    let mut mp = pool_with(&[tx(1, 80)]);
    assert_eq!(mp.package(1000, 10), vec![h(1)]);
    mp.set_args([1; 32], 20, 50, 1024);
    assert_eq!(mp.args().gas_limit, 50);
    assert_eq!(mp.package(1000, 10), Vec::<TxHash>::new());
    assert_eq!(mp.lookup(&[h(1)]), vec![Some(tx(1, 80))]);
}

#[test]
fn admission_rejects_oversized_tx() {
    let mut t = tx(1, 10);
    t.size = 2000;
    assert_eq!(admit_start(&args(1000), &t), AdmitStep::Reject(AdmitError::Oversized));
    t.size = 1024;
    assert_eq!(admit_start(&args(1000), &t), AdmitStep::Check(AdapterCheck::StorageExist));
}

#[test]
fn admission_runs_checks_in_order() {
    assert_eq!(admit_on_check(AdapterCheck::StorageExist, CheckOutcome::Passed), AdmitStep::Check(AdapterCheck::Authorization));
    assert_eq!(admit_on_check(AdapterCheck::Authorization, CheckOutcome::Passed), AdmitStep::Check(AdapterCheck::Transaction));
    assert_eq!(admit_on_check(AdapterCheck::Transaction, CheckOutcome::Passed), AdmitStep::Insert);
}

#[test]
fn admission_classifies_each_refusal() {
    assert_eq!(
        admit_on_check(AdapterCheck::StorageExist, CheckOutcome::Rejected),
        AdmitStep::Reject(AdmitError::AlreadyOnChain)
    );
    assert_eq!(
        admit_on_check(AdapterCheck::Authorization, CheckOutcome::Rejected),
        AdmitStep::Reject(AdmitError::Unauthorized)
    );
    assert_eq!(
        admit_on_check(AdapterCheck::Transaction, CheckOutcome::Rejected),
        AdmitStep::Reject(AdmitError::InvalidTransaction)
    );
    assert_eq!(
        admit_on_check(AdapterCheck::Authorization, CheckOutcome::Canceled),
        AdmitStep::Reject(AdmitError::Canceled)
    );
}

#[test]
fn ensure_order_with_everything_pending_needs_no_adapter() {
    let mp = pool_with(&[tx(1, 10), tx(2, 20)]);
    assert!(matches!(ensure_order_start(&mp, &[h(2), h(1)]), EnsureStep::Done));
    assert!(matches!(ensure_order_start(&mp, &[h(2), h(1)]), EnsureStep::Done));
}

#[test]
fn ensure_order_pulls_the_one_missing_hash() {
    let mut mp = pool_with(&[tx(1, 10), tx(2, 20)]);
    let order = [h(1), h(3), h(2)];
    let wanted = match ensure_order_start(&mp, &order) {
        EnsureStep::QueryStorage(hs) => hs,
        _ => panic!("expected a storage query"),
    };
    assert_eq!(wanted, vec![h(3)]);
    let pulled = match ensure_order_on_storage(&wanted, &[None]) {
        EnsureStep::Pull(hs) => hs,
        _ => panic!("expected a pull"),
    };
    assert_eq!(pulled, vec![h(3)]);
    let t = tx(3, 30);
    assert_eq!(admit_start(&mp.args(), &t), AdmitStep::Check(AdapterCheck::StorageExist));
    assert_eq!(mp.admit_insert(t, Provenance::RemoteRelay), Ok(FollowUp::ReportGood));
    assert!(matches!(ensure_order_finish(&mp, &pulled), EnsureStep::Done));
    assert_eq!(mp.lookup(&[h(3)]), vec![Some(t)]);
    assert!(matches!(ensure_order_start(&mp, &order), EnsureStep::Done));
}

#[test]
fn ensure_order_done_when_storage_has_all() {
    let stored = [Some(tx(4, 1)), Some(tx(5, 1))];
    assert!(matches!(ensure_order_on_storage(&[h(4), h(5)], &stored), EnsureStep::Done));
    match ensure_order_on_storage(&[h(4), h(5)], &[Some(tx(4, 1)), None]) {
        EnsureStep::Pull(hs) => assert_eq!(hs, vec![h(5)]),
        _ => panic!("expected a pull"),
    }
}

#[test]
fn ensure_order_incomplete_after_pull() {
    let mp = pool_with(&[tx(1, 10)]);
    assert!(matches!(
        ensure_order_finish(&mp, &[h(1), h(8)]),
        EnsureStep::Fail(SyncError::OrderIncomplete)
    ));
}

#[test]
fn pull_errors_retry_within_budget() {
    match ensure_order_on_pull_error(vec![h(1)], 1, 3, false) {
        EnsureStep::Pull(hs) => assert_eq!(hs, vec![h(1)]),
        _ => panic!("expected a retry"),
    }
    assert!(matches!(
        ensure_order_on_pull_error(vec![h(1)], 3, 3, false),
        EnsureStep::Fail(SyncError::NetworkError)
    ));
    assert!(matches!(
        ensure_order_on_pull_error(vec![h(1)], 1, 3, true),
        EnsureStep::Fail(SyncError::Canceled)
    ));
}

#[test]
fn missing_hashes_keeps_order() {
    let mp = pool_with(&[tx(2, 10)]);
    assert_eq!(missing_hashes(&mp, &[h(3), h(2), h(1)]), vec![h(3), h(1)]);
}

#[test]
fn sync_propose_tolerates_duplicates() {
    assert_eq!(sync_propose_outcome(&[Ok(()), Err(AdmitError::Duplicate), Ok(())]), Ok(()));
    assert_eq!(
        sync_propose_outcome(&[
            Err(AdmitError::Duplicate),
            Err(AdmitError::Unauthorized),
            Err(AdmitError::PoolFull)
        ]),
        Err(AdmitError::Unauthorized)
    );
    assert_eq!(sync_propose_outcome(&[]), Ok(()));
}

#[test]
fn unresolved_hashes_lists_the_gaps() {
    let mp = pool_with(&[tx(1, 10)]);
    let wanted = [h(1), h(2), h(3)];
    let found = mp.lookup(&wanted);
    assert_eq!(unresolved_hashes(&wanted, &found), vec![h(2), h(3)]);
}

#[test]
fn fill_from_storage_fills_gaps_in_order() {
    let pending = [Some(tx(1, 1)), None, Some(tx(3, 3)), None];
    let stored = [Some(tx(2, 2)), Some(tx(4, 4))];
    assert_eq!(
        fill_from_storage(&pending, &stored),
        Ok(vec![tx(1, 1), tx(2, 2), tx(3, 3), tx(4, 4)])
    );
}

#[test]
fn fill_from_storage_reports_an_unanswered_gap() {
    let pending = [Some(tx(1, 1)), None, None];
    assert_eq!(fill_from_storage(&pending, &[Some(tx(2, 2)), None]), Err(2));
    assert_eq!(fill_from_storage(&pending, &[Some(tx(2, 2))]), Err(2));
    assert_eq!(fill_from_storage(&[], &[]), Ok(vec![]));
}
