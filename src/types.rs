//! Transactions, their hashes and the chain parameters that gate them.

use vstd::prelude::*;

verus! {

/// Width in bytes of a transaction hash.
pub const HASH_LEN: usize = 32;

/// Fixed-width content identifier of a transaction: the pool's only key.
pub type TxHash = [u8; 32];

/// A signed transaction as the pool sees it. The signature and payload are
/// checked by the adapter; the pool reads the hash, the declared cycle cost
/// and the byte size.
#[derive(Clone, Copy, Debug, PartialEq, Eq)]
pub struct SignedTransaction {
    pub hash: TxHash,
    pub sender: [u8; 20],
    pub nonce: u64,
    pub cycles: u64,
    pub size: u64,
}

/// Chain parameters, published as one value and replaced whole.
#[derive(Clone, Copy, Debug, PartialEq, Eq)]
pub struct ChainArgs {
    pub state_root: [u8; 32],
    pub timeout_gap: u64,
    pub gas_limit: u64,
    pub max_tx_size: u64,
}

/// Whether two hashes are the same.
pub fn hash_eq(a: &TxHash, b: &TxHash) -> (r: bool)
    ensures
        r == (*a == *b),
{
    let mut i: usize = 0;
    while i < HASH_LEN
        invariant
            i <= HASH_LEN,
            forall|j: int| 0 <= j < i ==> a[j] == b[j],
        decreases HASH_LEN - i,
    {
        if a[i] != b[i] {
            return false;
        }
        i = i + 1;
    }
    assert(*a =~= *b);
    true
}

} // verus!
