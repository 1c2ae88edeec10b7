//! The balanced binary merkle root over an ordered run of leaf hashes.
//!
//! The fold works on a queue: the front two hashes are combined
//! (concatenated, then hashed) and the result pushed to the back, until a
//! single hash remains. An odd run first duplicates its last leaf. The
//! queue order is the block's stable transaction order, which keeps roots
//! reproducible.

use vstd::prelude::*;
use crate::digest::{hash_hex_of, hash_bytes};
use crate::tx::{Transaction, TxView, tx_hash, hash_transaction};
use crate::util::{copy_bytes, extend_bytes};

verus! {

/// Folds a queue of pending hashes down to one: the front two are
/// combined and pushed to the back until a single hash remains.
pub open spec fn merkle_fold(level: Seq<Seq<u8>>) -> Seq<u8>
    recommends
        level.len() >= 1,
    decreases level.len(),
{
    if level.len() <= 1 {
        level[0]
    } else {
        merkle_fold(level.drop_first().drop_first().push(hash_hex_of(level[0] + level[1])))
    }
}

/// The merkle root over an ordered, nonempty run of leaf hashes: an odd
/// run duplicates its last leaf, then the queue is folded to one hash.
pub open spec fn merkle_root_of(leaves: Seq<Seq<u8>>) -> Seq<u8>
    recommends
        leaves.len() >= 1,
{
    if leaves.len() % 2 == 1 {
        merkle_fold(leaves.push(leaves.last()))
    } else {
        merkle_fold(leaves)
    }
}

/// The merkle leaves of a run of transactions: each one's content hash,
/// in the run's order.
pub open spec fn leaves_of(ts: Seq<TxView>) -> Seq<Seq<u8>> {
    Seq::new(ts.len(), |k: int| tx_hash(ts[k]))
}

/// The merkle root a block over these transactions commits to.
pub open spec fn merkle_of_txs(ts: Seq<TxView>) -> Seq<u8>
    recommends
        ts.len() >= 1,
{
    merkle_root_of(leaves_of(ts))
}

/// Computes the merkle root over a nonempty run of leaf hashes.
pub fn merkle_root(leaves: Vec<Vec<u8>>) -> (r: Vec<u8>)
    requires
        leaves@.len() >= 1,
    ensures
        r@ == merkle_root_of(Seq::new(leaves@.len(), |k: int| leaves@[k]@)),
{
    let ghost leaves0 = Seq::new(leaves@.len(), |k: int| leaves@[k]@);
    let mut level = leaves;
    if level.len() % 2 == 1 {
        let last = copy_bytes(level[level.len() - 1].as_slice());
        level.push(last);
        proof {
            assert(Seq::new(level@.len(), |k: int| level@[k]@) =~= leaves0.push(leaves0.last()));
        }
    }
    let ghost target = merkle_fold(Seq::new(level@.len(), |k: int| level@[k]@));
    proof {
        if leaves0.len() % 2 == 0 {
            assert(Seq::new(level@.len(), |k: int| level@[k]@) =~= leaves0);
        }
        assert(target == merkle_root_of(leaves0));
    }
    while level.len() > 1
        invariant
            level@.len() >= 1,
            merkle_fold(Seq::new(level@.len(), |k: int| level@[k]@)) == target,
        decreases level@.len(),
    {
        let ghost ov = Seq::new(level@.len(), |k: int| level@[k]@);
        let h1 = level.remove(0);
        let h2 = level.remove(0);
        let mut cat = h1;
        extend_bytes(&mut cat, h2.as_slice());
        let nh = hash_bytes(cat.as_slice());
        level.push(nh);
        proof {
            assert(Seq::new(level@.len(), |k: int| level@[k]@) =~= ov.drop_first().drop_first()
                .push(hash_hex_of(ov[0] + ov[1])));
        }
    }
    proof {
        let fv = Seq::new(level@.len(), |k: int| level@[k]@);
        assert(merkle_fold(fv) == fv[0]);
    }
    let r = match level.pop() {
        Some(h) => h,
        None => unreached(),
    };
    r
}

/// Computes the merkle root of a nonempty run of transactions from their
/// content hashes.
pub fn merkle_root_of_transactions(txs: &Vec<Transaction>) -> (r: Vec<u8>)
    requires
        txs@.len() >= 1,
    ensures
        r@ == merkle_of_txs(Seq::new(txs@.len(), |k: int| txs@[k]@)),
{
    let mut hashes: Vec<Vec<u8>> = Vec::new();
    let mut k: usize = 0;
    while k < txs.len()
        invariant
            k <= txs@.len(),
            hashes@.len() == k,
            forall|j: int| 0 <= j < k ==> hashes@[j]@ == tx_hash(#[trigger] txs@[j]@),
        decreases txs@.len() - k,
    {
        hashes.push(hash_transaction(&txs[k]));
        k = k + 1;
    }
    proof {
        assert(Seq::new(hashes@.len(), |j: int| hashes@[j]@) =~= leaves_of(
            Seq::new(txs@.len(), |j: int| txs@[j]@),
        ));
    }
    merkle_root(hashes)
}

} // verus!
