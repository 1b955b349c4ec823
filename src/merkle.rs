//! The Merkle root of a block's transactions.
use crate::hash::{enc_u256, hash_of_bytes, put_u256};
use crate::types::{transaction_hash, Transaction, TxView};
use vstd::prelude::*;

verus! {

/// H(left ‖ right) for two child hashes.
pub open spec fn pair_hash(a: crate::hash::Hash, b: crate::hash::Hash) -> crate::hash::Hash {
    hash_of_bytes(enc_u256(a.num) + enc_u256(b.num))
}

/// The level above `l`: neighbours paired left to right, the last one paired
/// with itself where the count is odd.
pub open spec fn next_level(l: Seq<crate::hash::Hash>) -> Seq<crate::hash::Hash> {
    Seq::new(
        ((l.len() + 1) / 2) as nat,
        |i: int|
            pair_hash(
                l[2 * i],
                if 2 * i + 1 < l.len() {
                    l[2 * i + 1]
                } else {
                    l[2 * i]
                },
            ),
    )
}

/// The root over a level of hashes; zero over none.
pub open spec fn root_of_level(l: Seq<crate::hash::Hash>) -> crate::hash::Hash
    decreases l.len(),
{
    if l.len() == 0 {
        crate::hash::Hash::spec_zero()
    } else if l.len() == 1 {
        l[0]
    } else {
        root_of_level(next_level(l))
    }
}

/// MerkleRoot(transactions): the root over the transactions' hashes.
pub open spec fn merkle_root_of(txs: Seq<TxView>) -> crate::hash::Hash {
    root_of_level(txs.map_values(|t: TxView| transaction_hash(t)))
}

fn hash_pair(a: &crate::hash::Hash, b: &crate::hash::Hash) -> (r: crate::hash::Hash)
    ensures
        r == pair_hash(*a, *b),
{
    let mut out: Vec<u8> = Vec::new();
    put_u256(&mut out, &a.num);
    put_u256(&mut out, &b.num);
    crate::hash::Hash::of_bytes(out.as_slice())
}

fn level_up(l: &Vec<crate::hash::Hash>) -> (r: Vec<crate::hash::Hash>)
    ensures
        r@ == next_level(l@),
{
    let n = l.len();
    let half = n / 2 + n % 2;
    assert(half == (l@.len() + 1) / 2);
    let mut r: Vec<crate::hash::Hash> = Vec::new();
    let mut j: usize = 0;
    while j < half
        invariant
            n == l@.len(),
            half == (n + 1) / 2,
            j <= half,
            r@.len() == j,
            forall|k: int| 0 <= k < j ==> #[trigger] r@[k] == next_level(l@)[k],
        decreases half - j,
    {
        let i = 2 * j;
        let left = l[i];
        let right = if i + 1 < n {
            l[i + 1]
        } else {
            l[i]
        };
        r.push(hash_pair(&left, &right));
        j += 1;
    }
    assert(r@ =~= next_level(l@));
    r
}

/// MerkleRoot(transactions).
pub fn merkle_root(txs: &Vec<Transaction>) -> (r: crate::hash::Hash)
    ensures
        r == merkle_root_of(txs@.map_values(|t: Transaction| t@)),
{
    let mut level: Vec<crate::hash::Hash> = Vec::new();
    let mut i: usize = 0;
    while i < txs.len()
        invariant
            i <= txs@.len(),
            level@ =~= txs@.subrange(0, i as int).map_values(|t: Transaction| transaction_hash(t@)),
        decreases txs@.len() - i,
    {
        level.push(txs[i].hash());
        i += 1;
    }
    assert(txs@.subrange(0, txs@.len() as int) =~= txs@);
    assert(level@ =~= txs@.map_values(|t: Transaction| t@).map_values(|t: TxView| transaction_hash(t)));
    if level.len() == 0 {
        return crate::hash::Hash::zero();
    }
    while level.len() > 1
        invariant
            level@.len() >= 1,
            root_of_level(level@) == merkle_root_of(txs@.map_values(|t: Transaction| t@)),
        decreases level@.len(),
    {
        level = level_up(&level);
    }
    level[0]
}

} // verus!
