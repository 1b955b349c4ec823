//! Consensus constants and the rules that a block's transactions must meet.
use crate::crypto::signed_message;
use crate::primitives::signature_verifies;
use crate::types::{InputView, Transaction, TransactionInput, TransactionOutput, TxView};
use crate::uint::U256;
use crate::utxo::UtxoSet;
use vstd::arithmetic::power2::pow2;
use vstd::bits::lemma_u64_shr_is_div;
use vstd::prelude::*;

verus! {

/// Whole coins paid by the first blocks.
pub const INITIAL_REWARD: u64 = 50;

/// Blocks between halvings of the reward.
pub const HALVING_INTERVAL: u64 = 210;

/// Seconds one block should take.
pub const IDEAL_BLOCK_TIME: u64 = 10;

/// Blocks between difficulty adjustments.
pub const DIFFICULTY_UPDATE_INTERVAL: u64 = 50;

/// Seconds a pending transaction may wait before it is dropped.
pub const MAX_MEMPOOL_TRANSACTION_AGE: u64 = 600;

/// The most pending transactions a block template carries.
pub const BLOCK_TRANSACTION_CAP: usize = 20;

/// Satoshis in one coin.
pub const SATS_PER_COIN: u64 = 100_000_000;

/// Nanoseconds in one second.
pub const NANOS_PER_SECOND: i64 = 1_000_000_000;

/// The easiest target a block may have.
pub open spec fn spec_min_target() -> U256 {
    U256 { w0: 0xFFFF_FFFF_FFFF_FFFF, w1: 0xFFFF_FFFF_FFFF_FFFF, w2: 0xFFFF_FFFF_FFFF_FFFF, w3: 0x0000_FFFF_FFFF_FFFF }
}

/// The easiest target a block may have.
pub fn min_target() -> (r: U256)
    ensures
        r == spec_min_target(),
{
    U256 { w0: 0xFFFF_FFFF_FFFF_FFFF, w1: 0xFFFF_FFFF_FFFF_FFFF, w2: 0xFFFF_FFFF_FFFF_FFFF, w3: 0x0000_FFFF_FFFF_FFFF }
}

/// Why a block or transaction was refused.
#[derive(Clone, Copy, Debug, PartialEq, Eq, Structural)]
pub enum BtcError {
    InvalidBlock,
    InvalidMerkleRoot,
    InvalidTransaction,
}

/// Unspent outputs by key, with their reservation marks.
pub type UtxoMap = Map<crate::hash::Hash, (bool, TransactionOutput)>;

/// Σ of the values of the outputs that `ins` spend.
pub open spec fn input_value(ins: Seq<InputView>, m: UtxoMap) -> int
    decreases ins.len(),
{
    if ins.len() == 0 {
        0
    } else {
        input_value(ins.drop_last(), m) + m[ins.last().prev].1.value
    }
}

/// Σ of the values of `outs`.
pub open spec fn output_value(outs: Seq<TransactionOutput>) -> int
    decreases outs.len(),
{
    if outs.len() == 0 {
        0
    } else {
        output_value(outs.drop_last()) + outs.last().value
    }
}

/// The miner fee of a transaction: Σ inputs − Σ outputs.
pub open spec fn fee(t: TxView, m: UtxoMap) -> int {
    input_value(t.inputs, m) - output_value(t.outputs)
}

/// Σ of the fees of `txs`.
pub open spec fn fees_of(txs: Seq<TxView>, m: UtxoMap) -> int
    decreases txs.len(),
{
    if txs.len() == 0 {
        0
    } else {
        fees_of(txs.drop_last(), m) + fee(txs.last(), m)
    }
}

/// Every input of `t` names an unspent output.
pub open spec fn inputs_exist(t: TxView, m: UtxoMap) -> bool {
    forall|k: int| 0 <= k < t.inputs.len() ==> #[trigger] m.contains_key(t.inputs[k].prev)
}

/// No two inputs of `t` name the same output.
pub open spec fn inputs_distinct(t: TxView) -> bool {
    forall|a: int, b: int|
        0 <= a < b < t.inputs.len() ==> #[trigger] t.inputs[a].prev != #[trigger] t.inputs[b].prev
}

/// Every input's signature signs the output hash it names under its key.
pub open spec fn signatures_valid(t: TxView) -> bool {
    forall|k: int|
        0 <= k < t.inputs.len() ==> #[trigger] signature_verifies(
            t.inputs[k].public_key,
            signed_message(t.inputs[k].prev),
            t.inputs[k].signature,
        )
}

/// No output is spent twice across `txs`.
pub open spec fn no_double_spend(txs: Seq<TxView>) -> bool {
    forall|i1: int, k1: int, i2: int, k2: int|
        0 <= i1 < txs.len() && 0 <= i2 < txs.len() && 0 <= k1 < txs[i1].inputs.len() && 0 <= k2
            < txs[i2].inputs.len() && (i1 != i2 || k1 != k2) ==> #[trigger] txs[i1].inputs[k1].prev
            != #[trigger] txs[i2].inputs[k2].prev
}

/// The reward of the block at `height`, in satoshis:
/// `(INITIAL_REWARD × 10⁸) >> (height / HALVING_INTERVAL)`.
pub open spec fn block_reward(height: nat) -> nat {
    let halvings = height / HALVING_INTERVAL as nat;
    if halvings >= 64 {
        0
    } else {
        (INITIAL_REWARD * SATS_PER_COIN) as nat / pow2(halvings)
    }
}

/// The transaction rules for a block at `height` over the unspent outputs `m`:
/// one coinbase, first; every other transaction spends existing outputs,
/// signed, none twice, no more than it has; the coinbase pays at most the
/// reward plus the fees.
pub open spec fn transactions_valid(txs: Seq<TxView>, height: nat, m: UtxoMap) -> bool {
    let rest = txs.subrange(1, txs.len() as int);
    &&& txs.len() > 0
    &&& txs[0].inputs.len() == 0
    &&& forall|i: int| 0 <= i < rest.len() ==> #[trigger] rest[i].inputs.len() > 0
    &&& forall|i: int| 0 <= i < rest.len() ==> inputs_exist(#[trigger] rest[i], m)
    &&& forall|i: int| 0 <= i < rest.len() ==> signatures_valid(#[trigger] rest[i])
    &&& no_double_spend(rest)
    &&& forall|i: int| 0 <= i < rest.len() ==> fee(#[trigger] rest[i], m) >= 0
    &&& output_value(txs[0].outputs) <= block_reward(height) + fees_of(rest, m)
}

/// The reward of the block at `height`.
pub fn calculate_block_reward(height: u64) -> (r: u64)
    ensures
        r == block_reward(height as nat),
{
    let halvings = height / HALVING_INTERVAL;
    if halvings >= 64 {
        0
    } else {
        let base: u64 = INITIAL_REWARD * SATS_PER_COIN;
        proof {
            lemma_u64_shr_is_div(base, halvings);
        }
        base >> halvings
    }
}

/// Σ of the values of `outs`, without overflow.
pub fn sum_outputs(outs: &Vec<TransactionOutput>) -> (r: u128)
    ensures
        r == output_value(outs@),
{
    let mut sum: u128 = 0;
    let mut i: usize = 0;
    while i < outs.len()
        invariant
            i <= outs@.len(),
            sum == output_value(outs@.subrange(0, i as int)),
            sum <= i * 0xFFFF_FFFF_FFFF_FFFFu128,
        decreases outs@.len() - i,
    {
        proof {
            assert(outs@.subrange(0, i + 1).drop_last() =~= outs@.subrange(0, i as int));
            assert((i + 1) * 0xFFFF_FFFF_FFFF_FFFFu128 <= 0xFFFF_FFFF_FFFF_FFFFu128
                * 0xFFFF_FFFF_FFFF_FFFFu128) by (nonlinear_arith)
                requires
                    i < outs@.len(),
                    outs@.len() <= usize::MAX,
            ;
        }
        sum = sum + outs[i].value as u128;
        i += 1;
    }
    assert(outs@.subrange(0, outs@.len() as int) =~= outs@);
    sum
}

/// Whether `h` stands in `seen`.
pub fn seen_contains(seen: &Vec<crate::hash::Hash>, h: &crate::hash::Hash) -> (r: bool)
    ensures
        r == seen@.contains(*h),
{
    let mut i: usize = 0;
    while i < seen.len()
        invariant
            i <= seen@.len(),
            forall|k: int| 0 <= k < i ==> seen@[k] != *h,
        decreases seen@.len() - i,
    {
        if seen[i].equals(h) {
            return true;
        }
        i += 1;
    }
    false
}

/// Checks one input: it names an unspent output not in `seen`, and its
/// signature holds; gives that output's value.
fn check_input(input: &TransactionInput, utxos: &UtxoSet, seen: &Vec<crate::hash::Hash>) -> (r:
    Option<u64>)
    requires
        utxos.wf(),
    ensures
        r.is_some() <==> {
            &&& utxos@.contains_key(input@.prev)
            &&& !seen@.contains(input@.prev)
            &&& signature_verifies(input@.public_key, signed_message(input@.prev), input@.signature)
        },
        r.is_some() ==> r.unwrap() == utxos@[input@.prev].1.value,
{
    let prev = input.prev_transaction_output_hash;
    let value = match utxos.get(&prev) {
        Some(u) => u.output.value,
        None => {
            return None;
        },
    };
    if seen_contains(seen, &prev) {
        return None;
    }
    if !input.signature.verify(&prev, &input.public_key) {
        return None;
    }
    Some(value)
}

/// Checks one non-coinbase transaction against the unspent outputs and the
/// outputs `seen` spent so far in the block; on success gives its fee and
/// adds its inputs to `seen`.
#[verifier::rlimit(40)]
fn check_spending(tx: &Transaction, utxos: &UtxoSet, seen: &mut Vec<crate::hash::Hash>) -> (r: Option<
    u128,
>)
    requires
        utxos.wf(),
    ensures
        r.is_some() <==> {
            &&& inputs_exist(tx@, utxos@)
            &&& signatures_valid(tx@)
            &&& inputs_distinct(tx@)
            &&& forall|k: int| 0 <= k < tx@.inputs.len() ==> !old(seen)@.contains(
                #[trigger] tx@.inputs[k].prev,
            )
            &&& fee(tx@, utxos@) >= 0
        },
        r.is_some() ==> r.unwrap() == fee(tx@, utxos@),
        r.is_some() ==> final(seen)@.len() == old(seen)@.len() + tx@.inputs.len(),
        r.is_some() ==> forall|j: int| 0 <= j < old(seen)@.len() ==> #[trigger] final(seen)@[j] == old(seen)@[j],
        r.is_some() ==> forall|j: int| 0 <= j < tx@.inputs.len() ==> final(seen)@[old(seen)@.len() + j] == #[trigger] tx@.inputs[j].prev,
{
    let ghost t = tx@;
    let ghost m = utxos@;
    let ghost start = seen@;
    let mut in_sum: u128 = 0;
    let mut k: usize = 0;
    while k < tx.inputs.len()
        invariant
            t == tx@,
            m == utxos@,
            start == old(seen)@,
            utxos.wf(),
            k <= t.inputs.len(),
            seen@.len() == start.len() + k,
            forall|j: int| 0 <= j < start.len() ==> #[trigger] seen@[j] == start[j],
            forall|j: int| 0 <= j < k ==> seen@[start.len() + j] == #[trigger] t.inputs[j].prev,
            in_sum == input_value(t.inputs.subrange(0, k as int), m),
            in_sum <= k * 0xFFFF_FFFF_FFFF_FFFFu128,
            forall|j: int| 0 <= j < k ==> #[trigger] m.contains_key(t.inputs[j].prev),
            forall|j: int|
                0 <= j < k ==> #[trigger] signature_verifies(
                    t.inputs[j].public_key,
                    signed_message(t.inputs[j].prev),
                    t.inputs[j].signature,
                ),
            forall|a: int, b: int|
                0 <= a < b < k ==> #[trigger] t.inputs[a].prev != #[trigger] t.inputs[b].prev,
            forall|j: int| 0 <= j < k ==> !start.contains(#[trigger] t.inputs[j].prev),
        decreases t.inputs.len() - k,
    {
        let input = &tx.inputs[k];
        assert(t.inputs[k as int] == input@);
        let checked = check_input(input, utxos, seen);
        match checked {
            None => {
                proof {
                    let p = t.inputs[k as int].prev;
                    if m.contains_key(p) && signature_verifies(
                        t.inputs[k as int].public_key,
                        signed_message(p),
                        t.inputs[k as int].signature,
                    ) {
                        let j = choose|j: int| 0 <= j < seen@.len() && seen@[j] == p;
                        if j >= start.len() {
                            let a = j - start.len();
                            assert(t.inputs[a].prev == p);
                            assert(!inputs_distinct(t));
                        } else {
                            assert(start[j] == p);
                            assert(start.contains(t.inputs[k as int].prev));
                        }
                    }
                }
                return None;
            },
            Some(value) => {
                proof {
                    assert(t.inputs.subrange(0, k + 1).drop_last() =~= t.inputs.subrange(0, k as int));
                    assert((k + 1) * 0xFFFF_FFFF_FFFF_FFFFu128 <= 0xFFFF_FFFF_FFFF_FFFFu128
                        * 0xFFFF_FFFF_FFFF_FFFFu128) by (nonlinear_arith)
                        requires
                            k < t.inputs.len(),
                            t.inputs.len() <= usize::MAX,
                    ;
                    assert forall|j: int| 0 <= j < k implies t.inputs[j].prev != t.inputs[k as int].prev by {
                        assert(seen@[start.len() + j] == t.inputs[j].prev);
                    }
                    assert forall|j: int| 0 <= j <= k implies !start.contains(#[trigger] t.inputs[j].prev) by {
                        if j == k {
                            if start.contains(t.inputs[j].prev) {
                                let x = choose|x: int| 0 <= x < start.len() && start[x] == t.inputs[j].prev;
                                assert(seen@[x] == start[x]);
                            }
                        }
                    }
                }
                in_sum = in_sum + value as u128;
                seen.push(input.prev_transaction_output_hash);
                k += 1;
            },
        }
    }
    proof {
        assert(t.inputs.subrange(0, t.inputs.len() as int) =~= t.inputs);
    }
    let out_sum = sum_outputs(&tx.outputs);
    if in_sum < out_sum {
        return None;
    }
    Some(in_sum - out_sum)
}

/// Checks the transaction rules of a block at `height` against the unspent
/// outputs it would spend.
#[verifier::rlimit(60)]
pub fn verify_transactions(txs: &Vec<Transaction>, height: u64, utxos: &UtxoSet) -> (r: bool)
    requires
        utxos.wf(),
    ensures
        r == transactions_valid(txs@.map_values(|t: Transaction| t@), height as nat, utxos@),
{
    let ghost v = txs@.map_values(|t: Transaction| t@);
    let ghost m = utxos@;
    let n = txs.len();
    if n == 0 {
        return false;
    }
    if txs[0].inputs.len() != 0 {
        assert(v[0].inputs.len() != 0);
        return false;
    }
    let mut seen: Vec<crate::hash::Hash> = Vec::new();
    let mut fees: u128 = 0;
    let mut i: usize = 1;
    while i < n
        invariant
            n == txs@.len(),
            v == txs@.map_values(|t: Transaction| t@),
            m == utxos@,
            utxos.wf(),
            1 <= i <= n,
            forall|x: crate::hash::Hash|
                seen@.contains(x) <==> exists|a: int, b: int|
                    0 <= a < v.subrange(1, i as int).len() && 0 <= b < v.subrange(
                        1,
                        i as int,
                    )[a].inputs.len() && #[trigger] v.subrange(1, i as int)[a].inputs[b].prev == x,
            no_double_spend(v.subrange(1, i as int)),
            forall|a: int|
                0 <= a < v.subrange(1, i as int).len() ==> #[trigger] v.subrange(
                    1,
                    i as int,
                )[a].inputs.len() > 0 && inputs_exist(v.subrange(1, i as int)[a], m)
                    && signatures_valid(v.subrange(1, i as int)[a]) && fee(
                    v.subrange(1, i as int)[a],
                    m,
                ) >= 0,
            fees_of(v.subrange(1, i as int), m) >= 0,
            fees as int == if fees_of(v.subrange(1, i as int), m) < u128::MAX {
                fees_of(v.subrange(1, i as int), m)
            } else {
                u128::MAX as int
            },
        decreases n - i,
    {
        let tx = &txs[i];
        let ghost done = v.subrange(1, i as int);
        let ghost next = v.subrange(1, i + 1);
        assert(tx@ == v[i as int]);
        assert(next.drop_last() =~= done);
        assert(next.last() == tx@);
        if tx.inputs.len() == 0 {
            assert(v.subrange(1, n as int)[i - 1].inputs.len() == 0);
            return false;
        }
        let ghost seen_before = seen@;
        match check_spending(tx, utxos, &mut seen) {
            None => {
                proof {
                    let rest = v.subrange(1, n as int);
                    assert(rest[i - 1] == tx@);
                    if inputs_exist(tx@, m) && signatures_valid(tx@) && inputs_distinct(tx@) && fee(tx@, m) >= 0 {
                        let k = choose|k: int| 0 <= k < tx@.inputs.len() && seen_before.contains(
                            #[trigger] tx@.inputs[k].prev,
                        );
                        let p = tx@.inputs[k].prev;
                        let (a, b) = choose|a: int, b: int|
                            0 <= a < done.len() && 0 <= b < done[a].inputs.len()
                                && #[trigger] done[a].inputs[b].prev == p;
                        assert(rest[a] == done[a]);
                        assert(rest[a].inputs[b].prev == rest[i - 1].inputs[k].prev);
                        assert(!no_double_spend(rest));
                    } else if !inputs_distinct(tx@) {
                        let (a, b) = choose|a: int, b: int|
                            0 <= a < b < tx@.inputs.len() && #[trigger] tx@.inputs[a].prev
                                == #[trigger] tx@.inputs[b].prev;
                        assert(rest[i - 1].inputs[a].prev == rest[i - 1].inputs[b].prev);
                        assert(!no_double_spend(rest));
                    } else if !inputs_exist(tx@, m) {
                        assert(!inputs_exist(rest[i - 1], m));
                    } else if !signatures_valid(tx@) {
                        assert(!signatures_valid(rest[i - 1]));
                    } else {
                        assert(fee(rest[i - 1], m) < 0);
                    }
                }
                return false;
            },
            Some(f) => {
                proof {
                    assert forall|x: crate::hash::Hash|
                        seen@.contains(x) <==> exists|a: int, b: int|
                            0 <= a < next.len() && 0 <= b < next[a].inputs.len()
                                && #[trigger] next[a].inputs[b].prev == x by {
                        if seen@.contains(x) {
                            let j = choose|j: int| 0 <= j < seen@.len() && seen@[j] == x;
                            if j < seen_before.len() {
                                assert(seen_before[j] == x);
                                assert(seen_before.contains(x));
                                let (a, b) = choose|a: int, b: int|
                                    0 <= a < done.len() && 0 <= b < done[a].inputs.len()
                                        && #[trigger] done[a].inputs[b].prev == x;
                                assert(next[a] == done[a]);
                            } else {
                                let b = j - seen_before.len();
                                assert(tx@.inputs[b].prev == x);
                                assert(next[i - 1] == tx@);
                            }
                        }
                        if exists|a: int, b: int|
                            0 <= a < next.len() && 0 <= b < next[a].inputs.len()
                                && #[trigger] next[a].inputs[b].prev == x {
                            let (a, b) = choose|a: int, b: int|
                                0 <= a < next.len() && 0 <= b < next[a].inputs.len()
                                    && #[trigger] next[a].inputs[b].prev == x;
                            if a < done.len() {
                                assert(done[a] == next[a]);
                                assert(seen_before.contains(x));
                                let j = choose|j: int| 0 <= j < seen_before.len() && seen_before[j] == x;
                                assert(seen@[j] == x);
                            } else {
                                assert(seen@[seen_before.len() + b] == x);
                            }
                        }
                    }
                    assert forall|i1: int, k1: int, i2: int, k2: int|
                        0 <= i1 < next.len() && 0 <= i2 < next.len() && 0 <= k1
                            < next[i1].inputs.len() && 0 <= k2 < next[i2].inputs.len() && (i1
                            != i2 || k1 != k2) implies #[trigger] next[i1].inputs[k1].prev
                        != #[trigger] next[i2].inputs[k2].prev by {
                        let last = next.len() - 1;
                        if i1 < last && i2 < last {
                            assert(next[i1] == done[i1] && next[i2] == done[i2]);
                        } else if i1 == last && i2 == last {
                            if k1 < k2 {
                                assert(tx@.inputs[k1].prev != tx@.inputs[k2].prev);
                            } else {
                                assert(tx@.inputs[k2].prev != tx@.inputs[k1].prev);
                            }
                        } else if i1 == last {
                            assert(next[i2] == done[i2]);
                            if next[i1].inputs[k1].prev == next[i2].inputs[k2].prev {
                                assert(seen_before.contains(done[i2].inputs[k2].prev));
                                assert(seen_before.contains(tx@.inputs[k1].prev));
                            }
                        } else {
                            assert(next[i1] == done[i1]);
                            if next[i1].inputs[k1].prev == next[i2].inputs[k2].prev {
                                assert(seen_before.contains(done[i1].inputs[k1].prev));
                                assert(seen_before.contains(tx@.inputs[k2].prev));
                            }
                        }
                    }
                    assert forall|a: int| 0 <= a < next.len() implies #[trigger] next[a].inputs.len()
                        > 0 && inputs_exist(next[a], m) && signatures_valid(next[a]) && fee(
                        next[a],
                        m,
                    ) >= 0 by {
                        if a < done.len() {
                            assert(next[a] == done[a]);
                        }
                    }
                }
                if fees > u128::MAX - f {
                    fees = u128::MAX;
                } else {
                    fees = fees + f;
                }
                i += 1;
            },
        }
    }
    proof {
        assert(v.subrange(1, n as int) =~= v.subrange(1, v.len() as int));
    }
    let coinbase_out = sum_outputs(&txs[0].outputs);
    assert(txs@[0]@.outputs == v[0].outputs);
    let reward = calculate_block_reward(height) as u128;
    if coinbase_out <= reward {
        true
    } else {
        coinbase_out - reward <= fees
    }
}

} // verus!
