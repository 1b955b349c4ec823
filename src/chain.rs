//! The chain engine: blocks, the unspent outputs, the mempool and the target.
use crate::merkle::{merkle_root, merkle_root_of};
use crate::rules::{
    fee, input_value, inputs_exist, no_double_spend, spec_min_target, verify_transactions, transactions_valid,
    BtcError, UtxoMap, BLOCK_TRANSACTION_CAP, block_reward, fees_of, DIFFICULTY_UPDATE_INTERVAL, IDEAL_BLOCK_TIME, MAX_MEMPOOL_TRANSACTION_AGE, NANOS_PER_SECOND,
};
use crate::uint::clamp;
use crate::types::{header_hash, output_hash, transaction_hash, Block, BlockView, InputView, Transaction,
    TransactionOutput, TxView};
use crate::uint::U256;
use crate::utxo::{unmarked, Utxo, UtxoSet};
use vstd::prelude::*;

verus! {

/// `m` without the outputs that `ins` spend.
pub open spec fn remove_spent(m: UtxoMap, ins: Seq<InputView>) -> UtxoMap
    decreases ins.len(),
{
    if ins.len() == 0 {
        m
    } else {
        remove_spent(m, ins.drop_last()).remove(ins.last().prev)
    }
}

/// `m` with the outputs `outs`, unmarked, each under its own hash.
pub open spec fn add_created(m: UtxoMap, outs: Seq<TransactionOutput>) -> UtxoMap
    decreases outs.len(),
{
    if outs.len() == 0 {
        m
    } else {
        add_created(m, outs.drop_last()).insert(output_hash(outs.last()), (false, outs.last()))
    }
}

/// The unspent outputs after one transaction: its inputs spent, its outputs added.
pub open spec fn apply_transaction(m: UtxoMap, t: TxView) -> UtxoMap {
    add_created(remove_spent(m, t.inputs), t.outputs)
}

/// The unspent outputs after transactions, in order.
pub open spec fn apply_transactions(m: UtxoMap, txs: Seq<TxView>) -> UtxoMap
    decreases txs.len(),
{
    if txs.len() == 0 {
        m
    } else {
        apply_transaction(apply_transactions(m, txs.drop_last()), txs.last())
    }
}

/// The unspent outputs after blocks, in order.
pub open spec fn apply_blocks(m: UtxoMap, bs: Seq<BlockView>) -> UtxoMap
    decreases bs.len(),
{
    if bs.len() == 0 {
        m
    } else {
        apply_transactions(apply_blocks(m, bs.drop_last()), bs.last().transactions)
    }
}

/// The unspent outputs of a chain: every block replayed from nothing.
pub open spec fn replay(bs: Seq<BlockView>) -> UtxoMap {
    apply_blocks(Map::empty(), bs)
}

/// Whether some pending transaction spends `h`.
pub open spec fn referenced(pool: Seq<(i64, TxView)>, h: crate::hash::Hash) -> bool {
    exists|e: int, k: int|
        0 <= e < pool.len() && 0 <= k < pool[e].1.inputs.len() && #[trigger] pool[e].1.inputs[k].prev
            == h
}

/// `m` with exactly the outputs that pending transactions spend marked.
pub open spec fn marked_by(m: UtxoMap, pool: Seq<(i64, TxView)>) -> UtxoMap {
    Map::new(
        |h: crate::hash::Hash| m.contains_key(h),
        |h: crate::hash::Hash| (referenced(pool, h), m[h].1),
    )
}

/// The transactions of the mempool, without their entry times.
pub open spec fn pool_transactions(pool: Seq<(i64, TxView)>) -> Seq<TxView> {
    pool.map_values(|e: (i64, TxView)| e.1)
}

/// The mempool invariants: every input names an unspent output, no output
/// is spent twice, exactly the spent outputs are marked, fees are not
/// negative and do not increase along the pool.
#[verifier::opaque]
pub open spec fn mempool_consistent(pool: Seq<(i64, TxView)>, m: UtxoMap) -> bool {
    &&& forall|e: int| 0 <= e < pool.len() ==> inputs_exist(#[trigger] pool[e].1, m)
    &&& forall|e: int| 0 <= e < pool.len() ==> fee(#[trigger] pool[e].1, m) >= 0
    &&& no_double_spend(pool_transactions(pool))
    &&& forall|h: crate::hash::Hash| #[trigger] m.contains_key(h) ==> m[h].0 == referenced(pool, h)
    &&& forall|a: int, b: int|
        0 <= a < b < pool.len() ==> fee(#[trigger] pool[a].1, m) >= fee(#[trigger] pool[b].1, m)
}

/// `b` may follow `prev`: it names `prev`'s hash, meets its own target, commits
/// to its transactions and comes later.
pub open spec fn linked(prev: BlockView, b: BlockView) -> bool {
    &&& b.header.prev_block_hash == header_hash(prev.header)
    &&& header_hash(b.header).num.value() <= b.header.target.value()
    &&& b.header.merkle_root == merkle_root_of(b.transactions)
    &&& b.header.timestamp > prev.header.timestamp
}

/// The chain invariants: the genesis block names the zero hash and each
/// later block is linked to the one before.
#[verifier::opaque]
pub open spec fn chain_valid(c: Seq<BlockView>) -> bool {
    &&& c.len() > 0 ==> c[0].header.prev_block_hash == crate::hash::Hash::spec_zero()
    &&& forall|i: int| 1 <= i < c.len() ==> linked(#[trigger] c[i - 1], c[i])
}

/// The ledger state that a node keeps.
pub struct Blockchain {
    utxos: UtxoSet,
    target: U256,
    blocks: Vec<Block>,
    mempool: Vec<(i64, Transaction)>,
}

/// The plain values of mempool entries.
pub open spec fn pool_view(v: Seq<(i64, Transaction)>) -> Seq<(i64, TxView)> {
    v.map_values(|e: (i64, Transaction)| (e.0, e.1@))
}

/// The plain values of blocks.
pub open spec fn chain_view(v: Seq<Block>) -> Seq<BlockView> {
    v.map_values(|b: Block| b@)
}

impl Blockchain {
    /// The blocks, genesis first.
    pub closed spec fn chain(&self) -> Seq<BlockView> {
        chain_view(self.blocks@)
    }

    /// The unspent outputs with their marks.
    pub closed spec fn utxo_map(&self) -> UtxoMap {
        self.utxos@
    }

    /// The entries of the unspent-output set, in its own order.
    pub closed spec fn utxo_entries(&self) -> Seq<Utxo> {
        self.utxos.entry_seq()
    }

    /// The pending transactions with their entry times.
    pub closed spec fn pool(&self) -> Seq<(i64, TxView)> {
        pool_view(self.mempool@)
    }

    /// The target the next adjustment starts from.
    pub closed spec fn current_target(&self) -> U256 {
        self.target
    }

    /// The invariants of the ledger state.
    pub closed spec fn wf(&self) -> bool {
        &&& self.utxos.wf()
        &&& chain_valid(self.chain())
        &&& self.target.value() <= spec_min_target().value()
        &&& mempool_consistent(self.pool(), self.utxos@)
        &&& unmarked(self.utxos@) == replay(self.chain())
    }

    /// An empty chain at the easiest target.
    pub fn new() -> (r: Blockchain)
        ensures
            r.wf(),
            r.chain().len() == 0,
            r.utxo_map() == Map::<crate::hash::Hash, (bool, TransactionOutput)>::empty(),
            r.pool().len() == 0,
            r.current_target() == spec_min_target(),
    {
        let r = Blockchain {
            utxos: UtxoSet::new(),
            target: crate::rules::min_target(),
            blocks: Vec::new(),
            mempool: Vec::new(),
        };
        proof {
            reveal(mempool_consistent);
            reveal(chain_valid);
            assert(r.chain() =~= Seq::<BlockView>::empty());
            assert(r.pool() =~= Seq::<(i64, TxView)>::empty());
            assert(unmarked(r.utxos@) =~= replay(r.chain()));
            assert(pool_transactions(r.pool()) =~= Seq::<TxView>::empty());
        }
        r
    }

    /// The unspent outputs.
    pub fn utxos(&self) -> (r: &UtxoSet)
        requires
            self.wf(),
        ensures
            r@ == self.utxo_map(),
            r.entry_seq() == self.utxo_entries(),
            r.wf(),
    {
        &self.utxos
    }

    /// The target the next adjustment starts from.
    pub fn target(&self) -> (r: U256)
        ensures
            r == self.current_target(),
    {
        self.target
    }

    /// The blocks, genesis first.
    pub fn blocks(&self) -> (r: &Vec<Block>)
        ensures
            chain_view(r@) == self.chain(),
    {
        &self.blocks
    }

    /// The number of blocks.
    pub fn block_height(&self) -> (r: u64)
        ensures
            r == self.chain().len(),
    {
        self.blocks.len() as u64
    }

    /// The pending transactions with their entry times, highest fee first.
    pub fn mempool(&self) -> (r: &Vec<(i64, Transaction)>)
        ensures
            pool_view(r@) == self.pool(),
    {
        &self.mempool
    }
}

/// `sub` is `s` with exactly the positions that `keep` names, in order, as
/// `idx` lists them.
pub open spec fn selection_by<A>(s: Seq<A>, sub: Seq<A>, keep: spec_fn(int) -> bool, idx: Seq<int>) -> bool {
    &&& idx.len() == sub.len()
    &&& forall|a: int| 0 <= a < idx.len() ==> 0 <= #[trigger] idx[a] < s.len() && sub[a] == s[idx[a]]
    &&& forall|a: int, b: int| 0 <= a < b < idx.len() ==> #[trigger] idx[a] < #[trigger] idx[b]
    &&& forall|j: int| 0 <= j < s.len() ==> (#[trigger] keep(j) <==> exists|a: int| 0 <= a < idx.len() && #[trigger] idx[a] == j)
}

/// `sub` is the subsequence of `s` made of the positions that `keep` names.
pub open spec fn is_selection<A>(s: Seq<A>, sub: Seq<A>, keep: spec_fn(int) -> bool) -> bool {
    exists|idx: Seq<int>| selection_by(s, sub, keep, idx)
}

/// The entries of `pool` at the positions that `flags` sets, in order.
#[verifier::spinoff_prover]
fn select_entries(pool: &Vec<(i64, Transaction)>, flags: &Vec<bool>) -> (r: (Vec<(i64, Transaction)>, Ghost<Seq<int>>))
    requires
        flags@.len() == pool@.len(),
    ensures
        selection_by(pool_view(pool@), pool_view(r.0@), |j: int| flags@[j], r.1@),
{
    let mut out: Vec<(i64, Transaction)> = Vec::new();
    let ghost mut idx: Seq<int> = Seq::empty();
    let mut i: usize = 0;
    while i < pool.len()
        invariant
            flags@.len() == pool@.len(),
            i <= pool@.len(),
            idx.len() == out@.len(),
            forall|a: int| 0 <= a < idx.len() ==> 0 <= #[trigger] idx[a] < i && pool_view(out@)[a] == pool_view(pool@)[idx[a]],
            forall|a: int, b: int| 0 <= a < b < idx.len() ==> #[trigger] idx[a] < #[trigger] idx[b],
            forall|j: int| 0 <= j < i ==> (#[trigger] flags@[j] <==> exists|a: int| 0 <= a < idx.len() && #[trigger] idx[a] == j),
        decreases pool@.len() - i,
    {
        let ghost old_idx = idx;
        if flags[i] {
            let entry = (pool[i].0, pool[i].1.clone());
            out.push(entry);
            proof {
                idx = idx.push(i as int);
                assert(idx[idx.len() - 1] == i);
            }
        }
        proof {
            assert forall|j: int| 0 <= j <= i implies (#[trigger] flags@[j] <==> exists|a: int| 0 <= a < idx.len() && #[trigger] idx[a] == j) by {
                if exists|a: int| 0 <= a < idx.len() && #[trigger] idx[a] == j {
                    let a = choose|a: int| 0 <= a < idx.len() && #[trigger] idx[a] == j;
                    if a < old_idx.len() {
                        assert(old_idx[a] == j);
                    }
                }
                if j < i && flags@[j] {
                    let a = choose|a: int| 0 <= a < old_idx.len() && #[trigger] old_idx[a] == j;
                    assert(idx[a] == j);
                }
            }
        }
        i += 1;
    }
    (out, Ghost(idx))
}

/// Marks the outputs that `tx` spends.
#[verifier::spinoff_prover]
fn mark_inputs(utxos: &mut UtxoSet, tx: &Transaction)
    requires
        old(utxos).wf(),
        inputs_exist(tx@, old(utxos)@),
    ensures
        final(utxos).wf(),
        final(utxos)@ == Map::new(
            |h: crate::hash::Hash| old(utxos)@.contains_key(h),
            |h: crate::hash::Hash| (old(utxos)@[h].0 || exists|k: int| 0 <= k < tx@.inputs.len() && #[trigger] tx@.inputs[k].prev == h, old(utxos)@[h].1),
        ),
{
    let ghost m = utxos@;
    let ghost t = tx@;
    let mut k: usize = 0;
    while k < tx.inputs.len()
        invariant
            t == tx@,
            utxos.wf(),
            inputs_exist(t, m),
            k <= t.inputs.len(),
            utxos@ == Map::new(
                |h: crate::hash::Hash| m.contains_key(h),
                |h: crate::hash::Hash| (m[h].0 || exists|j: int| 0 <= j < k && #[trigger] t.inputs[j].prev == h, m[h].1),
            ),
        decreases t.inputs.len() - k,
    {
        let ghost before = utxos@;
        let p = tx.inputs[k].prev_transaction_output_hash;
        assert(t.inputs[k as int].prev == p);
        assert(m.contains_key(t.inputs[k as int].prev));
        utxos.set_marked(&p, true);
        k += 1;
        proof {
            assert(utxos@ =~= Map::new(
                |h: crate::hash::Hash| m.contains_key(h),
                |h: crate::hash::Hash| (m[h].0 || exists|j: int| 0 <= j < k && #[trigger] t.inputs[j].prev == h, m[h].1),
            )) by {
                assert forall|h: crate::hash::Hash| m.contains_key(h) implies utxos@[h] == (m[h].0 || exists|j: int| 0 <= j < k && #[trigger] t.inputs[j].prev == h, m[h].1) by {
                    if h == p {
                        assert(t.inputs[k - 1].prev == h);
                    } else {
                        if exists|j: int| 0 <= j < k && #[trigger] t.inputs[j].prev == h {
                            let j = choose|j: int| 0 <= j < k && #[trigger] t.inputs[j].prev == h;
                            assert(j < k - 1);
                        }
                    }
                }
            }
        }
    }
}

/// Sets the marks to exactly the outputs that the pool spends.
#[verifier::spinoff_prover]
fn refresh_marks(utxos: &mut UtxoSet, mempool: &Vec<(i64, Transaction)>)
    requires
        old(utxos).wf(),
        forall|e: int| 0 <= e < mempool@.len() ==> inputs_exist(#[trigger] pool_view(mempool@)[e].1, old(utxos)@),
    ensures
        final(utxos).wf(),
        final(utxos)@ == marked_by(old(utxos)@, pool_view(mempool@)),
{
    let ghost m = utxos@;
    let ghost pool = pool_view(mempool@);
    utxos.clear_marks();
    let mut e: usize = 0;
    while e < mempool.len()
        invariant
            pool == pool_view(mempool@),
            forall|x: int| 0 <= x < pool.len() ==> inputs_exist(#[trigger] pool[x].1, m),
            utxos.wf(),
            e <= pool.len(),
            utxos@ == marked_by(m, pool.subrange(0, e as int)),
        decreases pool.len() - e,
    {
        let ghost before = utxos@;
        assert(pool[e as int].1 == mempool@[e as int].1@);
        assert(inputs_exist(pool[e as int].1, m));
        assert forall|k: int| 0 <= k < mempool@[e as int].1@.inputs.len() implies #[trigger] before.contains_key(mempool@[e as int].1@.inputs[k].prev) by {
            assert(m.contains_key(pool[e as int].1.inputs[k].prev));
        }
        mark_inputs(utxos, &mempool[e].1);
        e += 1;
        proof {
            let sub = pool.subrange(0, e as int);
            let prev_sub = pool.subrange(0, e - 1);
            assert forall|h: crate::hash::Hash| m.contains_key(h) implies utxos@[h] == (referenced(sub, h), m[h].1) by {
                let t = pool[e - 1].1;
                if referenced(sub, h) {
                    let (x, k) = choose|x: int, k: int| 0 <= x < sub.len() && 0 <= k < sub[x].1.inputs.len() && #[trigger] sub[x].1.inputs[k].prev == h;
                    if x < e - 1 {
                        assert(prev_sub[x] == sub[x]);
                        assert(referenced(prev_sub, h));
                    } else {
                        assert(t.inputs[k].prev == h);
                    }
                }
                if referenced(prev_sub, h) {
                    let (x, k) = choose|x: int, k: int| 0 <= x < prev_sub.len() && 0 <= k < prev_sub[x].1.inputs.len() && #[trigger] prev_sub[x].1.inputs[k].prev == h;
                    assert(sub[x] == prev_sub[x]);
                }
                if exists|k: int| 0 <= k < t.inputs.len() && #[trigger] t.inputs[k].prev == h {
                    let k = choose|k: int| 0 <= k < t.inputs.len() && #[trigger] t.inputs[k].prev == h;
                    assert(sub[e - 1].1.inputs[k].prev == h);
                }
            }
            assert(utxos@ =~= marked_by(m, sub));
        }
    }
    proof {
        assert(pool.subrange(0, pool.len() as int) =~= pool);
    }
}

proof fn lemma_unmarked_remove(m: UtxoMap, h: crate::hash::Hash)
    ensures
        unmarked(m.remove(h)) == unmarked(m).remove(h),
{
    assert(unmarked(m.remove(h)) =~= unmarked(m).remove(h));
}

proof fn lemma_unmarked_insert(m: UtxoMap, h: crate::hash::Hash, b: bool, o: TransactionOutput)
    ensures
        unmarked(m.insert(h, (b, o))) == unmarked(m).insert(h, (false, o)),
{
    assert(unmarked(m.insert(h, (b, o))) =~= unmarked(m).insert(h, (false, o)));
}

/// Spends the inputs of `tx` and adds its outputs.
fn apply_transaction_to(utxos: &mut UtxoSet, tx: &Transaction)
    requires
        old(utxos).wf(),
    ensures
        final(utxos).wf(),
        unmarked(final(utxos)@) == apply_transaction(unmarked(old(utxos)@), tx@),
{
    let ghost m0 = unmarked(utxos@);
    let ghost t = tx@;
    let mut k: usize = 0;
    while k < tx.inputs.len()
        invariant
            t == tx@,
            utxos.wf(),
            k <= t.inputs.len(),
            unmarked(utxos@) == remove_spent(m0, t.inputs.subrange(0, k as int)),
        decreases t.inputs.len() - k,
    {
        let ghost before = utxos@;
        let p = tx.inputs[k].prev_transaction_output_hash;
        utxos.remove(&p);
        proof {
            lemma_unmarked_remove(before, p);
            assert(t.inputs.subrange(0, k + 1).drop_last() =~= t.inputs.subrange(0, k as int));
            assert(t.inputs.subrange(0, k + 1).last().prev == p);
        }
        k += 1;
    }
    proof {
        assert(t.inputs.subrange(0, t.inputs.len() as int) =~= t.inputs);
    }
    let ghost spent = unmarked(utxos@);
    let mut j: usize = 0;
    while j < tx.outputs.len()
        invariant
            t == tx@,
            utxos.wf(),
            j <= t.outputs.len(),
            spent == remove_spent(m0, t.inputs),
            unmarked(utxos@) == add_created(spent, t.outputs.subrange(0, j as int)),
        decreases t.outputs.len() - j,
    {
        let ghost before = utxos@;
        let o = tx.outputs[j].clone();
        let h = o.hash();
        let ghost og = o;
        utxos.insert(h, false, o);
        proof {
            lemma_unmarked_insert(before, h, false, og);
            assert(t.outputs.subrange(0, j + 1).drop_last() =~= t.outputs.subrange(0, j as int));
            assert(t.outputs.subrange(0, j + 1).last() == og);
        }
        j += 1;
    }
    proof {
        assert(t.outputs.subrange(0, t.outputs.len() as int) =~= t.outputs);
    }
}

/// Applies every transaction of a block, in order.
fn apply_block_to(utxos: &mut UtxoSet, block: &Block)
    requires
        old(utxos).wf(),
    ensures
        final(utxos).wf(),
        unmarked(final(utxos)@) == apply_transactions(unmarked(old(utxos)@), block@.transactions),
{
    let ghost m0 = unmarked(utxos@);
    let ghost txs = block@.transactions;
    let mut i: usize = 0;
    while i < block.transactions.len()
        invariant
            txs == block@.transactions,
            utxos.wf(),
            i <= txs.len(),
            unmarked(utxos@) == apply_transactions(m0, txs.subrange(0, i as int)),
        decreases txs.len() - i,
    {
        apply_transaction_to(utxos, &block.transactions[i]);
        proof {
            assert(txs.subrange(0, i + 1).drop_last() =~= txs.subrange(0, i as int));
            assert(txs.subrange(0, i + 1).last() == block.transactions@[i as int]@);
        }
        i += 1;
    }
    proof {
        assert(txs.subrange(0, txs.len() as int) =~= txs);
    }
}

/// The hashes of a block's transactions.
pub open spec fn included_hashes(b: BlockView) -> Seq<crate::hash::Hash> {
    b.transactions.map_values(|t: TxView| transaction_hash(t))
}

/// What `add_block` answers for `b` on the chain `c` over the unspent outputs `m`.
pub open spec fn block_outcome(c: Seq<BlockView>, m: UtxoMap, b: BlockView) -> Result<(), BtcError> {
    if c.len() == 0 {
        if b.header.prev_block_hash == crate::hash::Hash::spec_zero() {
            Ok(())
        } else {
            Err(BtcError::InvalidBlock)
        }
    } else if b.header.prev_block_hash != header_hash(c.last().header) {
        Err(BtcError::InvalidBlock)
    } else if header_hash(b.header).num.value() > b.header.target.value() {
        Err(BtcError::InvalidBlock)
    } else if b.header.merkle_root != merkle_root_of(b.transactions) {
        Err(BtcError::InvalidMerkleRoot)
    } else if b.header.timestamp <= c.last().header.timestamp {
        Err(BtcError::InvalidBlock)
    } else if !transactions_valid(b.transactions, c.len(), m) {
        Err(BtcError::InvalidTransaction)
    } else {
        Ok(())
    }
}

/// A pending entry stays after a block when the block does not include it and
/// every output it spends still stands, with the same value.
pub open spec fn survives(
    e: (i64, TxView),
    included: Seq<crate::hash::Hash>,
    before: UtxoMap,
    after: UtxoMap,
) -> bool {
    &&& !included.contains(transaction_hash(e.1))
    &&& forall|k: int| 0 <= k < e.1.inputs.len() ==> #[trigger] still_stands(e.1.inputs[k].prev, before, after)
}

/// The output under `h` still stands after, with the value it had before.
pub open spec fn still_stands(h: crate::hash::Hash, before: UtxoMap, after: UtxoMap) -> bool {
    after.contains_key(h) && after[h].1.value == before[h].1.value
}

/// Whole seconds from `start` to `end` (nanosecond stamps); none if `end` is
/// not later.
pub open spec fn elapsed_seconds(start: i64, end: i64) -> nat {
    if end > start {
        ((end - start) / NANOS_PER_SECOND as int) as nat
    } else {
        0
    }
}

/// The target after the retarget rule on chain `c`: at each multiple of the
/// interval, `target × actual / ideal`, held within `[target/4, target×4]`
/// and then at most the minimum target; elsewhere unchanged.
pub open spec fn retarget_value(c: Seq<BlockView>, t: U256) -> nat {
    let n = c.len();
    if n == 0 || n % DIFFICULTY_UPDATE_INTERVAL as nat != 0 {
        t.value()
    } else {
        let secs = elapsed_seconds(
            c[n - DIFFICULTY_UPDATE_INTERVAL as int].header.timestamp,
            c[n - 1].header.timestamp,
        );
        let x = clamp(
            t.value() * secs / (IDEAL_BLOCK_TIME * DIFFICULTY_UPDATE_INTERVAL) as nat,
            t.value() / 4,
            4 * t.value(),
        );
        if x <= spec_min_target().value() {
            x
        } else {
            spec_min_target().value()
        }
    }
}

/// Fees depend only on the values of the outputs spent.
pub proof fn lemma_input_value_same(ins: Seq<InputView>, m1: UtxoMap, m2: UtxoMap)
    requires
        forall|k: int| 0 <= k < ins.len() ==> #[trigger] m1[ins[k].prev].1.value == m2[ins[k].prev].1.value,
    ensures
        input_value(ins, m1) == input_value(ins, m2),
    decreases ins.len(),
{
    if ins.len() > 0 {
        assert forall|k: int| 0 <= k < ins.drop_last().len() implies #[trigger] m1[ins.drop_last()[k].prev].1.value
            == m2[ins.drop_last()[k].prev].1.value by {
            assert(ins.drop_last()[k] == ins[k]);
        }
        lemma_input_value_same(ins.drop_last(), m1, m2);
        assert(m1[ins[ins.len() - 1].prev].1.value == m2[ins[ins.len() - 1].prev].1.value);
    }
}

proof fn lemma_unmarked_marked_by(m: UtxoMap, pool: Seq<(i64, TxView)>)
    ensures
        unmarked(marked_by(m, pool)) == unmarked(m),
{
    assert(unmarked(marked_by(m, pool)) =~= unmarked(m));
}

/// The value of each output that `tx` spends.
#[verifier::spinoff_prover]
fn spent_values(utxos: &UtxoSet, tx: &Transaction) -> (r: Vec<u64>)
    requires
        utxos.wf(),
        inputs_exist(tx@, utxos@),
    ensures
        r@.len() == tx@.inputs.len(),
        forall|k: int| 0 <= k < r@.len() ==> #[trigger] r@[k] == utxos@[tx@.inputs[k].prev].1.value,
{
    let mut r: Vec<u64> = Vec::new();
    let mut k: usize = 0;
    while k < tx.inputs.len()
        invariant
            utxos.wf(),
            inputs_exist(tx@, utxos@),
            k <= tx@.inputs.len(),
            r@.len() == k,
            forall|j: int| 0 <= j < k ==> #[trigger] r@[j] == utxos@[tx@.inputs[j].prev].1.value,
        decreases tx@.inputs.len() - k,
    {
        assert(tx@.inputs[k as int].prev == tx.inputs@[k as int].prev_transaction_output_hash);
        assert(utxos@.contains_key(tx@.inputs[k as int].prev));
        match utxos.get(&tx.inputs[k].prev_transaction_output_hash) {
            Some(u) => {
                r.push(u.output.value);
            },
            None => {
                assert(false);
            },
        }
        k += 1;
    }
    r
}

/// Whether every output that `tx` spends still stands with the value in `vals`.
#[verifier::spinoff_prover]
fn still_valued(utxos: &UtxoSet, tx: &Transaction, vals: &Vec<u64>) -> (r: bool)
    requires
        utxos.wf(),
        vals@.len() == tx@.inputs.len(),
    ensures
        r == values_kept(tx@, vals@, utxos@),
{
    let mut k: usize = 0;
    while k < tx.inputs.len()
        invariant
            utxos.wf(),
            vals@.len() == tx@.inputs.len(),
            k <= tx@.inputs.len(),
            forall|j: int|
                0 <= j < k ==> #[trigger] utxos@.contains_key(tx@.inputs[j].prev)
                    && utxos@[tx@.inputs[j].prev].1.value == vals@[j],
        decreases tx@.inputs.len() - k,
    {
        assert(tx@.inputs[k as int].prev == tx.inputs@[k as int].prev_transaction_output_hash);
        match utxos.get(&tx.inputs[k].prev_transaction_output_hash) {
            Some(u) => {
                if u.output.value != vals[k] {
                    return false;
                }
                assert(utxos@.contains_key(tx@.inputs[k as int].prev));
                assert(utxos@[tx@.inputs[k as int].prev].1.value == vals@[k as int]);
            },
            None => {
                assert(!utxos@.contains_key(tx@.inputs[k as int].prev));
                return false;
            },
        }
        assert forall|j: int| 0 <= j < k + 1 implies #[trigger] utxos@.contains_key(tx@.inputs[j].prev)
            && utxos@[tx@.inputs[j].prev].1.value == vals@[j] by {
            if j == k {
                assert(utxos@.contains_key(tx@.inputs[k as int].prev));
            }
        }
        k += 1;
    }
    true
}

/// Keeping some entries of a consistent mempool in order, over outputs that
/// keep the values of what they spend and are marked afresh, keeps it
/// consistent.
#[verifier::spinoff_prover]
#[verifier::rlimit(100)]
proof fn lemma_selection_consistent(
    pool: Seq<(i64, TxView)>,
    pool2: Seq<(i64, TxView)>,
    keep: spec_fn(int) -> bool,
    idx: Seq<int>,
    m_old: UtxoMap,
    m_new: UtxoMap,
)
    requires
        mempool_consistent(pool, m_old),
        selection_by(pool, pool2, keep, idx),
        forall|j: int|
            0 <= j < pool.len() && #[trigger] keep(j) ==> forall|k: int|
                0 <= k < pool[j].1.inputs.len() ==> #[trigger] m_new.contains_key(pool[j].1.inputs[k].prev)
                    && m_new[pool[j].1.inputs[k].prev].1.value == m_old[pool[j].1.inputs[k].prev].1.value,
        forall|h: crate::hash::Hash| #[trigger] m_new.contains_key(h) ==> m_new[h].0 == referenced(pool2, h),
    ensures
        mempool_consistent(pool2, m_new),
{
    reveal(mempool_consistent);
    assert forall|a: int| 0 <= a < pool2.len() implies fee(#[trigger] pool2[a].1, m_new) == fee(pool[idx[a]].1, m_old) && inputs_exist(pool2[a].1, m_new) by {
        let j = idx[a];
        assert(keep(j));
        let t = pool[j].1;
        assert(pool2[a] == pool[j]);
        assert forall|k: int| 0 <= k < t.inputs.len() implies #[trigger] m_new[t.inputs[k].prev].1.value == m_old[t.inputs[k].prev].1.value by {
            assert(m_new.contains_key(pool[j].1.inputs[k].prev));
        }
        lemma_input_value_same(t.inputs, m_new, m_old);
        assert forall|k: int| 0 <= k < t.inputs.len() implies #[trigger] m_new.contains_key(t.inputs[k].prev) by {
            assert(m_new.contains_key(pool[j].1.inputs[k].prev));
        }
    }
    assert forall|a: int| 0 <= a < pool2.len() implies fee(#[trigger] pool2[a].1, m_new) >= 0 by {
        assert(fee(pool[idx[a]].1, m_old) >= 0);
    }
    assert forall|a: int| 0 <= a < pool2.len() implies inputs_exist(#[trigger] pool2[a].1, m_new) by {}
    assert forall|a: int, b: int| 0 <= a < b < pool2.len() implies fee(#[trigger] pool2[a].1, m_new) >= fee(#[trigger] pool2[b].1, m_new) by {
        assert(idx[a] < idx[b]);
        assert(fee(pool[idx[a]].1, m_old) >= fee(pool[idx[b]].1, m_old));
    }
    let txs = pool_transactions(pool);
    let txs2 = pool_transactions(pool2);
    assert forall|i1: int, k1: int, i2: int, k2: int|
        0 <= i1 < txs2.len() && 0 <= i2 < txs2.len() && 0 <= k1 < txs2[i1].inputs.len() && 0 <= k2
            < txs2[i2].inputs.len() && (i1 != i2 || k1 != k2) implies #[trigger] txs2[i1].inputs[k1].prev
            != #[trigger] txs2[i2].inputs[k2].prev by {
        let j1 = idx[i1];
        let j2 = idx[i2];
        assert(txs2[i1] == txs[j1]);
        assert(txs2[i2] == txs[j2]);
        if i1 != i2 {
            if i1 < i2 {
                assert(idx[i1] < idx[i2]);
            } else {
                assert(idx[i2] < idx[i1]);
            }
        }
        assert(txs[j1].inputs[k1].prev != txs[j2].inputs[k2].prev);
    }
}

/// A chain stays valid when a linked block is appended.
proof fn lemma_chain_push(c: Seq<BlockView>, b: BlockView)
    requires
        chain_valid(c),
        c.len() == 0 ==> b.header.prev_block_hash == crate::hash::Hash::spec_zero(),
        c.len() > 0 ==> linked(c.last(), b),
    ensures
        chain_valid(c.push(b)),
{
    reveal(chain_valid);
    let c2 = c.push(b);
    assert forall|i: int| 1 <= i < c2.len() implies linked(#[trigger] c2[i - 1], c2[i]) by {
        if i < c.len() {
            assert(c2[i - 1] == c[i - 1] && c2[i] == c[i]);
        } else {
            assert(c2[i - 1] == c.last());
        }
    }
}

/// The hashes of the transactions of `block`.
fn transaction_hashes(block: &Block) -> (r: Vec<crate::hash::Hash>)
    ensures
        r@ == included_hashes(block@),
{
    let mut r: Vec<crate::hash::Hash> = Vec::new();
    let mut i: usize = 0;
    while i < block.transactions.len()
        invariant
            i <= block.transactions@.len(),
            r@ == block@.transactions.subrange(0, i as int).map_values(|t: TxView| transaction_hash(t)),
        decreases block.transactions@.len() - i,
    {
        r.push(block.transactions[i].hash());
        i += 1;
        assert(r@ =~= block@.transactions.subrange(0, i as int).map_values(|t: TxView| transaction_hash(t)));
    }
    assert(block@.transactions.subrange(0, block@.transactions.len() as int) =~= block@.transactions);
    r
}

impl Blockchain {
    /// Applies the retarget rule for the current height.
#[verifier::spinoff_prover]
    pub fn try_adjust_target(&mut self)
        requires
            old(self).wf(),
        ensures
            final(self).wf(),
            final(self).chain() == old(self).chain(),
            final(self).utxo_map() == old(self).utxo_map(),
            final(self).pool() == old(self).pool(),
            final(self).current_target().value() == retarget_value(old(self).chain(), old(self).current_target()),
            old(self).chain().len() == 0 || old(self).chain().len() % DIFFICULTY_UPDATE_INTERVAL as nat != 0
                ==> final(self).current_target() == old(self).current_target(),
    {
        let n = self.blocks.len();
        if n == 0 || (n as u64) % DIFFICULTY_UPDATE_INTERVAL != 0 {
            return;
        }
        let start = self.blocks[n - DIFFICULTY_UPDATE_INTERVAL as usize].header.timestamp;
        let end = self.blocks[n - 1].header.timestamp;
        proof {
            assert(self.chain()[n - DIFFICULTY_UPDATE_INTERVAL as int].header.timestamp == start);
            assert(self.chain()[n - 1].header.timestamp == end);
        }
        let secs: u64 = if end > start {
            let diff: i128 = (end as i128) - (start as i128);
            assert(diff < 0x1_0000_0000_0000_0000i128);
            (diff / (NANOS_PER_SECOND as i128)) as u64
        } else {
            0
        };
        let t = self.target;
        proof {
            crate::uint::lemma_value_lex(t, spec_min_target());
            crate::uint::lemma_times_four_fits(t);
        }
        let scaled = crate::uint::scale_clamped(&t, secs, IDEAL_BLOCK_TIME * DIFFICULTY_UPDATE_INTERVAL);
        self.target = scaled.min(&crate::rules::min_target());
    }
}

impl Blockchain {
    /// Validates a block and appends it: the outputs it spends leave the
    /// UTXO set and the ones it creates join it, pending transactions that it
    /// includes or conflicts with leave the mempool, and the target is
    /// adjusted. A refused block changes nothing.
    #[verifier::rlimit(80)]
    pub fn add_block(&mut self, block: Block) -> (r: Result<(), BtcError>)
        requires
            old(self).wf(),
        ensures
            final(self).wf(),
            r == block_outcome(old(self).chain(), old(self).utxo_map(), block@),
            r.is_err() ==> final(self).chain() == old(self).chain() && final(self).utxo_map()
                == old(self).utxo_map() && final(self).pool() == old(self).pool()
                && final(self).current_target() == old(self).current_target(),
            r.is_ok() ==> final(self).chain() == old(self).chain().push(block@),
            r.is_ok() ==> {
                let base = apply_transactions(unmarked(old(self).utxo_map()), block@.transactions);
                &&& is_selection(
                    old(self).pool(),
                    final(self).pool(),
                    |j: int| survives(old(self).pool()[j], included_hashes(block@), old(self).utxo_map(), base),
                )
                &&& final(self).utxo_map() == marked_by(base, final(self).pool())
            },
            r.is_ok() ==> final(self).current_target().value() == retarget_value(
                old(self).chain().push(block@),
                old(self).current_target(),
            ),
    {
        let ghost c = self.chain();
        let ghost m_old = self.utxos@;
        let ghost pool = self.pool();
        match self.check_block(&block) {
            Err(e) => {
                return Err(e);
            },
            Ok(()) => {},
        }
        self.update_for_block(&block);
        let ghost b = block@;
        self.blocks.push(block);
        proof {
            assert(self.chain() =~= c.push(b));
            if c.len() > 0 {
                assert(linked(c.last(), b));
            }
            lemma_chain_push(c, b);
            assert(c.push(b).drop_last() =~= c);
        }
        self.try_adjust_target();
        Ok(())
    }
}

/// `vals` records the value of each output that `t` spends in `m`.
pub open spec fn values_recorded(t: TxView, vals: Seq<u64>, m: UtxoMap) -> bool {
    &&& vals.len() == t.inputs.len()
    &&& forall|k: int| 0 <= k < t.inputs.len() ==> #[trigger] vals[k] == m[t.inputs[k].prev].1.value
}

/// Every output that `t` spends stands in `m` with the value recorded in `vals`.
pub open spec fn values_kept(t: TxView, vals: Seq<u64>, m: UtxoMap) -> bool {
    forall|k: int|
        0 <= k < t.inputs.len() ==> #[trigger] m.contains_key(t.inputs[k].prev) && m[t.inputs[k].prev].1.value == vals[k]
}

/// The values of the outputs that each pending transaction spends.
#[verifier::spinoff_prover]
fn snapshot_values(utxos: &UtxoSet, mempool: &Vec<(i64, Transaction)>) -> (r: Vec<Vec<u64>>)
    requires
        utxos.wf(),
        forall|e: int| 0 <= e < mempool@.len() ==> inputs_exist(#[trigger] mempool@[e].1@, utxos@),
    ensures
        r@.len() == mempool@.len(),
        forall|x: int| 0 <= x < mempool@.len() ==> values_recorded(#[trigger] mempool@[x].1@, r@[x]@, utxos@),
{
    let mut snapshot: Vec<Vec<u64>> = Vec::new();
    let mut e: usize = 0;
    while e < mempool.len()
        invariant
            utxos.wf(),
            forall|x: int| 0 <= x < mempool@.len() ==> inputs_exist(#[trigger] mempool@[x].1@, utxos@),
            e <= mempool@.len(),
            snapshot@.len() == e,
            forall|x: int| 0 <= x < e ==> values_recorded(#[trigger] mempool@[x].1@, snapshot@[x]@, utxos@),
        decreases mempool@.len() - e,
    {
        let vals = spent_values(utxos, &mempool[e].1);
        snapshot.push(vals);
        proof {
            assert(values_recorded(mempool@[e as int].1@, snapshot@[e as int]@, utxos@));
        }
        e += 1;
    }
    snapshot
}

/// For each pending transaction: not among `included`, and every output it
/// spends still stands with the value recorded in `snapshot`.
#[verifier::spinoff_prover]
fn survival_flags(
    utxos: &UtxoSet,
    mempool: &Vec<(i64, Transaction)>,
    snapshot: &Vec<Vec<u64>>,
    included: &Vec<crate::hash::Hash>,
) -> (r: Vec<bool>)
    requires
        utxos.wf(),
        snapshot@.len() == mempool@.len(),
        forall|x: int| 0 <= x < mempool@.len() ==> (#[trigger] snapshot@[x])@.len() == mempool@[x].1@.inputs.len(),
    ensures
        r@.len() == mempool@.len(),
        forall|x: int| 0 <= x < mempool@.len() ==> #[trigger] r@[x] == (!included@.contains(transaction_hash(mempool@[x].1@))
            && values_kept(mempool@[x].1@, snapshot@[x]@, utxos@)),
{
    let mut flags: Vec<bool> = Vec::new();
    let mut e: usize = 0;
    while e < mempool.len()
        invariant
            utxos.wf(),
            snapshot@.len() == mempool@.len(),
            forall|x: int| 0 <= x < mempool@.len() ==> (#[trigger] snapshot@[x])@.len() == mempool@[x].1@.inputs.len(),
            e <= mempool@.len(),
            flags@.len() == e,
            forall|x: int| 0 <= x < e ==> #[trigger] flags@[x] == (!included@.contains(transaction_hash(mempool@[x].1@))
                && values_kept(mempool@[x].1@, snapshot@[x]@, utxos@)),
        decreases mempool@.len() - e,
    {
        let tx = &mempool[e].1;
        let h = tx.hash();
        let fresh = !crate::rules::seen_contains(included, &h);
        let valued = still_valued(utxos, tx, &snapshot[e]);
        flags.push(fresh && valued);
        e += 1;
    }
    flags
}

impl Blockchain {
    /// The checks of `add_block`, without changing anything.
#[verifier::spinoff_prover]
    fn check_block(&self, block: &Block) -> (r: Result<(), BtcError>)
        requires
            self.wf(),
        ensures
            r == block_outcome(self.chain(), self.utxo_map(), block@),
    {
        let ghost c = self.chain();
        let n = self.blocks.len();
        if n == 0 {
            if !block.header.prev_block_hash.equals(&crate::hash::Hash::zero()) {
                return Err(BtcError::InvalidBlock);
            }
        } else {
            assert(c.last() == self.blocks@[n - 1]@);
            let last_hash = self.blocks[n - 1].hash();
            if !block.header.prev_block_hash.equals(&last_hash) {
                return Err(BtcError::InvalidBlock);
            }
            if !block.header.hash().matches_target(&block.header.target) {
                return Err(BtcError::InvalidBlock);
            }
            if !merkle_root(&block.transactions).equals(&block.header.merkle_root) {
                return Err(BtcError::InvalidMerkleRoot);
            }
            if block.header.timestamp <= self.blocks[n - 1].header.timestamp {
                return Err(BtcError::InvalidBlock);
            }
            if !verify_transactions(&block.transactions, n as u64, &self.utxos) {
                return Err(BtcError::InvalidTransaction);
            }
        }
        Ok(())
    }

    /// Applies an accepted block to the unspent outputs and drops the pending
    /// transactions that do not survive it.
    #[verifier::spinoff_prover]
    #[verifier::rlimit(100)]
    fn update_for_block(&mut self, block: &Block)
        requires
            old(self).wf(),
        ensures
            final(self).utxos.wf(),
            final(self).blocks == old(self).blocks,
            final(self).target == old(self).target,
            mempool_consistent(final(self).pool(), final(self).utxos@),
            unmarked(final(self).utxos@) == apply_transactions(unmarked(old(self).utxos@), block@.transactions),
            ({
                let base = apply_transactions(unmarked(old(self).utxo_map()), block@.transactions);
                &&& is_selection(
                    old(self).pool(),
                    final(self).pool(),
                    |j: int| survives(old(self).pool()[j], included_hashes(block@), old(self).utxo_map(), base),
                )
                &&& final(self).utxo_map() == marked_by(base, final(self).pool())
            }),
    {
        let ghost m_old = self.utxos@;
        let ghost pool = self.pool();
        proof {
            reveal(mempool_consistent);
            assert forall|e: int| 0 <= e < self.mempool@.len() implies inputs_exist(#[trigger] self.mempool@[e].1@, self.utxos@) by {
                assert(pool[e].1 == self.mempool@[e].1@);
            }
        }
        let snapshot = snapshot_values(&self.utxos, &self.mempool);
        let included = transaction_hashes(&block);
        apply_block_to(&mut self.utxos, &block);
        let ghost base_u = self.utxos@;
        let ghost base = apply_transactions(unmarked(m_old), block@.transactions);
        let flags = survival_flags(&self.utxos, &self.mempool, &snapshot, &included);
        proof {
            assert forall|x: int| 0 <= x < pool.len() implies #[trigger] flags@[x] == survives(pool[x], included_hashes(block@), m_old, base) by {
                assert(pool[x].1 == self.mempool@[x].1@);
                lemma_flag_survives(pool[x], snapshot@[x]@, flags@[x], included@, m_old, base_u);
            }
        }
        let (kept, sel) = select_entries(&self.mempool, &flags);
        let ghost idx = sel@;
        self.mempool = kept;
        let ghost pool2 = self.pool();
        let ghost keep = |j: int| survives(pool[j], included_hashes(block@), m_old, base);
        proof {
            let flag_at = |j: int| flags@[j];
            assert forall|j: int| 0 <= j < pool.len() implies #[trigger] flag_at(j) == keep(j) by {
                assert(flags@[j] == survives(pool[j], included_hashes(block@), m_old, base));
            }
            lemma_selection_reindex(pool, pool2, flag_at, keep, idx);
            lemma_kept_inputs_exist(pool, pool2, keep, idx, included_hashes(block@), m_old, base_u);
        }
        refresh_marks(&mut self.utxos, &self.mempool);
        proof {
            lemma_marked_by_unmarked(base_u, pool2);
            lemma_kept_consistent(pool, pool2, keep, idx, included_hashes(block@), m_old, base, self.utxos@);
            lemma_unmarked_marked_by(base_u, pool2);
        }
    }
}

/// A flag computed from recorded values says whether an entry survives.
#[verifier::spinoff_prover]
#[verifier::rlimit(100)]
proof fn lemma_flag_survives(
    e: (i64, TxView),
    vals: Seq<u64>,
    flag: bool,
    included: Seq<crate::hash::Hash>,
    m_old: UtxoMap,
    after: UtxoMap,
)
    requires
        values_recorded(e.1, vals, m_old),
        flag == (!included.contains(transaction_hash(e.1)) && values_kept(e.1, vals, after)),
    ensures
        flag == survives(e, included, m_old, unmarked(after)),
{
    let t = e.1;
    let base = unmarked(after);
    if values_kept(t, vals, after) {
        assert forall|k: int| 0 <= k < t.inputs.len() implies #[trigger] still_stands(t.inputs[k].prev, m_old, base) by {
            assert(after.contains_key(t.inputs[k].prev));
            assert(vals[k] == m_old[t.inputs[k].prev].1.value);
        }
    } else {
        let k = choose|k: int| !(0 <= k < t.inputs.len() ==> #[trigger] after.contains_key(t.inputs[k].prev)
            && after[t.inputs[k].prev].1.value == vals[k]);
        assert(vals[k] == m_old[t.inputs[k].prev].1.value);
        assert(!still_stands(t.inputs[k].prev, m_old, base));
    }
}

/// The entries that survive spend only outputs that still stand.
#[verifier::spinoff_prover]
#[verifier::rlimit(100)]
proof fn lemma_kept_inputs_exist(
    pool: Seq<(i64, TxView)>,
    pool2: Seq<(i64, TxView)>,
    keep: spec_fn(int) -> bool,
    idx: Seq<int>,
    included: Seq<crate::hash::Hash>,
    m_old: UtxoMap,
    after: UtxoMap,
)
    requires
        selection_by(pool, pool2, keep, idx),
        forall|j: int| 0 <= j < pool.len() ==> #[trigger] keep(j) == survives(pool[j], included, m_old, unmarked(after)),
    ensures
        forall|a: int| 0 <= a < pool2.len() ==> inputs_exist(#[trigger] pool2[a].1, after),
{
    assert forall|a: int| 0 <= a < pool2.len() implies inputs_exist(#[trigger] pool2[a].1, after) by {
        let j = idx[a];
        assert(keep(j));
        let t = pool[j].1;
        assert(pool2[a] == pool[j]);
        assert forall|k: int| 0 <= k < t.inputs.len() implies #[trigger] after.contains_key(t.inputs[k].prev) by {
            assert(still_stands(t.inputs[k].prev, m_old, unmarked(after)));
        }
    }
}

/// After the block, the surviving entries over the new outputs, marked
/// afresh, are consistent, and the marks are those of the survivors.
#[verifier::spinoff_prover]
#[verifier::rlimit(100)]
proof fn lemma_kept_consistent(
    pool: Seq<(i64, TxView)>,
    pool2: Seq<(i64, TxView)>,
    keep: spec_fn(int) -> bool,
    idx: Seq<int>,
    included: Seq<crate::hash::Hash>,
    m_old: UtxoMap,
    base: UtxoMap,
    m_new: UtxoMap,
)
    requires
        mempool_consistent(pool, m_old),
        selection_by(pool, pool2, keep, idx),
        forall|j: int| 0 <= j < pool.len() ==> #[trigger] keep(j) == survives(pool[j], included, m_old, base),
        forall|h: crate::hash::Hash| #[trigger] m_new.contains_key(h) == base.contains_key(h),
        forall|h: crate::hash::Hash| #[trigger] m_new.contains_key(h) ==> m_new[h].1 == base[h].1 && m_new[h].0 == referenced(pool2, h),
    ensures
        mempool_consistent(pool2, m_new),
{
    assert forall|j: int| 0 <= j < pool.len() && #[trigger] keep(j) implies (forall|k: int|
        0 <= k < pool[j].1.inputs.len() ==> #[trigger] m_new.contains_key(pool[j].1.inputs[k].prev)
            && m_new[pool[j].1.inputs[k].prev].1.value == m_old[pool[j].1.inputs[k].prev].1.value) by {
        assert(survives(pool[j], included, m_old, base));
        assert forall|k: int| 0 <= k < pool[j].1.inputs.len() implies #[trigger] m_new.contains_key(pool[j].1.inputs[k].prev)
            && m_new[pool[j].1.inputs[k].prev].1.value == m_old[pool[j].1.inputs[k].prev].1.value by {
            let h = pool[j].1.inputs[k].prev;
            assert(m_new.contains_key(h) == base.contains_key(h));
            if m_new.contains_key(h) {
                assert(m_new[h].1 == base[h].1);
            }
            lemma_survivor_value(pool[j], included, m_old, base, m_new, k);
        }
    }
    lemma_selection_consistent(pool, pool2, keep, idx, m_old, m_new);
}

proof fn lemma_survivor_value(
    e: (i64, TxView),
    included: Seq<crate::hash::Hash>,
    m_old: UtxoMap,
    base: UtxoMap,
    m_new: UtxoMap,
    k: int,
)
    requires
        survives(e, included, m_old, base),
        0 <= k < e.1.inputs.len(),
        m_new.contains_key(e.1.inputs[k].prev) == base.contains_key(e.1.inputs[k].prev),
        m_new.contains_key(e.1.inputs[k].prev) ==> m_new[e.1.inputs[k].prev].1 == base[e.1.inputs[k].prev].1,
    ensures
        m_new.contains_key(e.1.inputs[k].prev),
        m_new[e.1.inputs[k].prev].1.value == m_old[e.1.inputs[k].prev].1.value,
{
    assert(still_stands(e.1.inputs[k].prev, m_old, base));
}

proof fn lemma_marked_by_unmarked(after: UtxoMap, pool2: Seq<(i64, TxView)>)
    ensures
        marked_by(after, pool2) == marked_by(unmarked(after), pool2),
        forall|h: crate::hash::Hash| #[trigger] marked_by(after, pool2).contains_key(h) == after.contains_key(h),
        forall|h: crate::hash::Hash| #[trigger] marked_by(after, pool2).contains_key(h) ==> marked_by(after, pool2)[h].1 == after[h].1
            && marked_by(after, pool2)[h].0 == referenced(pool2, h),
{
    assert(marked_by(after, pool2) =~= marked_by(unmarked(after), pool2));
}

/// A selection stays one when its predicate is replaced by an equal one.
proof fn lemma_selection_reindex<A>(
    s: Seq<A>,
    sub: Seq<A>,
    k1: spec_fn(int) -> bool,
    k2: spec_fn(int) -> bool,
    idx: Seq<int>,
)
    requires
        selection_by(s, sub, k1, idx),
        forall|j: int| 0 <= j < s.len() ==> #[trigger] k1(j) == k2(j),
    ensures
        selection_by(s, sub, k2, idx),
{
    assert forall|j: int| 0 <= j < s.len() implies (#[trigger] k2(j) <==> exists|a: int| 0 <= a < idx.len() && #[trigger] idx[a] == j) by {
        assert(k1(j) == k2(j));
    }
}

/// Whether two transactions spend a common output.
pub open spec fn conflicts(a: TxView, b: TxView) -> bool {
    exists|i: int, j: int|
        0 <= i < a.inputs.len() && 0 <= j < b.inputs.len() && #[trigger] a.inputs[i].prev == #[trigger] b.inputs[j].prev
}

/// What `add_to_mempool` accepts: every input names an unspent output, none
/// twice, and the outputs pay no more than the inputs bring.
pub open spec fn mempool_tx_valid(t: TxView, m: UtxoMap) -> bool {
    &&& inputs_exist(t, m)
    &&& crate::rules::inputs_distinct(t)
    &&& fee(t, m) >= 0
}

/// Whether `a` and `b` spend a common output.
fn shares_input(a: &Transaction, b: &Transaction) -> (r: bool)
    ensures
        r == conflicts(a@, b@),
{
    let mut i: usize = 0;
    while i < a.inputs.len()
        invariant
            i <= a@.inputs.len(),
            forall|x: int, y: int| 0 <= x < i && 0 <= y < b@.inputs.len() ==> #[trigger] a@.inputs[x].prev != #[trigger] b@.inputs[y].prev,
        decreases a@.inputs.len() - i,
    {
        let mut j: usize = 0;
        while j < b.inputs.len()
            invariant
                i < a@.inputs.len(),
                j <= b@.inputs.len(),
                forall|x: int, y: int| 0 <= x < i && 0 <= y < b@.inputs.len() ==> #[trigger] a@.inputs[x].prev != #[trigger] b@.inputs[y].prev,
                forall|y: int| 0 <= y < j ==> a@.inputs[i as int].prev != #[trigger] b@.inputs[y].prev,
            decreases b@.inputs.len() - j,
        {
            if a.inputs[i].prev_transaction_output_hash.equals(&b.inputs[j].prev_transaction_output_hash) {
                assert(a@.inputs[i as int].prev == b@.inputs[j as int].prev);
                return true;
            }
            j += 1;
        }
        i += 1;
    }
    false
}

/// Σ of the values of the outputs that `tx` spends.
fn input_sum(utxos: &UtxoSet, tx: &Transaction) -> (r: u128)
    requires
        utxos.wf(),
        inputs_exist(tx@, utxos@),
    ensures
        r == input_value(tx@.inputs, utxos@),
{
    let ghost t = tx@;
    let mut sum: u128 = 0;
    let mut k: usize = 0;
    while k < tx.inputs.len()
        invariant
            t == tx@,
            utxos.wf(),
            inputs_exist(t, utxos@),
            k <= t.inputs.len(),
            sum == input_value(t.inputs.subrange(0, k as int), utxos@),
            sum <= k * 0xFFFF_FFFF_FFFF_FFFFu128,
        decreases t.inputs.len() - k,
    {
        assert(t.inputs[k as int].prev == tx.inputs@[k as int].prev_transaction_output_hash);
        assert(utxos@.contains_key(t.inputs[k as int].prev));
        let v = match utxos.get(&tx.inputs[k].prev_transaction_output_hash) {
            Some(u) => u.output.value,
            None => 0,
        };
        proof {
            assert(t.inputs.subrange(0, k + 1).drop_last() =~= t.inputs.subrange(0, k as int));
            assert((k + 1) * 0xFFFF_FFFF_FFFF_FFFFu128 <= 0xFFFF_FFFF_FFFF_FFFFu128 * 0xFFFF_FFFF_FFFF_FFFFu128) by (nonlinear_arith)
                requires
                    k < t.inputs.len(),
                    t.inputs.len() <= usize::MAX,
            ;
        }
        sum = sum + v as u128;
        k += 1;
    }
    assert(t.inputs.subrange(0, t.inputs.len() as int) =~= t.inputs);
    sum
}

/// The checks of `add_to_mempool`; gives the fee of an acceptable transaction.
fn mempool_check(utxos: &UtxoSet, tx: &Transaction) -> (r: Option<u128>)
    requires
        utxos.wf(),
    ensures
        r.is_some() == mempool_tx_valid(tx@, utxos@),
        r.is_some() ==> r.unwrap() == fee(tx@, utxos@),
{
    let ghost t = tx@;
    let mut seen: Vec<crate::hash::Hash> = Vec::new();
    let mut k: usize = 0;
    while k < tx.inputs.len()
        invariant
            t == tx@,
            utxos.wf(),
            k <= t.inputs.len(),
            seen@.len() == k,
            forall|j: int| 0 <= j < k ==> seen@[j] == #[trigger] t.inputs[j].prev,
            forall|j: int| 0 <= j < k ==> #[trigger] utxos@.contains_key(t.inputs[j].prev),
            forall|a: int, b: int| 0 <= a < b < k ==> #[trigger] t.inputs[a].prev != #[trigger] t.inputs[b].prev,
        decreases t.inputs.len() - k,
    {
        let p = tx.inputs[k].prev_transaction_output_hash;
        assert(t.inputs[k as int].prev == p);
        if !utxos.contains(&p) {
            return None;
        }
        if crate::rules::seen_contains(&seen, &p) {
            proof {
                let j = choose|j: int| 0 <= j < seen@.len() && seen@[j] == p;
                assert(t.inputs[j].prev == t.inputs[k as int].prev);
            }
            return None;
        }
        proof {
            assert forall|j: int| 0 <= j < k implies t.inputs[j].prev != p by {
                assert(seen@[j] == t.inputs[j].prev);
            }
        }
        seen.push(p);
        k += 1;
    }
    let in_sum = input_sum(utxos, tx);
    let out_sum = crate::rules::sum_outputs(&tx.outputs);
    if in_sum < out_sum {
        return None;
    }
    Some(in_sum - out_sum)
}

/// Fees do not increase along a selection of a consistent pool.
proof fn lemma_selection_sorted(
    pool: Seq<(i64, TxView)>,
    kept: Seq<(i64, TxView)>,
    keep: spec_fn(int) -> bool,
    idx: Seq<int>,
    m: UtxoMap,
)
    requires
        mempool_consistent(pool, m),
        selection_by(pool, kept, keep, idx),
    ensures
        forall|a: int, b: int| 0 <= a < b < kept.len() ==> fee(#[trigger] kept[a].1, m) >= fee(#[trigger] kept[b].1, m),
        forall|a: int| 0 <= a < kept.len() ==> inputs_exist(#[trigger] kept[a].1, m) && fee(kept[a].1, m) >= 0,
        no_double_spend(pool_transactions(kept)),
{
    reveal(mempool_consistent);
    assert forall|a: int, b: int| 0 <= a < b < kept.len() implies fee(#[trigger] kept[a].1, m) >= fee(#[trigger] kept[b].1, m) by {
        assert(idx[a] < idx[b]);
        assert(kept[a] == pool[idx[a]] && kept[b] == pool[idx[b]]);
    }
    assert forall|a: int| 0 <= a < kept.len() implies inputs_exist(#[trigger] kept[a].1, m) && fee(kept[a].1, m) >= 0 by {
        assert(kept[a] == pool[idx[a]]);
    }
    let txs = pool_transactions(pool);
    let txs2 = pool_transactions(kept);
    assert forall|i1: int, k1: int, i2: int, k2: int|
        0 <= i1 < txs2.len() && 0 <= i2 < txs2.len() && 0 <= k1 < txs2[i1].inputs.len() && 0 <= k2
            < txs2[i2].inputs.len() && (i1 != i2 || k1 != k2) implies #[trigger] txs2[i1].inputs[k1].prev
            != #[trigger] txs2[i2].inputs[k2].prev by {
        assert(txs2[i1] == txs[idx[i1]]);
        assert(txs2[i2] == txs[idx[i2]]);
        if i1 != i2 {
            if i1 < i2 {
                assert(idx[i1] < idx[i2]);
            } else {
                assert(idx[i2] < idx[i1]);
            }
        }
    }
}

/// Putting a valid transaction that conflicts with none of a consistent
/// selection at the place its fee gives, and marking afresh, keeps the pool
/// consistent.
#[verifier::spinoff_prover]
#[verifier::rlimit(100)]
proof fn lemma_insert_consistent(
    kept: Seq<(i64, TxView)>,
    entry: (i64, TxView),
    p: int,
    m: UtxoMap,
    m_new: UtxoMap,
)
    requires
        0 <= p <= kept.len(),
        forall|a: int, b: int| 0 <= a < b < kept.len() ==> fee(#[trigger] kept[a].1, m) >= fee(#[trigger] kept[b].1, m),
        forall|a: int| 0 <= a < kept.len() ==> inputs_exist(#[trigger] kept[a].1, m) && fee(kept[a].1, m) >= 0,
        no_double_spend(pool_transactions(kept)),
        forall|a: int| 0 <= a < kept.len() ==> !conflicts(#[trigger] kept[a].1, entry.1),
        mempool_tx_valid(entry.1, m),
        forall|a: int| 0 <= a < p ==> fee(#[trigger] kept[a].1, m) >= fee(entry.1, m),
        p < kept.len() ==> fee(kept[p].1, m) < fee(entry.1, m),
        forall|h: crate::hash::Hash| #[trigger] m_new.contains_key(h) == m.contains_key(h),
        forall|h: crate::hash::Hash| #[trigger] m_new.contains_key(h) ==> m_new[h].1 == m[h].1 && m_new[h].0 == referenced(kept.insert(p, entry), h),
    ensures
        mempool_consistent(kept.insert(p, entry), m_new),
{
    reveal(mempool_consistent);
    let pool = kept.insert(p, entry);
    assert forall|a: int| 0 <= a < pool.len() implies #[trigger] fee(pool[a].1, m_new) == fee(pool[a].1, m) && inputs_exist(pool[a].1, m) && fee(pool[a].1, m) >= 0 by {
        let t = pool[a].1;
        if a < p {
            assert(pool[a] == kept[a]);
        } else if a > p {
            assert(pool[a] == kept[a - 1]);
        }
        assert(inputs_exist(t, m));
        assert forall|k: int| 0 <= k < t.inputs.len() implies #[trigger] m_new[t.inputs[k].prev].1.value == m[t.inputs[k].prev].1.value by {
            assert(m.contains_key(t.inputs[k].prev));
            assert(m_new.contains_key(t.inputs[k].prev) == m.contains_key(t.inputs[k].prev));
        }
        lemma_input_value_same(t.inputs, m_new, m);
    }
    assert forall|a: int| 0 <= a < pool.len() implies inputs_exist(#[trigger] pool[a].1, m_new) by {
        let t = pool[a].1;
        assert(fee(pool[a].1, m_new) == fee(pool[a].1, m));
        assert forall|k: int| 0 <= k < t.inputs.len() implies #[trigger] m_new.contains_key(t.inputs[k].prev) by {
            assert(m.contains_key(t.inputs[k].prev));
        }
    }
    assert forall|a: int| 0 <= a < pool.len() implies fee(#[trigger] pool[a].1, m_new) >= 0 by {
        assert(fee(pool[a].1, m_new) == fee(pool[a].1, m));
    }
    assert forall|a: int, b: int| 0 <= a < b < pool.len() implies fee(#[trigger] pool[a].1, m_new) >= fee(#[trigger] pool[b].1, m_new) by {
        assert(fee(pool[a].1, m_new) == fee(pool[a].1, m));
        assert(fee(pool[b].1, m_new) == fee(pool[b].1, m));
        if b < p {
            assert(pool[a] == kept[a] && pool[b] == kept[b]);
        } else if b == p {
            assert(pool[a] == kept[a]);
        } else if a < p {
            assert(pool[a] == kept[a] && pool[b] == kept[b - 1]);
            if p < kept.len() {
                if b - 1 > p {
                    assert(fee(kept[p].1, m) >= fee(kept[b - 1].1, m));
                }
            }
        } else if a == p {
            assert(pool[b] == kept[b - 1]);
            if b - 1 > p {
                assert(fee(kept[p].1, m) >= fee(kept[b - 1].1, m));
            }
        } else {
            assert(pool[a] == kept[a - 1] && pool[b] == kept[b - 1]);
        }
    }
    let txs = pool_transactions(pool);
    let txs0 = pool_transactions(kept);
    assert forall|i1: int, k1: int, i2: int, k2: int|
        0 <= i1 < txs.len() && 0 <= i2 < txs.len() && 0 <= k1 < txs[i1].inputs.len() && 0 <= k2
            < txs[i2].inputs.len() && (i1 != i2 || k1 != k2) implies #[trigger] txs[i1].inputs[k1].prev
            != #[trigger] txs[i2].inputs[k2].prev by {
        let j1 = if i1 < p { i1 } else { i1 - 1 };
        let j2 = if i2 < p { i2 } else { i2 - 1 };
        if i1 == p && i2 == p {
            if k1 < k2 {
                assert(entry.1.inputs[k1].prev != entry.1.inputs[k2].prev);
            } else {
                assert(entry.1.inputs[k2].prev != entry.1.inputs[k1].prev);
            }
        } else if i1 == p {
            assert(txs[i2] == txs0[j2]);
            assert(!conflicts(kept[j2].1, entry.1));
            if txs[i1].inputs[k1].prev == txs[i2].inputs[k2].prev {
                assert(kept[j2].1.inputs[k2].prev == entry.1.inputs[k1].prev);
            }
        } else if i2 == p {
            assert(txs[i1] == txs0[j1]);
            assert(!conflicts(kept[j1].1, entry.1));
            if txs[i1].inputs[k1].prev == txs[i2].inputs[k2].prev {
                assert(kept[j1].1.inputs[k1].prev == entry.1.inputs[k2].prev);
            }
        } else {
            assert(txs[i1] == txs0[j1]);
            assert(txs[i2] == txs0[j2]);
        }
    }
}

impl Blockchain {
    /// `add_to_mempool` with the entry time given.
    pub fn add_to_mempool_at(&mut self, transaction: Transaction, now: i64) -> (r: Result<(), BtcError>)
        requires
            old(self).wf(),
        ensures
            final(self).wf(),
            r.is_ok() == mempool_tx_valid(transaction@, old(self).utxo_map()),
            r.is_err() ==> r == Err::<(), BtcError>(BtcError::InvalidTransaction) && final(self).pool() == old(self).pool()
                && final(self).utxo_map() == old(self).utxo_map(),
            final(self).chain() == old(self).chain(),
            final(self).current_target() == old(self).current_target(),
            r.is_ok() ==> exists|kept: Seq<(i64, TxView)>, p: int|
                is_selection(old(self).pool(), kept, |j: int| !conflicts(old(self).pool()[j].1, transaction@))
                && 0 <= p <= kept.len() && final(self).pool() == kept.insert(p, (now, transaction@)),
            r.is_ok() ==> final(self).utxo_map() == marked_by(old(self).utxo_map(), final(self).pool()),
    {
        let ghost m = self.utxos@;
        let ghost pool = self.pool();
        let ghost t = transaction@;
        let fee_new = match mempool_check(&self.utxos, &transaction) {
            None => {
                return Err(BtcError::InvalidTransaction);
            },
            Some(f) => f,
        };
        let mut flags: Vec<bool> = Vec::new();
        let mut e: usize = 0;
        while e < self.mempool.len()
            invariant
                self.pool() == pool,
                t == transaction@,
                e <= pool.len(),
                flags@.len() == e,
                forall|x: int| 0 <= x < e ==> #[trigger] flags@[x] == !conflicts(pool[x].1, t),
            decreases pool.len() - e,
        {
            assert(pool[e as int].1 == self.mempool@[e as int].1@);
            flags.push(!shares_input(&self.mempool[e].1, &transaction));
            e += 1;
        }
        let (mut kept, sel) = select_entries(&self.mempool, &flags);
        let ghost idx = sel@;
        let ghost kept_v = pool_view(kept@);
        let ghost keep = |j: int| !conflicts(pool[j].1, t);
        proof {
            let flag_at = |j: int| flags@[j];
            assert forall|j: int| 0 <= j < pool.len() implies #[trigger] flag_at(j) == keep(j) by {}
            lemma_selection_reindex(pool, kept_v, flag_at, keep, idx);
            lemma_selection_sorted(pool, kept_v, keep, idx, m);
            assert forall|a: int| 0 <= a < kept_v.len() implies !conflicts(#[trigger] kept_v[a].1, t) by {
                assert(kept_v[a] == pool[idx[a]]);
                assert(keep(idx[a]));
            }
            assert forall|a: int| 0 <= a < kept@.len() implies inputs_exist(#[trigger] kept@[a].1@, m) && fee(kept@[a].1@, m) >= 0 by {
                assert(kept_v[a].1 == kept@[a].1@);
            }
        }
        let mut p: usize = 0;
        while p < kept.len() && entry_fee(&self.utxos, &kept[p].1) >= fee_new
            invariant
                self.utxos.wf(),
                self.utxos@ == m,
                kept_v == pool_view(kept@),
                forall|a: int| 0 <= a < kept_v.len() ==> inputs_exist(#[trigger] kept_v[a].1, m) && fee(kept_v[a].1, m) >= 0,
                forall|a: int| 0 <= a < kept@.len() ==> inputs_exist(#[trigger] kept@[a].1@, m) && fee(kept@[a].1@, m) >= 0,
                fee_new == fee(t, m),
                p <= kept_v.len(),
                forall|a: int| 0 <= a < p ==> fee(#[trigger] kept_v[a].1, m) >= fee(t, m),
            decreases kept_v.len() - p,
        {
            p += 1;
        }
        let ghost entry = (now, t);
        kept.insert(p, (now, transaction));
        proof {
            assert(pool_view(kept@) =~= kept_v.insert(p as int, entry));
        }
        self.mempool = kept;
        proof {
            assert forall|e2: int| 0 <= e2 < self.mempool@.len() implies inputs_exist(#[trigger] pool_view(self.mempool@)[e2].1, self.utxos@) by {
                let v = kept_v.insert(p as int, entry);
                if e2 < p {
                    assert(v[e2] == kept_v[e2]);
                } else if e2 > p {
                    assert(v[e2] == kept_v[e2 - 1]);
                }
            }
        }
        refresh_marks(&mut self.utxos, &self.mempool);
        proof {
            let m_new = self.utxos@;
            lemma_insert_consistent(kept_v, entry, p as int, m, m_new);
            assert(is_selection(pool, kept_v, keep));
            assert(pool_view(self.mempool@) == kept_v.insert(p as int, entry));
            lemma_unmarked_marked_by(m, self.pool());
        }
        Ok(())
    }
}

/// The fee of the pending transaction at `p`.
fn entry_fee(utxos: &UtxoSet, tx: &Transaction) -> (r: u128)
    requires
        utxos.wf(),
        inputs_exist(tx@, utxos@),
        fee(tx@, utxos@) >= 0,
    ensures
        r == fee(tx@, utxos@),
{
    let ins = input_sum(utxos, tx);
    let outs = crate::rules::sum_outputs(&tx.outputs);
    ins - outs
}

/// `after` is the entries of `before` still young enough at `now`, in order.
pub open spec fn kept_young(before: Seq<(i64, TxView)>, after: Seq<(i64, TxView)>, now: i64) -> bool {
    is_selection(before, after, |j: int| young_enough(before[j].0, now))
}

/// Whether an entry made at `t` is still young enough at `now`.
pub open spec fn young_enough(t: i64, now: i64) -> bool {
    now - t <= MAX_MEMPOOL_TRANSACTION_AGE as int * NANOS_PER_SECOND as int
}

impl Blockchain {
    /// Adds a pending transaction, entered now (see `add_to_mempool_at`).
    pub fn add_to_mempool(&mut self, transaction: Transaction) -> (r: Result<(), BtcError>)
        requires
            old(self).wf(),
        ensures
            final(self).wf(),
            r.is_ok() == mempool_tx_valid(transaction@, old(self).utxo_map()),
            r.is_err() ==> r == Err::<(), BtcError>(BtcError::InvalidTransaction) && final(self).pool() == old(self).pool()
                && final(self).utxo_map() == old(self).utxo_map(),
            final(self).chain() == old(self).chain(),
            final(self).current_target() == old(self).current_target(),
            r.is_ok() ==> exists|t: i64, kept: Seq<(i64, TxView)>, p: int|
                is_selection(old(self).pool(), kept, |j: int| !conflicts(old(self).pool()[j].1, transaction@))
                && 0 <= p <= kept.len() && final(self).pool() == kept.insert(p, (t, transaction@)),
            r.is_ok() ==> final(self).utxo_map() == marked_by(old(self).utxo_map(), final(self).pool()),
    {
        let now = match crate::primitives::now_nanos() {
            Some(t) => t,
            None => i64::MAX,
        };
        self.add_to_mempool_at(transaction, now)
    }

    /// Drops the pending transactions older than the maximum age at `now`,
    /// releasing what they reserved.
    pub fn cleanup_mempool_at(&mut self, now: i64)
        requires
            old(self).wf(),
        ensures
            final(self).wf(),
            final(self).chain() == old(self).chain(),
            final(self).current_target() == old(self).current_target(),
            is_selection(old(self).pool(), final(self).pool(), |j: int| young_enough(old(self).pool()[j].0, now)),
            final(self).utxo_map() == marked_by(old(self).utxo_map(), final(self).pool()),
    {
        let ghost m = self.utxos@;
        let ghost pool = self.pool();
        let mut flags: Vec<bool> = Vec::new();
        let mut e: usize = 0;
        while e < self.mempool.len()
            invariant
                self.pool() == pool,
                e <= pool.len(),
                flags@.len() == e,
                forall|x: int| 0 <= x < e ==> #[trigger] flags@[x] == young_enough(pool[x].0, now),
            decreases pool.len() - e,
        {
            let t = self.mempool[e].0;
            let age: i128 = (now as i128) - (t as i128);
            let limit: i128 = 600_000_000_000;
            assert(limit == MAX_MEMPOOL_TRANSACTION_AGE as int * NANOS_PER_SECOND as int);
            flags.push(age <= limit);
            e += 1;
        }
        let (kept, sel) = select_entries(&self.mempool, &flags);
        let ghost idx = sel@;
        self.mempool = kept;
        let ghost pool2 = self.pool();
        let ghost keep = |j: int| young_enough(pool[j].0, now);
        proof {
            let flag_at = |j: int| flags@[j];
            assert forall|j: int| 0 <= j < pool.len() implies #[trigger] flag_at(j) == keep(j) by {}
            lemma_selection_reindex(pool, pool2, flag_at, keep, idx);
            lemma_selection_sorted(pool, pool2, keep, idx, m);
        }
        refresh_marks(&mut self.utxos, &self.mempool);
        proof {
            let m_new = self.utxos@;
            assert forall|j: int| 0 <= j < pool.len() && #[trigger] keep(j) implies (forall|k: int|
                0 <= k < pool[j].1.inputs.len() ==> #[trigger] m_new.contains_key(pool[j].1.inputs[k].prev)
                    && m_new[pool[j].1.inputs[k].prev].1.value == m[pool[j].1.inputs[k].prev].1.value) by {
                reveal(mempool_consistent);
                assert(inputs_exist(pool[j].1, m));
                assert forall|k: int| 0 <= k < pool[j].1.inputs.len() implies #[trigger] m_new.contains_key(pool[j].1.inputs[k].prev)
                    && m_new[pool[j].1.inputs[k].prev].1.value == m[pool[j].1.inputs[k].prev].1.value by {
                    assert(m.contains_key(pool[j].1.inputs[k].prev));
                }
            }
            lemma_selection_consistent(pool, pool2, keep, idx, m, m_new);
            lemma_unmarked_marked_by(m, pool2);
        }
    }

    /// Drops the pending transactions older than the maximum age, as of the
    /// clock; where the clock cannot be read, nothing is dropped.
    pub fn cleanup_mempool(&mut self)
        requires
            old(self).wf(),
        ensures
            final(self).wf(),
            final(self).chain() == old(self).chain(),
            final(self).current_target() == old(self).current_target(),
            exists|now: i64| #[trigger] kept_young(old(self).pool(), final(self).pool(), now),
            final(self).utxo_map() == marked_by(old(self).utxo_map(), final(self).pool()),
    {
        match crate::primitives::now_nanos() {
            Some(now) => {
                self.cleanup_mempool_at(now);
                assert(kept_young(old(self).pool(), self.pool(), now));
            },
            None => {
                proof {
                    let pool = self.pool();
                    let idx = Seq::new(pool.len(), |i: int| i);
                    let keep = |j: int| young_enough(pool[j].0, i64::MIN);
                    assert(selection_by(pool, pool, keep, idx)) by {
                        assert forall|j: int| 0 <= j < pool.len() implies (#[trigger] keep(j) <==> exists|a: int| 0 <= a < idx.len() && #[trigger] idx[a] == j) by {
                            assert(idx[j] == j);
                        }
                    }
                    reveal(mempool_consistent);
                    assert(self.utxos@ =~= marked_by(self.utxos@, pool));
                    assert(kept_young(pool, pool, i64::MIN));
                }
            },
        }
    }

    /// Recomputes the unspent outputs by replaying every block from nothing,
    /// then marks those that pending transactions spend. Under the ledger
    /// invariants this gives back the same set.
    pub fn rebuild_utxos(&mut self)
        requires
            old(self).wf(),
        ensures
            final(self).wf(),
            final(self).chain() == old(self).chain(),
            final(self).pool() == old(self).pool(),
            final(self).current_target() == old(self).current_target(),
            final(self).utxo_map() == marked_by(replay(old(self).chain()), old(self).pool()),
            final(self).utxo_map() == old(self).utxo_map(),
    {
        let ghost c = self.chain();
        let ghost m = self.utxos@;
        let ghost pool = self.pool();
        let mut fresh = UtxoSet::new();
        let mut i: usize = 0;
        while i < self.blocks.len()
            invariant
                self.chain() == c,
                fresh.wf(),
                i <= c.len(),
                unmarked(fresh@) == apply_blocks(Map::empty(), c.subrange(0, i as int)),
            decreases c.len() - i,
        {
            apply_block_to(&mut fresh, &self.blocks[i]);
            proof {
                assert(c.subrange(0, i + 1).drop_last() =~= c.subrange(0, i as int));
                assert(c.subrange(0, i + 1).last() == self.blocks@[i as int]@);
                assert(unmarked(Map::<crate::hash::Hash, (bool, TransactionOutput)>::empty()) =~= Map::empty());
            }
            i += 1;
        }
        proof {
            assert(c.subrange(0, c.len() as int) =~= c);
            reveal(mempool_consistent);
            assert forall|e: int| 0 <= e < self.mempool@.len() implies inputs_exist(#[trigger] pool_view(self.mempool@)[e].1, fresh@) by {
                let t = pool[e].1;
                assert(inputs_exist(t, m));
                assert forall|k: int| 0 <= k < t.inputs.len() implies #[trigger] fresh@.contains_key(t.inputs[k].prev) by {
                    assert(m.contains_key(t.inputs[k].prev));
                    assert(unmarked(m).contains_key(t.inputs[k].prev));
                    assert(unmarked(fresh@).contains_key(t.inputs[k].prev));
                }
            }
        }
        let ghost unmarked_fresh = fresh@;
        refresh_marks(&mut fresh, &self.mempool);
        proof {
            assert(fresh@ =~= m) by {
                assert forall|h: crate::hash::Hash| #[trigger] fresh@.contains_key(h) == m.contains_key(h) by {
                    assert(unmarked(unmarked_fresh).contains_key(h) == unmarked(m).contains_key(h));
                }
                assert forall|h: crate::hash::Hash| fresh@.contains_key(h) implies #[trigger] fresh@[h] == m[h] by {
                    assert(unmarked(unmarked_fresh)[h] == unmarked(m)[h]);
                    assert(m.contains_key(h));
                }
            }
            lemma_unmarked_marked_by(unmarked_fresh, pool);
            assert(marked_by(unmarked_fresh, pool) =~= marked_by(replay(c), pool));
        }
        self.utxos = fresh;
    }
}

impl Blockchain {
    /// Each block after the genesis names the hash of the header before it;
    /// the genesis names the zero hash.
    pub proof fn lemma_blocks_linked(&self)
        requires
            self.wf(),
        ensures
            forall|i: int|
                1 <= i < self.chain().len() ==> #[trigger] self.chain()[i].header.prev_block_hash
                    == header_hash(self.chain()[i - 1].header),
            self.chain().len() > 0 ==> self.chain()[0].header.prev_block_hash == crate::hash::Hash::spec_zero(),
    {
        reveal(chain_valid);
        assert forall|i: int| 1 <= i < self.chain().len() implies #[trigger] self.chain()[i].header.prev_block_hash
            == header_hash(self.chain()[i - 1].header) by {
            assert(linked(self.chain()[i - 1], self.chain()[i]));
        }
    }

    /// Each block after the genesis has a header hash at most its target.
    pub proof fn lemma_blocks_meet_target(&self)
        requires
            self.wf(),
        ensures
            forall|i: int|
                1 <= i < self.chain().len() ==> header_hash(#[trigger] self.chain()[i].header).num.value()
                    <= self.chain()[i].header.target.value(),
    {
        reveal(chain_valid);
        assert forall|i: int| 1 <= i < self.chain().len() implies header_hash(#[trigger] self.chain()[i].header).num.value()
            <= self.chain()[i].header.target.value() by {
            assert(linked(self.chain()[i - 1], self.chain()[i]));
        }
    }

    /// Every input of a pending transaction names an unspent output that is
    /// marked, and no two pending inputs name the same output.
    pub proof fn lemma_mempool_reserves(&self)
        requires
            self.wf(),
        ensures
            forall|e: int, k: int|
                0 <= e < self.pool().len() && 0 <= k < self.pool()[e].1.inputs.len() ==> self.utxo_map().contains_key(
                    #[trigger] self.pool()[e].1.inputs[k].prev,
                ) && self.utxo_map()[self.pool()[e].1.inputs[k].prev].0,
            no_double_spend(pool_transactions(self.pool())),
    {
        reveal(mempool_consistent);
        assert forall|e: int, k: int|
            0 <= e < self.pool().len() && 0 <= k < self.pool()[e].1.inputs.len() implies self.utxo_map().contains_key(
                #[trigger] self.pool()[e].1.inputs[k].prev,
            ) && self.utxo_map()[self.pool()[e].1.inputs[k].prev].0 by {
            assert(inputs_exist(self.pool()[e].1, self.utxo_map()));
            assert(referenced(self.pool(), self.pool()[e].1.inputs[k].prev));
        }
    }

    /// The mempool is ordered by fee, highest first.
    pub proof fn lemma_mempool_sorted(&self)
        requires
            self.wf(),
        ensures
            forall|a: int, b: int|
                0 <= a < b < self.pool().len() ==> fee(#[trigger] self.pool()[a].1, self.utxo_map()) >= fee(
                    #[trigger] self.pool()[b].1,
                    self.utxo_map(),
                ),
    {
        reveal(mempool_consistent);
    }
}

/// The retarget rule changes the target only at multiples of the interval,
/// and then keeps it within `[target/4, target×4]` and at most the minimum
/// target; from a target of at least 4 it stays positive.
pub proof fn lemma_retarget_bounds(c: Seq<BlockView>, t: U256)
    requires
        t.value() <= spec_min_target().value(),
    ensures
        c.len() == 0 || c.len() % DIFFICULTY_UPDATE_INTERVAL as nat != 0 ==> retarget_value(c, t) == t.value(),
        t.value() / 4 <= retarget_value(c, t) <= 4 * t.value(),
        retarget_value(c, t) <= spec_min_target().value(),
        t.value() >= 4 ==> retarget_value(c, t) > 0,
{
}

/// How many pending transactions a template carries.
pub open spec fn template_count(pool_len: nat) -> nat {
    if pool_len < BLOCK_TRANSACTION_CAP as nat {
        pool_len
    } else {
        BLOCK_TRANSACTION_CAP as nat
    }
}

/// The hash a new block must name: the last header's, or zero on an empty chain.
pub open spec fn tip_hash(c: Seq<BlockView>) -> crate::hash::Hash {
    if c.len() == 0 {
        crate::hash::Hash::spec_zero()
    } else {
        header_hash(c.last().header)
    }
}

impl Blockchain {
    /// The hash a new block must name.
    pub fn last_block_hash(&self) -> (r: crate::hash::Hash)
        ensures
            r == tip_hash(self.chain()),
    {
        let n = self.blocks.len();
        if n == 0 {
            crate::hash::Hash::zero()
        } else {
            proof {
                assert(self.chain().last() == self.blocks@[n - 1]@);
            }
            self.blocks[n - 1].hash()
        }
    }

    /// A block template for the miner paid at `address`: a coinbase paying the
    /// reward plus the fees, then the first pending transactions (highest fee
    /// first, at most the cap), over the current tip and target. None where
    /// that payment does not fit in 64 bits.
    pub fn build_template(&self, address: String, now: i64, unique_id: u128) -> (r: Option<Block>)
        requires
            self.wf(),
        ensures
            ({
                let k = template_count(self.pool().len());
                let txs = pool_transactions(self.pool()).subrange(0, k as int);
                let pay = block_reward(self.chain().len()) + fees_of(txs, self.utxo_map());
                &&& r.is_some() == (pay <= u64::MAX)
                &&& r.is_some() ==> {
                    let b = r.unwrap()@;
                    &&& b.transactions.len() == k + 1
                    &&& b.transactions[0].inputs.len() == 0
                    &&& b.transactions[0].outputs == seq![TransactionOutput { value: pay as u64, unique_id, address }]
                    &&& b.transactions[0].outputs[0].value == pay
                    &&& b.transactions.subrange(1, k + 1 as int) == txs
                    &&& b.header.timestamp == now
                    &&& b.header.nonce == 0
                    &&& b.header.prev_block_hash == tip_hash(self.chain())
                    &&& b.header.target == self.current_target()
                    &&& b.header.merkle_root == merkle_root_of(b.transactions)
                }
            }),
    {
        let ghost pool = self.pool();
        let ghost m = self.utxos@;
        let cap = if self.mempool.len() < BLOCK_TRANSACTION_CAP {
            self.mempool.len()
        } else {
            BLOCK_TRANSACTION_CAP
        };
        let ghost txs = pool_transactions(pool).subrange(0, cap as int);
        proof {
            reveal(mempool_consistent);
        }
        let mut picked: Vec<Transaction> = Vec::new();
        let mut fees: u128 = 0;
        let mut overflow = false;
        let mut i: usize = 0;
        while i < cap
            invariant
                self.wf(),
                pool == self.pool(),
                m == self.utxos@,
                cap <= pool.len(),
                txs == pool_transactions(pool).subrange(0, cap as int),
                forall|x: int| 0 <= x < pool.len() ==> inputs_exist(#[trigger] pool[x].1, m) && fee(pool[x].1, m) >= 0,
                i <= cap,
                picked@.map_values(|t: Transaction| t@) == txs.subrange(0, i as int),
                fees_of(txs.subrange(0, i as int), m) >= 0,
                !overflow ==> fees == fees_of(txs.subrange(0, i as int), m),
                overflow ==> fees_of(txs.subrange(0, i as int), m) > u128::MAX,
            decreases cap - i,
        {
            let tx = &self.mempool[i].1;
            assert(pool[i as int].1 == tx@);
            let f = entry_fee(&self.utxos, tx);
            proof {
                assert(txs.subrange(0, i + 1).drop_last() =~= txs.subrange(0, i as int));
                assert(txs.subrange(0, i + 1).last() == tx@);
            }
            if !overflow {
                if fees > u128::MAX - f {
                    overflow = true;
                } else {
                    fees = fees + f;
                }
            }
            picked.push(tx.clone());
            i += 1;
            proof {
                assert(picked@.map_values(|t: Transaction| t@) =~= txs.subrange(0, i as int));
            }
        }
        proof {
            assert(txs.subrange(0, cap as int) =~= txs);
        }
        let reward = crate::rules::calculate_block_reward(self.blocks.len() as u64);
        if overflow || fees > (u64::MAX - reward) as u128 {
            return None;
        }
        let pay: u64 = reward + fees as u64;
        let ghost out = TransactionOutput { value: pay, unique_id, address };
        let coinbase = Transaction { inputs: Vec::new(), outputs: vec![TransactionOutput { value: pay, unique_id, address }] };
        let mut transactions: Vec<Transaction> = vec![coinbase];
        transactions.append(&mut picked);
        let merkle = merkle_root(&transactions);
        let header = crate::types::BlockHeader {
            timestamp: now,
            nonce: 0,
            prev_block_hash: self.last_block_hash(),
            merkle_root: merkle,
            target: self.target,
        };
        let b = Block { header, transactions };
        proof {
            assert(b@.transactions.subrange(1, cap + 1) =~= txs);
            assert(b@.transactions[0].outputs =~= seq![out]);
        }
        Some(b)
    }
}

proof fn lemma_remove_spent(m: UtxoMap, ins: Seq<InputView>)
    ensures
        forall|k: int| 0 <= k < ins.len() ==> !remove_spent(m, ins).contains_key(#[trigger] ins[k].prev),
        forall|h: crate::hash::Hash|
            (forall|k: int| 0 <= k < ins.len() ==> ins[k].prev != h) ==> (#[trigger] remove_spent(m, ins).contains_key(h)
                == m.contains_key(h) && remove_spent(m, ins)[h] == m[h]),
    decreases ins.len(),
{
    if ins.len() > 0 {
        lemma_remove_spent(m, ins.drop_last());
        assert forall|k: int| 0 <= k < ins.len() implies !remove_spent(m, ins).contains_key(#[trigger] ins[k].prev) by {
            if k < ins.len() - 1 {
                assert(ins.drop_last()[k] == ins[k]);
            }
        }
        assert forall|h: crate::hash::Hash|
            (forall|k: int| 0 <= k < ins.len() ==> ins[k].prev != h) implies (#[trigger] remove_spent(m, ins).contains_key(h)
                == m.contains_key(h) && remove_spent(m, ins)[h] == m[h]) by {
            assert(ins[ins.len() - 1].prev != h);
            assert forall|k: int| 0 <= k < ins.drop_last().len() implies ins.drop_last()[k].prev != h by {
                assert(ins.drop_last()[k] == ins[k]);
            }
            let prev = remove_spent(m, ins.drop_last());
            assert(prev.contains_key(h) == m.contains_key(h) && prev[h] == m[h]);
            assert(remove_spent(m, ins) == prev.remove(ins.last().prev));
        }
    }
}

proof fn lemma_add_created(m: UtxoMap, outs: Seq<TransactionOutput>)
    ensures
        forall|j: int| 0 <= j < outs.len() ==> add_created(m, outs).contains_key(#[trigger] output_hash(outs[j])),
        forall|h: crate::hash::Hash|
            (forall|j: int| 0 <= j < outs.len() ==> output_hash(outs[j]) != h) ==> (#[trigger] add_created(m, outs).contains_key(h)
                == m.contains_key(h) && add_created(m, outs)[h] == m[h]),
    decreases outs.len(),
{
    if outs.len() > 0 {
        lemma_add_created(m, outs.drop_last());
        assert forall|j: int| 0 <= j < outs.len() implies add_created(m, outs).contains_key(#[trigger] output_hash(outs[j])) by {
            if j < outs.len() - 1 {
                assert(outs.drop_last()[j] == outs[j]);
            }
        }
        assert forall|h: crate::hash::Hash|
            (forall|j: int| 0 <= j < outs.len() ==> output_hash(outs[j]) != h) implies (#[trigger] add_created(m, outs).contains_key(h)
                == m.contains_key(h) && add_created(m, outs)[h] == m[h]) by {
            assert(output_hash(outs[outs.len() - 1]) != h);
            assert forall|j: int| 0 <= j < outs.drop_last().len() implies output_hash(outs.drop_last()[j]) != h by {
                assert(outs.drop_last()[j] == outs[j]);
            }
            let prev = add_created(m, outs.drop_last());
            assert(prev.contains_key(h) == m.contains_key(h) && prev[h] == m[h]);
            assert(add_created(m, outs) == prev.insert(output_hash(outs.last()), (false, outs.last())));
        }
    }
}

/// Replaying a committed transaction: every output it creates is unspent
/// afterwards; every output it spends is gone, unless the same transaction
/// creates an output with that hash again; every other output is untouched.
pub proof fn lemma_apply_transaction(m: UtxoMap, t: TxView)
    ensures
        forall|j: int| 0 <= j < t.outputs.len() ==> apply_transaction(m, t).contains_key(#[trigger] output_hash(t.outputs[j])),
        forall|k: int|
            0 <= k < t.inputs.len() && (forall|j: int| 0 <= j < t.outputs.len() ==> output_hash(t.outputs[j]) != t.inputs[k].prev)
                ==> !apply_transaction(m, t).contains_key(#[trigger] t.inputs[k].prev),
        forall|h: crate::hash::Hash|
            (forall|k: int| 0 <= k < t.inputs.len() ==> t.inputs[k].prev != h) && (forall|j: int|
                0 <= j < t.outputs.len() ==> output_hash(t.outputs[j]) != h) ==> (#[trigger] apply_transaction(m, t).contains_key(h)
                == m.contains_key(h) && apply_transaction(m, t)[h] == m[h]),
{
    lemma_remove_spent(m, t.inputs);
    lemma_add_created(remove_spent(m, t.inputs), t.outputs);
    assert forall|k: int|
        0 <= k < t.inputs.len() && (forall|j: int| 0 <= j < t.outputs.len() ==> output_hash(t.outputs[j]) != t.inputs[k].prev)
            implies !apply_transaction(m, t).contains_key(#[trigger] t.inputs[k].prev) by {
        assert(!remove_spent(m, t.inputs).contains_key(t.inputs[k].prev));
    }
}

impl Blockchain {
    /// A block template for the miner paid at `address`, stamped now and with
    /// a fresh identifier on the coinbase output (see `build_template`).
    #[verifier::spinoff_prover]
    #[verifier::rlimit(100)]
    pub fn fetch_template(&self, address: String) -> (r: Option<Block>)
        requires
            self.wf(),
        ensures
            r.is_some() == (block_reward(self.chain().len()) + fees_of(
                pool_transactions(self.pool()).subrange(0, template_count(self.pool().len()) as int),
                self.utxo_map(),
            ) <= u64::MAX),
            r.is_some() ==> r.unwrap()@.transactions.len() == template_count(self.pool().len()) + 1
                && r.unwrap()@.transactions.subrange(1, template_count(self.pool().len()) + 1 as int)
                == pool_transactions(self.pool()).subrange(0, template_count(self.pool().len()) as int),
            r.is_some() ==> r.unwrap()@.transactions[0].inputs.len() == 0
                && r.unwrap()@.transactions[0].outputs.len() == 1
                && r.unwrap()@.transactions[0].outputs[0].address == address
                && r.unwrap()@.transactions[0].outputs[0].value == block_reward(self.chain().len()) + fees_of(
                    pool_transactions(self.pool()).subrange(0, template_count(self.pool().len()) as int),
                    self.utxo_map(),
                ),
            r.is_some() ==> r.unwrap()@.header.prev_block_hash == tip_hash(self.chain())
                && r.unwrap()@.header.target == self.current_target()
                && r.unwrap()@.header.merkle_root == merkle_root_of(r.unwrap()@.transactions),
    {
        let now = match crate::primitives::now_nanos() {
            Some(t) => t,
            None => i64::MAX,
        };
        let unique_id = crate::primitives::fresh_uuid();
        let ghost a = address;
        let r = self.build_template(address, now, unique_id);
        proof {
            if r.is_some() {
                let b = r.unwrap()@;
                let k = template_count(self.pool().len());
                let txs = pool_transactions(self.pool()).subrange(0, k as int);
                let pay = block_reward(self.chain().len()) + fees_of(txs, self.utxo_map());
                assert(b.transactions[0].outputs == seq![TransactionOutput { value: pay as u64, unique_id, address: a }]);
                assert(b.transactions[0].outputs[0] == TransactionOutput { value: pay as u64, unique_id, address: a });
            }
        }
        r
    }
}

impl Blockchain {
    /// Whether a template still builds on the current tip.
    pub fn validate_template(&self, template: &Block) -> (r: bool)
        ensures
            r == (template@.header.prev_block_hash == tip_hash(self.chain())),
    {
        template.header.prev_block_hash.equals(&self.last_block_hash())
    }
}

/// Whether an unspent output pays to the address `a`.
pub open spec fn pays_to(a: Seq<char>) -> spec_fn(Utxo) -> bool {
    |u: Utxo| u.output.address@ == a
}

/// An unspent output with its mark, as a wallet sees it.
pub open spec fn as_owned(u: Utxo) -> (TransactionOutput, bool) {
    (u.output, u.marked)
}

proof fn lemma_filter_step(s: Seq<Utxo>, i: int, p: spec_fn(Utxo) -> bool)
    requires
        0 <= i < s.len(),
    ensures
        s.subrange(0, i + 1).filter(p) == if p(s[i]) {
            s.subrange(0, i).filter(p).push(s[i])
        } else {
            s.subrange(0, i).filter(p)
        },
{
    reveal(Seq::filter);
    assert(s.subrange(0, i + 1).drop_last() =~= s.subrange(0, i));
    assert(s.subrange(0, i + 1).last() == s[i]);
}

impl Blockchain {
    /// The unspent outputs paid to `address`, each with its mark, in the
    /// set's order.
    pub fn utxos_for_address(&self, address: &String) -> (r: Vec<(TransactionOutput, bool)>)
        requires
            self.wf(),
        ensures
            r@ == self.utxo_entries().filter(pays_to(address@)).map_values(|u: Utxo| as_owned(u)),
    {
        let entries = self.utxos.entries();
        let ghost s = entries@;
        let ghost p = pays_to(address@);
        let mut r: Vec<(TransactionOutput, bool)> = Vec::new();
        let mut i: usize = 0;
        while i < entries.len()
            invariant
                s == entries@,
                p == pays_to(address@),
                i <= s.len(),
                r@ == s.subrange(0, i as int).filter(p).map_values(|u: Utxo| as_owned(u)),
            decreases s.len() - i,
        {
            let e = &entries[i];
            proof {
                lemma_filter_step(s, i as int, p);
            }
            if e.output.address == *address {
                r.push((e.output.clone(), e.marked));
                proof {
                    assert(r@ =~= s.subrange(0, i + 1).filter(p).map_values(|u: Utxo| as_owned(u)));
                }
            }
            i += 1;
        }
        proof {
            assert(s.subrange(0, s.len() as int) =~= s);
        }
        r
    }
}

/// Every committed transaction, block after block, in order.
pub open spec fn committed(bs: Seq<BlockView>) -> Seq<TxView>
    decreases bs.len(),
{
    if bs.len() == 0 {
        Seq::empty()
    } else {
        committed(bs.drop_last()) + bs.last().transactions
    }
}

/// Some output of `txs[i..]` has the hash `h`.
pub open spec fn output_named_from(txs: Seq<TxView>, i: int, h: crate::hash::Hash) -> bool {
    exists|j: int, o: int|
        i <= j < txs.len() && 0 <= o < txs[j].outputs.len() && #[trigger] output_hash(txs[j].outputs[o]) == h
            && #[trigger] txs[j].outputs.len() > 0
}

/// Some input of `txs[i+1..]` names `h`.
pub open spec fn input_named_after(txs: Seq<TxView>, i: int, h: crate::hash::Hash) -> bool {
    exists|j: int, k: int| i < j < txs.len() && 0 <= k < txs[j].inputs.len() && #[trigger] txs[j].inputs[k].prev == h
}

proof fn lemma_apply_concat(m: UtxoMap, a: Seq<TxView>, b: Seq<TxView>)
    ensures
        apply_transactions(m, a + b) == apply_transactions(apply_transactions(m, a), b),
    decreases b.len(),
{
    if b.len() == 0 {
        assert(a + b =~= a);
    } else {
        lemma_apply_concat(m, a, b.drop_last());
        assert((a + b).drop_last() =~= a + b.drop_last());
        assert((a + b).last() == b.last());
    }
}

proof fn lemma_apply_blocks_committed(m: UtxoMap, bs: Seq<BlockView>)
    ensures
        apply_blocks(m, bs) == apply_transactions(m, committed(bs)),
    decreases bs.len(),
{
    if bs.len() > 0 {
        lemma_apply_blocks_committed(m, bs.drop_last());
        lemma_apply_concat(m, committed(bs.drop_last()), bs.last().transactions);
    }
}

proof fn lemma_spent_stays_out(m: UtxoMap, txs: Seq<TxView>, i: int, k: int)
    requires
        0 <= i < txs.len(),
        0 <= k < txs[i].inputs.len(),
        !output_named_from(txs, i, txs[i].inputs[k].prev),
    ensures
        !apply_transactions(m, txs).contains_key(txs[i].inputs[k].prev),
    decreases txs.len(),
{
    let h = txs[i].inputs[k].prev;
    let n = txs.len();
    let pre = txs.drop_last();
    let t = txs.last();
    lemma_apply_transaction(apply_transactions(m, pre), t);
    assert forall|o: int| 0 <= o < t.outputs.len() implies output_hash(t.outputs[o]) != h by {
        assert(txs[n - 1] == t);
        if output_hash(t.outputs[o]) == h {
            assert(output_hash(txs[n - 1].outputs[o]) == h && txs[n - 1].outputs.len() > 0);
        }
    }
    if i < n - 1 {
        assert(pre[i] == txs[i]);
        assert(!output_named_from(pre, i, h)) by {
            if output_named_from(pre, i, h) {
                let (j, o) = choose|j: int, o: int|
                    i <= j < pre.len() && 0 <= o < pre[j].outputs.len() && #[trigger] output_hash(pre[j].outputs[o]) == h
                        && #[trigger] pre[j].outputs.len() > 0;
                assert(pre[j] == txs[j]);
                assert(output_hash(txs[j].outputs[o]) == h && txs[j].outputs.len() > 0);
            }
        }
        lemma_spent_stays_out(m, pre, i, k);
        if exists|k2: int| 0 <= k2 < t.inputs.len() && t.inputs[k2].prev == h {
            let k2 = choose|k2: int| 0 <= k2 < t.inputs.len() && t.inputs[k2].prev == h;
            assert(!apply_transaction(apply_transactions(m, pre), t).contains_key(t.inputs[k2].prev));
        }
    } else {
        assert(t == txs[i]);
        assert(!apply_transaction(apply_transactions(m, pre), t).contains_key(t.inputs[k].prev));
    }
}

proof fn lemma_created_stays_in(m: UtxoMap, txs: Seq<TxView>, i: int, j: int)
    requires
        0 <= i < txs.len(),
        0 <= j < txs[i].outputs.len(),
        !input_named_after(txs, i, output_hash(txs[i].outputs[j])),
    ensures
        apply_transactions(m, txs).contains_key(output_hash(txs[i].outputs[j])),
    decreases txs.len(),
{
    let h = output_hash(txs[i].outputs[j]);
    let n = txs.len();
    let pre = txs.drop_last();
    let t = txs.last();
    lemma_apply_transaction(apply_transactions(m, pre), t);
    if i < n - 1 {
        assert(pre[i] == txs[i]);
        assert(!input_named_after(pre, i, h)) by {
            if input_named_after(pre, i, h) {
                let (j2, k) = choose|j2: int, k: int| i < j2 < pre.len() && 0 <= k < pre[j2].inputs.len() && #[trigger] pre[j2].inputs[k].prev == h;
                assert(pre[j2] == txs[j2]);
                assert(txs[j2].inputs[k].prev == h);
            }
        }
        lemma_created_stays_in(m, pre, i, j);
        assert forall|k: int| 0 <= k < t.inputs.len() implies t.inputs[k].prev != h by {
            assert(txs[n - 1] == t);
            if t.inputs[k].prev == h {
                assert(txs[n - 1].inputs[k].prev == h);
            }
        }
        if exists|o: int| 0 <= o < t.outputs.len() && output_hash(t.outputs[o]) == h {
            let o = choose|o: int| 0 <= o < t.outputs.len() && output_hash(t.outputs[o]) == h;
            assert(apply_transaction(apply_transactions(m, pre), t).contains_key(output_hash(t.outputs[o])));
        }
    } else {
        assert(t == txs[i]);
        assert(apply_transaction(apply_transactions(m, pre), t).contains_key(output_hash(t.outputs[j])));
    }
}

/// The unspent outputs of a chain, as replayed: an output that a committed
/// input names is absent, unless that or a later transaction creates an
/// output with the same hash again; an output that a committed transaction
/// creates is present, unless a later committed input names it.
pub proof fn lemma_replay_spent_and_unspent(c: Seq<BlockView>)
    ensures
        forall|i: int, k: int|
            0 <= i < committed(c).len() && 0 <= k < committed(c)[i].inputs.len() && !output_named_from(
                committed(c),
                i,
                committed(c)[i].inputs[k].prev,
            ) ==> !replay(c).contains_key(#[trigger] committed(c)[i].inputs[k].prev),
        forall|i: int, j: int|
            0 <= i < committed(c).len() && 0 <= j < committed(c)[i].outputs.len() && !input_named_after(
                committed(c),
                i,
                output_hash(committed(c)[i].outputs[j]),
            ) ==> replay(c).contains_key(#[trigger] output_hash(committed(c)[i].outputs[j])),
{
    let m = Map::<crate::hash::Hash, (bool, TransactionOutput)>::empty();
    lemma_apply_blocks_committed(m, c);
    assert forall|i: int, k: int|
        0 <= i < committed(c).len() && 0 <= k < committed(c)[i].inputs.len() && !output_named_from(
            committed(c),
            i,
            committed(c)[i].inputs[k].prev,
        ) implies !replay(c).contains_key(#[trigger] committed(c)[i].inputs[k].prev) by {
        lemma_spent_stays_out(m, committed(c), i, k);
    }
    assert forall|i: int, j: int|
        0 <= i < committed(c).len() && 0 <= j < committed(c)[i].outputs.len() && !input_named_after(
            committed(c),
            i,
            output_hash(committed(c)[i].outputs[j]),
        ) implies replay(c).contains_key(#[trigger] output_hash(committed(c)[i].outputs[j])) by {
        lemma_created_stays_in(m, committed(c), i, j);
    }
}

impl Blockchain {
    /// The unspent outputs are those of the replayed chain, with the same
    /// outputs under the same keys; with `lemma_replay_spent_and_unspent` this
    /// says which committed outputs are spent and which are not.
    pub proof fn lemma_utxos_are_replay(&self)
        requires
            self.wf(),
        ensures
            forall|h: crate::hash::Hash| #[trigger] self.utxo_map().contains_key(h) == replay(self.chain()).contains_key(h),
            forall|h: crate::hash::Hash| #[trigger] self.utxo_map().contains_key(h) ==> self.utxo_map()[h].1 == replay(
                self.chain(),
            )[h].1,
    {
        assert forall|h: crate::hash::Hash| #[trigger] self.utxo_map().contains_key(h) == replay(self.chain()).contains_key(h) by {
            assert(unmarked(self.utxos@).contains_key(h) == self.utxos@.contains_key(h));
        }
        assert forall|h: crate::hash::Hash| #[trigger] self.utxo_map().contains_key(h) implies self.utxo_map()[h].1 == replay(
            self.chain(),
        )[h].1 by {
            assert(unmarked(self.utxos@)[h].1 == self.utxos@[h].1);
        }
    }
}

/// Some output after position `(i, j)` of `txs`, in order, has the hash `h`.
pub open spec fn output_named_after(txs: Seq<TxView>, i: int, j: int, h: crate::hash::Hash) -> bool {
    exists|i2: int, j2: int|
        0 <= i2 < txs.len() && 0 <= j2 < txs[i2].outputs.len() && (i2 > i || (i2 == i && j2 > j))
            && #[trigger] output_hash(txs[i2].outputs[j2]) == h
}

proof fn lemma_add_created_value(m: UtxoMap, outs: Seq<TransactionOutput>, j: int)
    requires
        0 <= j < outs.len(),
        forall|j2: int| j < j2 < outs.len() ==> #[trigger] output_hash(outs[j2]) != output_hash(outs[j]),
    ensures
        add_created(m, outs).contains_key(output_hash(outs[j])),
        add_created(m, outs)[output_hash(outs[j])] == (false, outs[j]),
    decreases outs.len(),
{
    if j < outs.len() - 1 {
        assert(outs.drop_last()[j] == outs[j]);
        assert forall|j2: int| j < j2 < outs.drop_last().len() implies #[trigger] output_hash(outs.drop_last()[j2])
            != output_hash(outs.drop_last()[j]) by {
            assert(outs.drop_last()[j2] == outs[j2]);
        }
        lemma_add_created_value(m, outs.drop_last(), j);
        assert(output_hash(outs[outs.len() - 1]) != output_hash(outs[j]));
    }
}

proof fn lemma_created_value(m: UtxoMap, txs: Seq<TxView>, i: int, j: int)
    requires
        0 <= i < txs.len(),
        0 <= j < txs[i].outputs.len(),
        !input_named_after(txs, i, output_hash(txs[i].outputs[j])),
        !output_named_after(txs, i, j, output_hash(txs[i].outputs[j])),
    ensures
        apply_transactions(m, txs).contains_key(output_hash(txs[i].outputs[j])),
        apply_transactions(m, txs)[output_hash(txs[i].outputs[j])] == (false, txs[i].outputs[j]),
    decreases txs.len(),
{
    let h = output_hash(txs[i].outputs[j]);
    let n = txs.len();
    let pre = txs.drop_last();
    let t = txs.last();
    assert(txs[n - 1] == t);
    lemma_apply_transaction(apply_transactions(m, pre), t);
    if i < n - 1 {
        assert(pre[i] == txs[i]);
        assert(!input_named_after(pre, i, h)) by {
            if input_named_after(pre, i, h) {
                let (j2, k) = choose|j2: int, k: int| i < j2 < pre.len() && 0 <= k < pre[j2].inputs.len() && #[trigger] pre[j2].inputs[k].prev == h;
                assert(pre[j2] == txs[j2]);
                assert(txs[j2].inputs[k].prev == h);
            }
        }
        assert(!output_named_after(pre, i, j, h)) by {
            if output_named_after(pre, i, j, h) {
                let (i2, j2) = choose|i2: int, j2: int|
                    0 <= i2 < pre.len() && 0 <= j2 < pre[i2].outputs.len() && (i2 > i || (i2 == i && j2 > j))
                        && #[trigger] output_hash(pre[i2].outputs[j2]) == h;
                assert(pre[i2] == txs[i2]);
                assert(output_hash(txs[i2].outputs[j2]) == h);
            }
        }
        lemma_created_value(m, pre, i, j);
        assert forall|k: int| 0 <= k < t.inputs.len() implies t.inputs[k].prev != h by {
            if t.inputs[k].prev == h {
                assert(txs[n - 1].inputs[k].prev == h);
            }
        }
        assert forall|o: int| 0 <= o < t.outputs.len() implies output_hash(t.outputs[o]) != h by {
            if output_hash(t.outputs[o]) == h {
                assert(output_hash(txs[n - 1].outputs[o]) == h);
            }
        }
        let x = apply_transactions(m, pre);
        let y = remove_spent(x, t.inputs);
        lemma_remove_spent(x, t.inputs);
        assert(forall|k: int| 0 <= k < t.inputs.len() ==> t.inputs[k].prev != h);
        assert(y.contains_key(h) == x.contains_key(h) && y[h] == x[h]);
        lemma_add_created(y, t.outputs);
        assert(forall|o: int| 0 <= o < t.outputs.len() ==> output_hash(t.outputs[o]) != h);
        assert(add_created(y, t.outputs).contains_key(h) == y.contains_key(h) && add_created(y, t.outputs)[h] == y[h]);
        assert(apply_transactions(m, txs) == apply_transaction(x, t));
    } else {
        assert(t == txs[i]);
        assert forall|j2: int| j < j2 < t.outputs.len() implies #[trigger] output_hash(t.outputs[j2]) != output_hash(t.outputs[j]) by {
            if output_hash(t.outputs[j2]) == h {
                assert(output_hash(txs[i].outputs[j2]) == h);
            }
        }
        lemma_add_created_value(remove_spent(apply_transactions(m, pre), t.inputs), t.outputs, j);
    }
}

/// An output that a committed transaction creates stands unspent, as it was
/// created and unmarked in the replay, when no later committed input names
/// it and no later output has the same hash.
pub proof fn lemma_replay_keeps_output(c: Seq<BlockView>, i: int, j: int)
    requires
        0 <= i < committed(c).len(),
        0 <= j < committed(c)[i].outputs.len(),
        !input_named_after(committed(c), i, output_hash(committed(c)[i].outputs[j])),
        !output_named_after(committed(c), i, j, output_hash(committed(c)[i].outputs[j])),
    ensures
        replay(c).contains_key(output_hash(committed(c)[i].outputs[j])),
        replay(c)[output_hash(committed(c)[i].outputs[j])] == (false, committed(c)[i].outputs[j]),
{
    let m = Map::<crate::hash::Hash, (bool, TransactionOutput)>::empty();
    lemma_apply_blocks_committed(m, c);
    lemma_created_value(m, committed(c), i, j);
}

} // verus!
