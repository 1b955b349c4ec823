//! Ledger values: outputs, inputs, transactions, headers and blocks, with the
//! canonical encodings that their hashes are taken over.
use crate::crypto::{PublicKey, Signature};
use crate::hash::{
    enc_bytes, enc_u128, enc_u256, enc_u64, hash_of_bytes, put_bytes, put_u128, put_u256, put_u64,
};
use crate::uint::U256;
use vstd::prelude::*;
use vstd::utf8::encode_utf8;

verus! {

/// An amount paid to an address; `unique_id` tells apart otherwise equal outputs.
#[derive(Debug)]
pub struct TransactionOutput {
    pub value: u64,
    pub unique_id: u128,
    pub address: String,
}

/// A claim on an earlier output, signed by the key that owns it.
#[derive(Debug)]
pub struct TransactionInput {
    pub prev_transaction_output_hash: crate::hash::Hash,
    pub public_key: PublicKey,
    pub signature: Signature,
}

/// Inputs consumed and outputs created; a coinbase has no inputs.
#[derive(Debug)]
pub struct Transaction {
    pub inputs: Vec<TransactionInput>,
    pub outputs: Vec<TransactionOutput>,
}

/// A block's header; `timestamp` is in nanoseconds since the Unix epoch.
#[derive(Clone, Copy, Debug)]
pub struct BlockHeader {
    pub timestamp: i64,
    pub nonce: u64,
    pub prev_block_hash: crate::hash::Hash,
    pub merkle_root: crate::hash::Hash,
    pub target: U256,
}

/// A header and the transactions it commits to.
#[derive(Debug)]
pub struct Block {
    pub header: BlockHeader,
    pub transactions: Vec<Transaction>,
}

/// What an input holds, as plain values.
pub struct InputView {
    pub prev: crate::hash::Hash,
    pub public_key: Seq<u8>,
    pub signature: Seq<u8>,
}

/// What a transaction holds, as plain values.
pub struct TxView {
    pub inputs: Seq<InputView>,
    pub outputs: Seq<TransactionOutput>,
}

/// What a block holds, as plain values.
pub struct BlockView {
    pub header: BlockHeader,
    pub transactions: Seq<TxView>,
}

impl View for TransactionInput {
    type V = InputView;

    open spec fn view(&self) -> InputView {
        InputView {
            prev: self.prev_transaction_output_hash,
            public_key: self.public_key@,
            signature: self.signature@,
        }
    }
}

impl View for Transaction {
    type V = TxView;

    open spec fn view(&self) -> TxView {
        TxView {
            inputs: self.inputs@.map_values(|i: TransactionInput| i@),
            outputs: self.outputs@,
        }
    }
}

impl View for Block {
    type V = BlockView;

    open spec fn view(&self) -> BlockView {
        BlockView {
            header: self.header,
            transactions: self.transactions@.map_values(|t: Transaction| t@),
        }
    }
}

impl Clone for TransactionOutput {
    fn clone(&self) -> (r: TransactionOutput)
        ensures
            r == *self,
    {
        TransactionOutput {
            value: self.value,
            unique_id: self.unique_id,
            address: self.address.clone(),
        }
    }
}

impl Clone for TransactionInput {
    fn clone(&self) -> (r: TransactionInput)
        ensures
            r@ == self@,
    {
        TransactionInput {
            prev_transaction_output_hash: self.prev_transaction_output_hash,
            public_key: self.public_key.clone(),
            signature: self.signature.clone(),
        }
    }
}

impl Clone for Transaction {
    fn clone(&self) -> (r: Transaction)
        ensures
            r@ == self@,
    {
        let mut inputs: Vec<TransactionInput> = Vec::new();
        let mut i: usize = 0;
        while i < self.inputs.len()
            invariant
                i <= self.inputs@.len(),
                inputs@.len() == i,
                forall|k: int| 0 <= k < i ==> #[trigger] inputs@[k]@ == self.inputs@[k]@,
            decreases self.inputs@.len() - i,
        {
            inputs.push(self.inputs[i].clone());
            i += 1;
        }
        let mut outputs: Vec<TransactionOutput> = Vec::new();
        let mut j: usize = 0;
        while j < self.outputs.len()
            invariant
                j <= self.outputs@.len(),
                outputs@ == self.outputs@.subrange(0, j as int),
            decreases self.outputs@.len() - j,
        {
            outputs.push(self.outputs[j].clone());
            j += 1;
            assert(outputs@ =~= self.outputs@.subrange(0, j as int));
        }
        assert(self.outputs@.subrange(0, self.outputs@.len() as int) =~= self.outputs@);
        let r = Transaction { inputs, outputs };
        assert(r@.inputs =~= self@.inputs);
        r
    }
}

impl Clone for Block {
    fn clone(&self) -> (r: Block)
        ensures
            r@ == self@,
    {
        let mut transactions: Vec<Transaction> = Vec::new();
        let mut i: usize = 0;
        while i < self.transactions.len()
            invariant
                i <= self.transactions@.len(),
                transactions@.len() == i,
                forall|k: int|
                    0 <= k < i ==> #[trigger] transactions@[k]@ == self.transactions@[k]@,
            decreases self.transactions@.len() - i,
        {
            transactions.push(self.transactions[i].clone());
            i += 1;
        }
        let r = Block { header: self.header, transactions };
        assert(r@.transactions =~= self@.transactions);
        r
    }
}

/// The canonical bytes of an output.
pub open spec fn enc_output(o: TransactionOutput) -> Seq<u8> {
    enc_u64(o.value) + enc_u128(o.unique_id) + enc_bytes(encode_utf8(o.address@))
}

/// The canonical bytes of an input.
pub open spec fn enc_input(i: InputView) -> Seq<u8> {
    enc_u256(i.prev.num) + enc_bytes(i.public_key) + enc_bytes(i.signature)
}

/// The canonical bytes of a run of inputs, one after another.
pub open spec fn enc_inputs(s: Seq<InputView>) -> Seq<u8>
    decreases s.len(),
{
    if s.len() == 0 {
        Seq::empty()
    } else {
        enc_inputs(s.drop_last()) + enc_input(s.last())
    }
}

/// The canonical bytes of a run of outputs, one after another.
pub open spec fn enc_outputs(s: Seq<TransactionOutput>) -> Seq<u8>
    decreases s.len(),
{
    if s.len() == 0 {
        Seq::empty()
    } else {
        enc_outputs(s.drop_last()) + enc_output(s.last())
    }
}

/// The canonical bytes of a transaction: each list preceded by its length.
pub open spec fn enc_transaction(t: TxView) -> Seq<u8> {
    enc_u64(t.inputs.len() as u64) + enc_inputs(t.inputs) + enc_u64(t.outputs.len() as u64)
        + enc_outputs(t.outputs)
}

/// The canonical bytes of a header.
pub open spec fn enc_header(h: BlockHeader) -> Seq<u8> {
    enc_u64(h.timestamp as u64) + enc_u64(h.nonce) + enc_u256(h.prev_block_hash.num) + enc_u256(
        h.merkle_root.num,
    ) + enc_u256(h.target)
}

/// H(output).
#[verifier::opaque]
pub open spec fn output_hash(o: TransactionOutput) -> crate::hash::Hash {
    hash_of_bytes(enc_output(o))
}

/// H(transaction).
#[verifier::opaque]
pub open spec fn transaction_hash(t: TxView) -> crate::hash::Hash {
    hash_of_bytes(enc_transaction(t))
}

/// H(header).
#[verifier::opaque]
pub open spec fn header_hash(h: BlockHeader) -> crate::hash::Hash {
    hash_of_bytes(enc_header(h))
}

fn put_output(out: &mut Vec<u8>, o: &TransactionOutput)
    ensures
        final(out)@ == old(out)@ + enc_output(*o),
{
    put_u64(out, o.value);
    put_u128(out, o.unique_id);
    put_bytes(out, o.address.as_str().as_bytes());
    assert(out@ =~= old(out)@ + enc_output(*o));
}

fn put_input(out: &mut Vec<u8>, i: &TransactionInput)
    ensures
        final(out)@ == old(out)@ + enc_input(i@),
{
    put_u256(out, &i.prev_transaction_output_hash.num);
    put_bytes(out, i.public_key.bytes.as_slice());
    put_bytes(out, i.signature.bytes.as_slice());
    assert(out@ =~= old(out)@ + enc_input(i@));
}

#[verifier::spinoff_prover]
#[verifier::rlimit(60)]
fn put_transaction(out: &mut Vec<u8>, t: &Transaction)
    ensures
        final(out)@ == old(out)@ + enc_transaction(t@),
{
    put_u64(out, t.inputs.len() as u64);
    let ghost start = out@;
    let mut k: usize = 0;
    while k < t.inputs.len()
        invariant
            k <= t.inputs@.len(),
            out@ == start + enc_inputs(t@.inputs.subrange(0, k as int)),
        decreases t.inputs@.len() - k,
    {
        put_input(out, &t.inputs[k]);
        assert(t@.inputs.subrange(0, k + 1).drop_last() =~= t@.inputs.subrange(0, k as int));
        k += 1;
        assert(out@ =~= start + enc_inputs(t@.inputs.subrange(0, k as int)));
    }
    assert(t@.inputs.subrange(0, t@.inputs.len() as int) =~= t@.inputs);
    put_u64(out, t.outputs.len() as u64);
    let ghost mid = out@;
    let mut j: usize = 0;
    while j < t.outputs.len()
        invariant
            j <= t.outputs@.len(),
            out@ == mid + enc_outputs(t.outputs@.subrange(0, j as int)),
        decreases t.outputs@.len() - j,
    {
        put_output(out, &t.outputs[j]);
        assert(t.outputs@.subrange(0, j + 1).drop_last() =~= t.outputs@.subrange(0, j as int));
        j += 1;
        assert(out@ =~= mid + enc_outputs(t.outputs@.subrange(0, j as int)));
    }
    assert(t.outputs@.subrange(0, t.outputs@.len() as int) =~= t.outputs@);
    assert(out@ =~= old(out)@ + enc_transaction(t@));
}

impl TransactionOutput {
    /// H(output): the key under which the output stands in the UTXO set.
    pub fn hash(&self) -> (r: crate::hash::Hash)
        ensures
            r == output_hash(*self),
    {
        let mut out: Vec<u8> = Vec::new();
        put_output(&mut out, self);
        assert(out@ =~= enc_output(*self));
        reveal(output_hash);
        crate::hash::Hash::of_bytes(out.as_slice())
    }
}

impl Transaction {
    pub fn new(inputs: Vec<TransactionInput>, outputs: Vec<TransactionOutput>) -> (r: Transaction)
        ensures
            r.inputs@ == inputs@,
            r.outputs@ == outputs@,
    {
        Transaction { inputs, outputs }
    }

    /// H(transaction).
    pub fn hash(&self) -> (r: crate::hash::Hash)
        ensures
            r == transaction_hash(self@),
    {
        let mut out: Vec<u8> = Vec::new();
        put_transaction(&mut out, self);
        assert(out@ =~= enc_transaction(self@));
        reveal(transaction_hash);
        crate::hash::Hash::of_bytes(out.as_slice())
    }
}

impl BlockHeader {
    pub fn new(
        timestamp: i64,
        nonce: u64,
        prev_block_hash: crate::hash::Hash,
        merkle_root: crate::hash::Hash,
        target: U256,
    ) -> (r: BlockHeader)
        ensures
            r == (BlockHeader { timestamp, nonce, prev_block_hash, merkle_root, target }),
    {
        BlockHeader { timestamp, nonce, prev_block_hash, merkle_root, target }
    }

    /// H(header).
    pub fn hash(&self) -> (r: crate::hash::Hash)
        ensures
            r == header_hash(*self),
    {
        let mut out: Vec<u8> = Vec::new();
        put_u64(&mut out, self.timestamp as u64);
        put_u64(&mut out, self.nonce);
        put_u256(&mut out, &self.prev_block_hash.num);
        put_u256(&mut out, &self.merkle_root.num);
        put_u256(&mut out, &self.target);
        assert(out@ =~= enc_header(*self));
        reveal(header_hash);
        crate::hash::Hash::of_bytes(out.as_slice())
    }
}

impl Block {
    pub fn new(header: BlockHeader, transactions: Vec<Transaction>) -> (r: Block)
        ensures
            r.header == header,
            r.transactions@ == transactions@,
    {
        Block { header, transactions }
    }

    /// H(header): a block's hash is its header's.
    pub fn hash(&self) -> (r: crate::hash::Hash)
        ensures
            r == header_hash(self.header),
    {
        self.header.hash()
    }
}

} // verus!
