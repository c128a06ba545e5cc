//! The UTXO data model: transactions, inputs, outputs, unspent outputs, and
//! the canonical Keccak-256 transaction hash.

use vstd::prelude::*;

verus! {

use vstd::bytes::{spec_u32_to_le_bytes, spec_u64_to_le_bytes};
use crate::encoding::{copy_bytes, push_bytes, push_u32_le, push_u64_le};
use crate::hashing::{keccak256, keccak_of, Hash256};

/// A transaction input spending an existing unspent output.
#[derive(Clone, Debug)]
pub struct Input {
    /// Hash of the transaction whose output is being spent.
    pub previous_output: Hash256,
    /// Index of that output in the previous transaction.
    pub index: u32,
    /// Signature bytes proving ownership; not interpreted here.
    pub signature: Vec<u8>,
    /// Sequence number for relative timelocks.
    pub sequence: u32,
}

/// A transaction output.
#[derive(Clone, Debug)]
pub struct Output {
    pub value: u64,
    pub public_key_hash: Vec<u8>,
    pub lock_script: Vec<u8>,
}

/// A transaction: inputs spent, outputs created, and its canonical hash.
#[derive(Clone, Debug)]
pub struct Transaction {
    pub version: u32,
    pub inputs: Vec<Input>,
    pub outputs: Vec<Output>,
    pub lock_time: u64,
    pub hash: Hash256,
}

/// An unspent transaction output and where it came from.
#[derive(Clone, Debug)]
pub struct Utxo {
    /// The output itself.
    pub output: Output,
    /// Height of the block containing it; 0 while unconfirmed.
    pub block_height: u32,
    /// Index in the transaction's output vector.
    pub output_index: u32,
    /// Hash of the transaction containing it.
    pub tx_hash: Hash256,
    /// Whether it has been included in a block.
    pub is_confirmed: bool,
}

/// The bytes one input contributes to the hash preimage.
pub open spec fn input_bytes(i: Input) -> Seq<u8> {
    i.previous_output@ + spec_u32_to_le_bytes(i.index) + i.signature@ + spec_u32_to_le_bytes(
        i.sequence,
    )
}

/// The concatenated input fields of a transaction.
pub open spec fn inputs_bytes(s: Seq<Input>) -> Seq<u8>
    decreases s.len(),
{
    if s.len() == 0 {
        Seq::empty()
    } else {
        inputs_bytes(s.drop_last()) + input_bytes(s.last())
    }
}

/// The bytes one output contributes to the hash preimage.
pub open spec fn output_bytes(o: Output) -> Seq<u8> {
    spec_u64_to_le_bytes(o.value) + o.public_key_hash@ + o.lock_script@
}

/// The concatenated output fields of a transaction.
pub open spec fn outputs_bytes(s: Seq<Output>) -> Seq<u8>
    decreases s.len(),
{
    if s.len() == 0 {
        Seq::empty()
    } else {
        outputs_bytes(s.drop_last()) + output_bytes(s.last())
    }
}

/// The hash preimage: version, every input, every output, lock time, all
/// integers little-endian, no length prefixes, the hash field excluded.
pub open spec fn tx_preimage(t: Transaction) -> Seq<u8> {
    spec_u32_to_le_bytes(t.version) + inputs_bytes(t.inputs@) + outputs_bytes(t.outputs@)
        + spec_u64_to_le_bytes(t.lock_time)
}

impl Transaction {
    /// The canonical transaction hash: Keccak-256 of the preimage.
    pub open spec fn hash_spec(self) -> Seq<u8> {
        keccak_of(tx_preimage(self))
    }

    /// Compute the canonical hash from the transaction's fields; the stored
    /// `hash` field takes no part.
    pub fn calculate_hash(&self) -> (r: Hash256)
        ensures
            r@ == self.hash_spec(),
    {
        let mut buf: Vec<u8> = Vec::new();
        push_u32_le(&mut buf, self.version);
        let ghost prefix1 = buf@;
        let n = self.inputs.len();
        let mut i: usize = 0;
        while i < n
            invariant
                i <= n,
                n == self.inputs@.len(),
                buf@ == prefix1 + inputs_bytes(self.inputs@.subrange(0, i as int)),
            decreases n - i,
        {
            let input = &self.inputs[i];
            push_bytes(&mut buf, vstd::array::array_as_slice(&input.previous_output.bytes));
            push_u32_le(&mut buf, input.index);
            push_bytes(&mut buf, input.signature.as_slice());
            push_u32_le(&mut buf, input.sequence);
            proof {
                let t = self.inputs@.subrange(0, i + 1);
                assert(t.drop_last() =~= self.inputs@.subrange(0, i as int));
                assert(t.last() == self.inputs@[i as int]);
                assert(buf@ =~= prefix1 + inputs_bytes(t));
            }
            i += 1;
        }
        assert(self.inputs@.subrange(0, n as int) =~= self.inputs@);
        let ghost prefix2 = buf@;
        let m = self.outputs.len();
        let mut j: usize = 0;
        while j < m
            invariant
                j <= m,
                m == self.outputs@.len(),
                buf@ == prefix2 + outputs_bytes(self.outputs@.subrange(0, j as int)),
            decreases m - j,
        {
            let output = &self.outputs[j];
            push_u64_le(&mut buf, output.value);
            push_bytes(&mut buf, output.public_key_hash.as_slice());
            push_bytes(&mut buf, output.lock_script.as_slice());
            proof {
                let t = self.outputs@.subrange(0, j + 1);
                assert(t.drop_last() =~= self.outputs@.subrange(0, j as int));
                assert(t.last() == self.outputs@[j as int]);
                assert(buf@ =~= prefix2 + outputs_bytes(t));
            }
            j += 1;
        }
        assert(self.outputs@.subrange(0, m as int) =~= self.outputs@);
        push_u64_le(&mut buf, self.lock_time);
        proof {
            assert(buf@ =~= tx_preimage(*self));
        }
        keccak256(buf.as_slice())
    }
}

/// The contents of an output, as plain mathematical values.
pub struct OutputView {
    pub value: u64,
    pub public_key_hash: Seq<u8>,
    pub lock_script: Seq<u8>,
}

impl View for Output {
    type V = OutputView;

    open spec fn view(&self) -> OutputView {
        OutputView {
            value: self.value,
            public_key_hash: self.public_key_hash@,
            lock_script: self.lock_script@,
        }
    }
}

/// The contents of an unspent output, as plain mathematical values.
pub struct UtxoView {
    pub output: OutputView,
    pub block_height: u32,
    pub output_index: u32,
    pub tx_hash: Seq<u8>,
    pub is_confirmed: bool,
}

impl View for Utxo {
    type V = UtxoView;

    open spec fn view(&self) -> UtxoView {
        UtxoView {
            output: self.output@,
            block_height: self.block_height,
            output_index: self.output_index,
            tx_hash: self.tx_hash@,
            is_confirmed: self.is_confirmed,
        }
    }
}

/// A fresh copy of an output, equal in contents.
pub fn duplicate_output(o: &Output) -> (r: Output)
    ensures
        r@ == o@,
{
    Output {
        value: o.value,
        public_key_hash: copy_bytes(&o.public_key_hash),
        lock_script: copy_bytes(&o.lock_script),
    }
}

/// A fresh copy of an unspent output, equal in contents.
pub fn duplicate_utxo(u: &Utxo) -> (r: Utxo)
    ensures
        r@ == u@,
{
    Utxo {
        output: duplicate_output(&u.output),
        block_height: u.block_height,
        output_index: u.output_index,
        tx_hash: u.tx_hash,
        is_confirmed: u.is_confirmed,
    }
}

impl Utxo {
    /// A confirmed unspent output at the given block height.
    pub fn new(output: Output, block_height: u32, output_index: u32, tx_hash: Hash256) -> (r: Utxo)
        ensures
            r.output == output,
            r.block_height == block_height,
            r.output_index == output_index,
            r.tx_hash == tx_hash,
            r.is_confirmed,
    {
        Utxo { output, block_height, output_index, tx_hash, is_confirmed: true }
    }

    /// An unspent output not yet included in a block.
    pub fn new_unconfirmed(output: Output, output_index: u32, tx_hash: Hash256) -> (r: Utxo)
        ensures
            r.output == output,
            r.block_height == 0,
            r.output_index == output_index,
            r.tx_hash == tx_hash,
            !r.is_confirmed,
    {
        Utxo { output, block_height: 0, output_index, tx_hash, is_confirmed: false }
    }
}

} // verus!
