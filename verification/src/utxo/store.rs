//! Durable UTXO storage on a sled key-value tree, modelled as a map from
//! encoded `(tx_hash, output_index)` keys to encoded outputs, with atomic
//! batches for inserts and removals.

use vstd::prelude::*;

verus! {

use vstd::bytes::{spec_u32_to_le_bytes, spec_u64_to_le_bytes};
use crate::encoding::{push_bytes, push_u32_le, push_u64_le};
use crate::hashing::Hash256;
use crate::utxo::models::{Input, Output, Transaction};

/// Why a storage operation failed.
#[derive(Clone, Debug)]
pub enum StoreError {
    /// The backend reported an error, carried as text.
    StorageError(String),
}

#[verifier::external_type_specification]
#[verifier::external_body]
pub struct ExDb(sled::Db);

#[verifier::external_type_specification]
#[verifier::external_body]
pub struct ExBatch(sled::Batch);

/// The key-value pairs a sled tree holds.
pub uninterp spec fn sled_kv(db: sled::Db) -> Map<Seq<u8>, Seq<u8>>;

/// The writes a sled batch carries: `Some` inserts the value, `None`
/// removes the key; a later write to the same key replaces an earlier one.
pub uninterp spec fn batch_writes(b: sled::Batch) -> Map<Seq<u8>, Option<Seq<u8>>>;

/// A write set applied to a map: written keys are inserted or removed,
/// every other key keeps its value.
pub open spec fn apply_writes(
    kv: Map<Seq<u8>, Seq<u8>>,
    w: Map<Seq<u8>, Option<Seq<u8>>>,
) -> Map<Seq<u8>, Seq<u8>> {
    Map::new(
        |k: Seq<u8>|
            if w.dom().contains(k) {
                w[k] is Some
            } else {
                kv.dom().contains(k)
            },
        |k: Seq<u8>|
            if w.dom().contains(k) && w[k] is Some {
                w[k]->0
            } else {
                kv[k]
            },
    )
}

pub proof fn lemma_apply_empty(kv: Map<Seq<u8>, Seq<u8>>, w: Map<Seq<u8>, Option<Seq<u8>>>)
    requires
        w.dom() == Set::<Seq<u8>>::empty(),
    ensures
        apply_writes(kv, w) == kv,
{
    assert(apply_writes(kv, w) =~= kv);
}

pub proof fn lemma_apply_insert(
    kv: Map<Seq<u8>, Seq<u8>>,
    w: Map<Seq<u8>, Option<Seq<u8>>>,
    k: Seq<u8>,
    v: Seq<u8>,
)
    ensures
        apply_writes(kv, w.insert(k, Some(v))) == apply_writes(kv, w).insert(k, v),
{
    assert(apply_writes(kv, w.insert(k, Some(v))) =~= apply_writes(kv, w).insert(k, v));
}

pub proof fn lemma_apply_remove(
    kv: Map<Seq<u8>, Seq<u8>>,
    w: Map<Seq<u8>, Option<Seq<u8>>>,
    k: Seq<u8>,
)
    ensures
        apply_writes(kv, w.insert(k, None)) == apply_writes(kv, w).remove(k),
{
    assert(apply_writes(kv, w.insert(k, None)) =~= apply_writes(kv, w).remove(k));
}

/// Relies on `sled::open`: opens or creates a tree at the path; what it
/// holds depends on the disk, so nothing is promised of the contents.
#[verifier::external_body]
fn db_open(path: &str) -> (r: Result<sled::Db, StoreError>) {
    sled::open(path).map_err(|e| StoreError::StorageError(e.to_string()))
}

/// Relies on `sled::Tree::contains_key`: whether the tree holds the key.
#[verifier::external_body]
fn db_contains(db: &sled::Db, key: &Vec<u8>) -> (r: Result<bool, StoreError>)
    ensures
        r matches Ok(b) ==> b == sled_kv(*db).dom().contains(key@),
{
    db.contains_key(key.as_slice()).map_err(|e| StoreError::StorageError(e.to_string()))
}

/// `n` counts the tree's keys: the modelled domain is finite and `n` is
/// its size.
pub open spec fn counts_keys(n: usize, m: Map<Seq<u8>, Seq<u8>>) -> bool {
    m.dom().finite() && n == m.len()
}

/// `b` reports whether a finite tree holds no key.
pub open spec fn reports_empty(b: bool, m: Map<Seq<u8>, Seq<u8>>) -> bool {
    m.dom().finite() && (b <==> m.dom() == Set::<Seq<u8>>::empty())
}

/// Relies on `sled::Tree::len`: the number of keys in the tree, which is
/// always a finite set.
#[verifier::external_body]
fn db_len(db: &sled::Db) -> (r: usize)
    ensures
        counts_keys(r, sled_kv(*db)),
{
    db.len()
}

/// Relies on `sled::Tree::is_empty`: whether the tree holds no key; the
/// tree's key set is always finite.
#[verifier::external_body]
fn db_is_empty(db: &sled::Db) -> (r: bool)
    ensures
        reports_empty(r, sled_kv(*db)),
{
    db.is_empty()
}

/// Relies on `sled::Batch::default`: a batch that carries no write.
#[verifier::external_body]
fn batch_new() -> (r: sled::Batch)
    ensures
        batch_writes(r).dom() == Set::<Seq<u8>>::empty(),
{
    sled::Batch::default()
}

/// Relies on `sled::Batch::insert`: records that the key gets the value,
/// replacing any earlier write of the key in this batch.
#[verifier::external_body]
fn batch_set(b: &mut sled::Batch, key: &Vec<u8>, value: &Vec<u8>)
    ensures
        batch_writes(*final(b)) == batch_writes(*old(b)).insert(key@, Some(value@)),
{
    b.insert(key.as_slice(), value.as_slice());
}

/// Relies on `sled::Batch::remove`: records that the key is deleted,
/// replacing any earlier write of the key in this batch.
#[verifier::external_body]
fn batch_del(b: &mut sled::Batch, key: &Vec<u8>)
    ensures
        batch_writes(*final(b)) == batch_writes(*old(b)).insert(key@, None),
{
    b.remove(key.as_slice());
}

/// Relies on `sled::Tree::apply_batch`: on success every write of the batch
/// is applied, each key's last write winning; a failed call promises
/// nothing of the contents.
#[verifier::external_body]
fn db_apply(db: &mut sled::Db, batch: sled::Batch) -> (r: Result<(), StoreError>)
    ensures
        r is Ok ==> sled_kv(*final(db)) == apply_writes(sled_kv(*old(db)), batch_writes(batch)),
{
    db.apply_batch(batch).map_err(|e| StoreError::StorageError(e.to_string()))
}

/// The store key of one spendable output: 32 hash bytes, then the output
/// index as 4 little-endian bytes.
pub open spec fn utxo_key(tx_hash: Seq<u8>, index: u32) -> Seq<u8> {
    tx_hash + spec_u32_to_le_bytes(index)
}

/// Store keys of equal-length hashes are distinct unless hash and index
/// both agree.
pub proof fn lemma_utxo_key_injective(a: Seq<u8>, i: u32, b: Seq<u8>, j: u32)
    requires
        a.len() == b.len(),
        utxo_key(a, i) == utxo_key(b, j),
    ensures
        a == b,
        i == j,
{
    vstd::bytes::lemma_auto_spec_u32_to_from_le_bytes();
    let n = a.len() as int;
    assert(a =~= utxo_key(a, i).subrange(0, n));
    assert(b =~= utxo_key(b, j).subrange(0, n));
    assert(spec_u32_to_le_bytes(i) =~= utxo_key(a, i).subrange(n, n + 4));
    assert(spec_u32_to_le_bytes(j) =~= utxo_key(b, j).subrange(n, n + 4));
    assert(vstd::bytes::spec_u32_from_le_bytes(spec_u32_to_le_bytes(i)) == i);
    assert(vstd::bytes::spec_u32_from_le_bytes(spec_u32_to_le_bytes(j)) == j);
}

/// The store key an input refers to.
pub open spec fn input_key(i: Input) -> Seq<u8> {
    utxo_key(i.previous_output@, i.index)
}

/// The stored encoding of an output: the value as 8 little-endian bytes,
/// then each byte field behind an 8-byte length prefix.
pub open spec fn stored_output_bytes(o: Output) -> Seq<u8> {
    spec_u64_to_le_bytes(o.value) + spec_u64_to_le_bytes(o.public_key_hash@.len() as u64)
        + o.public_key_hash@ + spec_u64_to_le_bytes(o.lock_script@.len() as u64) + o.lock_script@
}

/// A store after inserting the first `n` outputs of a transaction.
pub open spec fn outputs_applied(kv: Map<Seq<u8>, Seq<u8>>, t: Transaction, n: int) -> Map<
    Seq<u8>,
    Seq<u8>,
>
    decreases n,
{
    if n <= 0 {
        kv
    } else {
        outputs_applied(kv, t, n - 1).insert(
            utxo_key(t.hash@, (n - 1) as u32),
            stored_output_bytes(t.outputs@[n - 1]),
        )
    }
}

/// A store after removing the keys of the first `n` inputs.
pub open spec fn inputs_removed(kv: Map<Seq<u8>, Seq<u8>>, inputs: Seq<Input>, n: int) -> Map<
    Seq<u8>,
    Seq<u8>,
>
    decreases n,
{
    if n <= 0 {
        kv
    } else {
        inputs_removed(kv, inputs, n - 1).remove(input_key(inputs[n - 1]))
    }
}

/// Encode a store key.
fn encode_key(tx_hash: &Hash256, index: u32) -> (r: Vec<u8>)
    ensures
        r@ == utxo_key(tx_hash@, index),
{
    let mut buf: Vec<u8> = Vec::new();
    push_bytes(&mut buf, vstd::array::array_as_slice(&tx_hash.bytes));
    push_u32_le(&mut buf, index);
    buf
}

/// Encode a stored output.
fn encode_output(o: &Output) -> (r: Vec<u8>)
    ensures
        r@ == stored_output_bytes(*o),
{
    let mut buf: Vec<u8> = Vec::new();
    push_u64_le(&mut buf, o.value);
    push_u64_le(&mut buf, o.public_key_hash.len() as u64);
    push_bytes(&mut buf, o.public_key_hash.as_slice());
    push_u64_le(&mut buf, o.lock_script.len() as u64);
    push_bytes(&mut buf, o.lock_script.as_slice());
    buf
}

/// Persistent UTXO storage over a sled tree: batched, crash-durable writes
/// keyed by `(tx_hash, output_index)`.
pub struct SdbStore {
    db: sled::Db,
}

impl SdbStore {
    /// The key-value pairs the store holds.
    pub closed spec fn kv(self) -> Map<Seq<u8>, Seq<u8>> {
        sled_kv(self.db)
    }

    /// Open (or create) the store at a filesystem path. What it holds
    /// depends on what is on disk.
    pub fn new(path: &str) -> (r: Result<SdbStore, StoreError>) {
        match db_open(path) {
            Ok(db) => Ok(SdbStore { db }),
            Err(e) => Err(e),
        }
    }

    /// Insert one entry per output of the transaction, keyed by its hash and
    /// the output's index, as a single atomic batch.
    pub fn add_outputs(&mut self, tx: &Transaction) -> (r: Result<(), StoreError>)
        ensures
            r is Ok ==> final(self).kv() == outputs_applied(
                old(self).kv(),
                *tx,
                tx.outputs@.len() as int,
            ),
    {
        let ghost kv0 = self.kv();
        let mut batch = batch_new();
        proof {
            lemma_apply_empty(kv0, batch_writes(batch));
        }
        let n = tx.outputs.len();
        let mut i: usize = 0;
        while i < n
            invariant
                i <= n,
                n == tx.outputs@.len(),
                kv0 == sled_kv(self.db),
                apply_writes(kv0, batch_writes(batch)) == outputs_applied(kv0, *tx, i as int),
            decreases n - i,
        {
            let key = encode_key(&tx.hash, i as u32);
            let value = encode_output(&tx.outputs[i]);
            let ghost w = batch_writes(batch);
            batch_set(&mut batch, &key, &value);
            proof {
                lemma_apply_insert(kv0, w, key@, value@);
            }
            i += 1;
        }
        db_apply(&mut self.db, batch)
    }

    /// Delete the entry each input refers to, as a single atomic batch.
    /// Removing an absent key is not an error at this level.
    pub fn remove_inputs(&mut self, inputs: &Vec<Input>) -> (r: Result<(), StoreError>)
        ensures
            r is Ok ==> final(self).kv() == inputs_removed(
                old(self).kv(),
                inputs@,
                inputs@.len() as int,
            ),
    {
        let ghost kv0 = self.kv();
        let mut batch = batch_new();
        proof {
            lemma_apply_empty(kv0, batch_writes(batch));
        }
        let n = inputs.len();
        let mut i: usize = 0;
        while i < n
            invariant
                i <= n,
                n == inputs@.len(),
                kv0 == sled_kv(self.db),
                apply_writes(kv0, batch_writes(batch)) == inputs_removed(kv0, inputs@, i as int),
            decreases n - i,
        {
            let key = encode_key(&inputs[i].previous_output, inputs[i].index);
            let ghost w = batch_writes(batch);
            batch_del(&mut batch, &key);
            proof {
                lemma_apply_remove(kv0, w, key@);
            }
            i += 1;
        }
        db_apply(&mut self.db, batch)
    }

    /// Whether the store holds the output an input refers to.
    pub fn contains_input(&self, input: &Input) -> (r: Result<bool, StoreError>)
        ensures
            r matches Ok(b) ==> b == self.kv().dom().contains(input_key(*input)),
    {
        let key = encode_key(&input.previous_output, input.index);
        db_contains(&self.db, &key)
    }

    /// The number of entries the store holds; never an error, and zero
    /// exactly for the empty store.
    pub fn len(&self) -> (r: Result<usize, StoreError>)
        ensures
            r is Ok,
            r matches Ok(n) ==> self.kv().dom().finite() && n == self.kv().len(),
            r matches Ok(n) ==> ((n == 0) <==> self.kv().dom() == Set::<Seq<u8>>::empty()),
    {
        let n = db_len(&self.db);
        proof {
            if sled_kv(self.db).len() == 0 {
                sled_kv(self.db).dom().lemma_len0_is_empty();
            }
        }
        Ok(n)
    }

    /// Whether the store holds no entry; never an error, and true exactly
    /// when the store's length is zero.
    pub fn is_empty(&self) -> (r: Result<bool, StoreError>)
        ensures
            r is Ok,
            r matches Ok(b) ==> b == (self.kv().dom() == Set::<Seq<u8>>::empty()),
            r matches Ok(b) ==> (b <==> self.kv().len() == 0),
    {
        let b = db_is_empty(&self.db);
        proof {
            if sled_kv(self.db).len() == 0 {
                sled_kv(self.db).dom().lemma_len0_is_empty();
            }
        }
        Ok(b)
    }
}

} // verus!
