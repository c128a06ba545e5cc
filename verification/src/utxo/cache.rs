//! The in-memory UTXO set, a write-through front of the durable store:
//! atomic spend-and-add semantics, double-spend rejection, and confirmation
//! updates.

use vstd::prelude::*;

verus! {

use crate::hashing::Hash256;
use crate::utxo::models::{duplicate_output, duplicate_utxo, Input, Transaction, Utxo, UtxoView};
use crate::utxo::store::{
    input_key, inputs_removed, outputs_applied, utxo_key, SdbStore, StoreError,
};

/// Why a cache operation failed.
#[derive(Clone, Debug)]
pub enum CacheError {
    /// The referenced output is in neither the cache nor the store: absent
    /// or already spent. Carries the referenced transaction hash and index.
    UtxoNotFound(Hash256, u32),
    /// The backing store reported an error.
    StorageError(StoreError),
}

/// The map key of a cache entry.
pub open spec fn entry_key(u: UtxoView) -> Seq<u8> {
    utxo_key(u.tx_hash, u.output_index)
}

/// The map a list of entries represents; a later entry with the same key
/// replaces an earlier one.
pub open spec fn cache_map_of(s: Seq<Utxo>) -> Map<Seq<u8>, UtxoView>
    decreases s.len(),
{
    if s.len() == 0 {
        Map::empty()
    } else {
        cache_map_of(s.drop_last()).insert(entry_key(s.last()@), s.last()@)
    }
}

/// No two entries share a key.
pub open spec fn distinct_entry_keys(s: Seq<Utxo>) -> bool {
    forall|i: int, j: int|
        0 <= i < j < s.len() ==> entry_key((#[trigger] s[i])@) != entry_key((#[trigger] s[j])@)
}

/// A key is in the represented map exactly when some entry carries it.
proof fn lemma_map_of_dom(s: Seq<Utxo>, k: Seq<u8>)
    ensures
        cache_map_of(s).dom().contains(k) <==> exists|i: int|
            0 <= i < s.len() && entry_key((#[trigger] s[i])@) == k,
    decreases s.len(),
{
    if s.len() > 0 {
        lemma_map_of_dom(s.drop_last(), k);
        if cache_map_of(s).dom().contains(k) {
            if entry_key(s.last()@) == k {
                assert(entry_key((s[s.len() - 1])@) == k);
            } else {
                let i = choose|i: int|
                    0 <= i < s.drop_last().len() && entry_key(
                        (#[trigger] s.drop_last()[i])@,
                    ) == k;
                assert(entry_key((s[i])@) == k);
            }
        }
        if exists|i: int| 0 <= i < s.len() && entry_key((#[trigger] s[i])@) == k {
            let i = choose|i: int| 0 <= i < s.len() && entry_key((#[trigger] s[i])@) == k;
            if i < s.len() - 1 {
                assert(entry_key((s.drop_last()[i])@) == k);
            }
        }
    }
}

/// With distinct keys, the entry at `i` is the map's value for its key.
proof fn lemma_map_of_index(s: Seq<Utxo>, i: int)
    requires
        distinct_entry_keys(s),
        0 <= i < s.len(),
    ensures
        cache_map_of(s).dom().contains(entry_key(s[i]@)),
        cache_map_of(s)[entry_key(s[i]@)] == s[i]@,
    decreases s.len(),
{
    if i == s.len() - 1 {
    } else {
        lemma_map_of_index(s.drop_last(), i);
        assert(s.drop_last()[i] == s[i]);
        assert(entry_key(s[i]@) != entry_key(s.last()@));
    }
}

/// Removing the entry at `i` removes exactly its key from the map.
proof fn lemma_map_of_remove(s: Seq<Utxo>, i: int)
    requires
        distinct_entry_keys(s),
        0 <= i < s.len(),
    ensures
        cache_map_of(s.remove(i)) == cache_map_of(s).remove(entry_key(s[i]@)),
        distinct_entry_keys(s.remove(i)),
    decreases s.len(),
{
    let k = entry_key(s[i]@);
    assert forall|a: int, b: int| 0 <= a < b < s.remove(i).len() implies entry_key(
        (#[trigger] s.remove(i)[a])@,
    ) != entry_key((#[trigger] s.remove(i)[b])@) by {
        let a0 = if a < i {
            a
        } else {
            a + 1
        };
        let b0 = if b < i {
            b
        } else {
            b + 1
        };
        assert(s.remove(i)[a] == s[a0] && s.remove(i)[b] == s[b0]);
    }
    if i == s.len() - 1 {
        assert(s.remove(i) =~= s.drop_last());
        lemma_map_of_dom(s.drop_last(), k);
        assert forall|j: int| 0 <= j < s.drop_last().len() implies entry_key(
            (#[trigger] s.drop_last()[j])@,
        ) != k by {
            assert(s.drop_last()[j] == s[j]);
        }
        assert(!cache_map_of(s.drop_last()).dom().contains(k));
        assert(cache_map_of(s.drop_last()) =~= cache_map_of(s).remove(k));
    } else {
        lemma_map_of_remove(s.drop_last(), i);
        assert(s.remove(i).drop_last() =~= s.drop_last().remove(i));
        assert(s.remove(i).last() == s.last());
        assert(entry_key(s.last()@) != k);
        assert(cache_map_of(s.remove(i)) =~= cache_map_of(s).remove(k));
    }
}

/// Replacing the entry at `i` by one with the same key updates the map at
/// that key.
proof fn lemma_map_of_update(s: Seq<Utxo>, i: int, u: Utxo)
    requires
        distinct_entry_keys(s),
        0 <= i < s.len(),
        entry_key(u@) == entry_key(s[i]@),
    ensures
        cache_map_of(s.update(i, u)) == cache_map_of(s).insert(entry_key(u@), u@),
        distinct_entry_keys(s.update(i, u)),
    decreases s.len(),
{
    let k = entry_key(u@);
    assert forall|a: int, b: int| 0 <= a < b < s.update(i, u).len() implies entry_key(
        (#[trigger] s.update(i, u)[a])@,
    ) != entry_key((#[trigger] s.update(i, u)[b])@) by {
        assert(s.update(i, u)[a] == if a == i {
            u
        } else {
            s[a]
        });
        assert(s.update(i, u)[b] == if b == i {
            u
        } else {
            s[b]
        });
    }
    if i == s.len() - 1 {
        assert(s.update(i, u).drop_last() =~= s.drop_last());
        assert(s.update(i, u).last() == u);
        assert(cache_map_of(s.update(i, u)) =~= cache_map_of(s).insert(k, u@));
    } else {
        lemma_map_of_update(s.drop_last(), i, u);
        assert(s.update(i, u).drop_last() =~= s.drop_last().update(i, u));
        assert(s.update(i, u).last() == s.last());
        assert(entry_key(s.last()@) != k);
        assert(cache_map_of(s.update(i, u)) =~= cache_map_of(s).insert(k, u@));
    }
}

/// The unspent output the `idx`-th output of a transaction turns into.
pub open spec fn utxo_at(t: Transaction, idx: int, block_height: Option<u32>) -> UtxoView {
    match block_height {
        Some(h) => UtxoView {
            output: t.outputs[idx]@,
            block_height: h,
            output_index: idx as u32,
            tx_hash: t.hash@,
            is_confirmed: true,
        },
        None => UtxoView {
            output: t.outputs[idx]@,
            block_height: 0,
            output_index: idx as u32,
            tx_hash: t.hash@,
            is_confirmed: false,
        },
    }
}

/// The cache after inserting the first `n` outputs of a transaction.
pub open spec fn utxos_added(
    m: Map<Seq<u8>, UtxoView>,
    t: Transaction,
    block_height: Option<u32>,
    n: int,
) -> Map<Seq<u8>, UtxoView>
    decreases n,
{
    if n <= 0 {
        m
    } else {
        utxos_added(m, t, block_height, n - 1).insert(
            utxo_key(t.hash@, (n - 1) as u32),
            utxo_at(t, n - 1, block_height),
        )
    }
}

/// The cache after dropping the keys of the first `n` inputs.
pub open spec fn keys_dropped(m: Map<Seq<u8>, UtxoView>, inputs: Seq<Input>, n: int) -> Map<
    Seq<u8>,
    UtxoView,
>
    decreases n,
{
    if n <= 0 {
        m
    } else {
        keys_dropped(m, inputs, n - 1).remove(input_key(inputs[n - 1]))
    }
}

/// Every input of the transaction refers to a key present in the cache or
/// in the store.
pub open spec fn spend_keys_present(
    cache: Map<Seq<u8>, UtxoView>,
    store: Map<Seq<u8>, Seq<u8>>,
    t: Transaction,
) -> bool {
    forall|j: int|
        0 <= j < t.inputs@.len() ==> cache.dom().contains(input_key(#[trigger] t.inputs@[j]))
            || store.dom().contains(input_key(t.inputs@[j]))
}

/// A key removed from the cache and the store cannot be spent again: no
/// transaction referencing it has its keys present.
pub proof fn lemma_no_double_spend(
    cache: Map<Seq<u8>, UtxoView>,
    store: Map<Seq<u8>, Seq<u8>>,
    t: Transaction,
    j: int,
)
    requires
        0 <= j < t.inputs@.len(),
        !cache.dom().contains(input_key(t.inputs@[j])),
        !store.dom().contains(input_key(t.inputs@[j])),
    ensures
        !spend_keys_present(cache, store, t),
{
}

/// The in-memory UTXO set over its durable store. Entries are keyed by
/// `(tx_hash, output_index)`; each key appears at most once.
pub struct UtxoCache {
    entries: Vec<Utxo>,
    store: SdbStore,
}

impl UtxoCache {
    /// Each key appears at most once.
    pub closed spec fn wf(self) -> bool {
        distinct_entry_keys(self.entries@)
    }

    /// The unspent outputs the cache holds, by key.
    pub closed spec fn cache_map(self) -> Map<Seq<u8>, UtxoView> {
        cache_map_of(self.entries@)
    }

    /// The key-value pairs the durable store holds.
    pub closed spec fn store_kv(self) -> Map<Seq<u8>, Seq<u8>> {
        self.store.kv()
    }

    /// The cached entries in insertion order, by contents.
    pub closed spec fn entries_view(self) -> Seq<UtxoView> {
        self.entries@.map_values(|u: Utxo| u@)
    }

    /// A cache over the given store, holding nothing in memory yet.
    pub fn new(store: SdbStore) -> (r: UtxoCache)
        ensures
            r.wf(),
            r.cache_map() == Map::<Seq<u8>, UtxoView>::empty(),
            r.store_kv() == store.kv(),
    {
        UtxoCache { entries: Vec::new(), store }
    }

    /// The position of the entry with the given key, if any.
    fn find_entry(&self, tx_hash: &Hash256, output_index: u32) -> (r: Option<usize>)
        requires
            self.wf(),
        ensures
            r matches Some(i) ==> i < self.entries@.len() && entry_key(self.entries@[i as int]@)
                == utxo_key(tx_hash@, output_index),
            r is Some <==> self.cache_map().dom().contains(utxo_key(tx_hash@, output_index)),
            r matches Some(i) ==> self.cache_map()[utxo_key(tx_hash@, output_index)]
                == self.entries@[i as int]@,
    {
        let ghost k = utxo_key(tx_hash@, output_index);
        let n = self.entries.len();
        let mut i: usize = 0;
        while i < n
            invariant
                i <= n,
                n == self.entries@.len(),
                k == utxo_key(tx_hash@, output_index),
                self.wf(),
                forall|j: int| 0 <= j < i ==> entry_key((#[trigger] self.entries@[j])@) != k,
            decreases n - i,
        {
            let e = &self.entries[i];
            if e.tx_hash.equals(tx_hash) && e.output_index == output_index {
                proof {
                    assert(self.entries@[i as int]@.tx_hash == tx_hash@);
                    assert(entry_key(self.entries@[i as int]@) == k);
                    lemma_map_of_index(self.entries@, i as int);
                }
                return Some(i);
            }
            proof {
                if entry_key(self.entries@[i as int]@) == k {
                    crate::utxo::store::lemma_utxo_key_injective(
                        self.entries@[i as int]@.tx_hash,
                        self.entries@[i as int]@.output_index,
                        tx_hash@,
                        output_index,
                    );
                }
            }
            i += 1;
        }
        proof {
            lemma_map_of_dom(self.entries@, k);
        }
        None
    }

    /// Insert an unspent output, replacing any entry with the same key.
    fn insert_entry(&mut self, utxo: Utxo)
        requires
            old(self).wf(),
        ensures
            final(self).wf(),
            final(self).cache_map() == old(self).cache_map().insert(entry_key(utxo@), utxo@),
            final(self).store_kv() == old(self).store_kv(),
            final(self).entries@.len() <= old(self).entries@.len() + 1,
    {
        let found = self.find_entry(&utxo.tx_hash, utxo.output_index);
        match found {
            Some(i) => {
                proof {
                    lemma_map_of_update(self.entries@, i as int, utxo);
                }
                self.entries[i] = utxo;
            },
            None => {
                proof {
                    let s = self.entries@.push(utxo);
                    assert(s.drop_last() =~= self.entries@);
                    assert forall|a: int, b: int| 0 <= a < b < s.len() implies entry_key(
                        (#[trigger] s[a])@,
                    ) != entry_key((#[trigger] s[b])@) by {
                        if b < s.len() - 1 {
                            assert(s[a] == self.entries@[a] && s[b] == self.entries@[b]);
                        } else {
                            assert(s[a] == self.entries@[a]);
                            lemma_map_of_dom(self.entries@, entry_key(utxo@));
                        }
                    }
                }
                self.entries.push(utxo);
            },
        }
    }

    /// Add every output of a transaction as an unspent output: confirmed at
    /// `block_height` when one is given, else unconfirmed at height 0. The
    /// store is written first, as one atomic batch; the cache is only
    /// touched once that write succeeded, so a failure leaves the cache
    /// exactly as before.
    pub fn add_transaction(&mut self, tx: &Transaction, block_height: Option<u32>) -> (r: Result<
        (),
        CacheError,
    >)
        requires
            old(self).wf(),
        ensures
            final(self).wf(),
            r is Ok ==> final(self).cache_map() == utxos_added(
                old(self).cache_map(),
                *tx,
                block_height,
                tx.outputs@.len() as int,
            ),
            r is Ok ==> final(self).store_kv() == outputs_applied(
                old(self).store_kv(),
                *tx,
                tx.outputs@.len() as int,
            ),
            r is Err ==> final(self).cache_map() == old(self).cache_map(),
            r is Err ==> r matches Err(CacheError::StorageError(_)),
    {
        match self.store.add_outputs(tx) {
            Err(e) => {
                return Err(CacheError::StorageError(e));
            },
            Ok(()) => {},
        }
        let ghost m0 = self.cache_map();
        let n = tx.outputs.len();
        let mut i: usize = 0;
        while i < n
            invariant
                i <= n,
                n == tx.outputs@.len(),
                self.wf(),
                self.cache_map() == utxos_added(m0, *tx, block_height, i as int),
                self.store_kv() == outputs_applied(
                    old(self).store_kv(),
                    *tx,
                    tx.outputs@.len() as int,
                ),
                m0 == old(self).cache_map(),
            decreases n - i,
        {
            let output_copy = duplicate_output(&tx.outputs[i]);
            let utxo = match block_height {
                Some(h) => Utxo::new(output_copy, h, i as u32, tx.hash),
                None => Utxo::new_unconfirmed(output_copy, i as u32, tx.hash),
            };
            proof {
                assert(utxo@ == utxo_at(*tx, i as int, block_height));
                assert(entry_key(utxo@) == utxo_key(tx.hash@, i as u32));
            }
            self.insert_entry(utxo);
            i += 1;
        }
        Ok(())
    }

    /// Spend the outputs a transaction's inputs refer to: first check that
    /// every referenced key is present in the cache or in the store; only
    /// then remove them, from the store as one atomic batch and from the
    /// cache. A missing key fails with `UtxoNotFound` and leaves both
    /// untouched; the cache is also untouched on any storage failure.
    pub fn remove_spent(&mut self, tx: &Transaction) -> (r: Result<(), CacheError>)
        requires
            old(self).wf(),
        ensures
            final(self).wf(),
            r is Ok ==> spend_keys_present(old(self).cache_map(), old(self).store_kv(), *tx),
            r is Ok ==> final(self).cache_map() == keys_dropped(
                old(self).cache_map(),
                tx.inputs@,
                tx.inputs@.len() as int,
            ),
            r is Ok ==> final(self).store_kv() == inputs_removed(
                old(self).store_kv(),
                tx.inputs@,
                tx.inputs@.len() as int,
            ),
            r is Err ==> final(self).cache_map() == old(self).cache_map(),
            r matches Err(CacheError::UtxoNotFound(h, idx)) ==> {
                &&& !spend_keys_present(old(self).cache_map(), old(self).store_kv(), *tx)
                &&& !old(self).cache_map().dom().contains(utxo_key(h@, idx))
                &&& !old(self).store_kv().dom().contains(utxo_key(h@, idx))
                &&& final(self).store_kv() == old(self).store_kv()
            },
    {
        let n = tx.inputs.len();
        let mut i: usize = 0;
        while i < n
            invariant
                i <= n,
                n == tx.inputs@.len(),
                self.wf(),
                *self == *old(self),
                forall|j: int|
                    0 <= j < i ==> self.cache_map().dom().contains(
                        input_key(#[trigger] tx.inputs@[j]),
                    ) || self.store_kv().dom().contains(input_key(tx.inputs@[j])),
            decreases n - i,
        {
            let input = &tx.inputs[i];
            let in_cache = self.find_entry(&input.previous_output, input.index);
            if in_cache.is_none() {
                match self.store.contains_input(input) {
                    Err(e) => {
                        return Err(CacheError::StorageError(e));
                    },
                    Ok(false) => {
                        proof {
                            lemma_no_double_spend(
                                self.cache_map(),
                                self.store_kv(),
                                *tx,
                                i as int,
                            );
                        }
                        return Err(CacheError::UtxoNotFound(input.previous_output, input.index));
                    },
                    Ok(true) => {},
                }
            }
            i += 1;
        }
        assert(spend_keys_present(self.cache_map(), self.store_kv(), *tx));
        match self.store.remove_inputs(&tx.inputs) {
            Err(e) => {
                return Err(CacheError::StorageError(e));
            },
            Ok(()) => {},
        }
        let ghost m0 = self.cache_map();
        let mut i: usize = 0;
        while i < n
            invariant
                i <= n,
                n == tx.inputs@.len(),
                self.wf(),
                self.store_kv() == inputs_removed(
                    old(self).store_kv(),
                    tx.inputs@,
                    tx.inputs@.len() as int,
                ),
                m0 == old(self).cache_map(),
                self.cache_map() == keys_dropped(m0, tx.inputs@, i as int),
            decreases n - i,
        {
            let input = &tx.inputs[i];
            let found = self.find_entry(&input.previous_output, input.index);
            match found {
                Some(p) => {
                    proof {
                        lemma_map_of_remove(self.entries@, p as int);
                        assert(entry_key(self.entries@[p as int]@) == input_key(
                            tx.inputs@[i as int],
                        ));
                    }
                    self.entries.remove(p);
                },
                None => {
                    proof {
                        assert(!self.cache_map().dom().contains(input_key(tx.inputs@[i as int])));
                        assert(self.cache_map().remove(input_key(tx.inputs@[i as int]))
                            =~= self.cache_map());
                    }
                },
            }
            i += 1;
        }
        Ok(())
    }

    /// Look up an unspent output by transaction hash and output index; a
    /// copy of the cached entry, or `None` when the cache holds no entry
    /// under that key.
    pub fn get_utxo(&self, tx_hash: Hash256, output_index: u32) -> (r: Result<
        Option<Utxo>,
        CacheError,
    >)
        requires
            self.wf(),
        ensures
            r matches Ok(found) ==> match found {
                Some(u) => self.cache_map().dom().contains(utxo_key(tx_hash@, output_index))
                    && u@ == self.cache_map()[utxo_key(tx_hash@, output_index)],
                None => !self.cache_map().dom().contains(utxo_key(tx_hash@, output_index)),
            },
            r is Ok,
    {
        let found = self.find_entry(&tx_hash, output_index);
        match found {
            Some(i) => Ok(Some(duplicate_utxo(&self.entries[i]))),
            None => Ok(None),
        }
    }

    /// Mark every cached entry of the transaction as confirmed at the given
    /// block height.
    pub fn confirm_transaction(&mut self, tx_hash: Hash256, block_height: u32) -> (r: Result<
        (),
        CacheError,
    >)
        requires
            old(self).wf(),
        ensures
            final(self).wf(),
            r is Ok,
            final(self).store_kv() == old(self).store_kv(),
            final(self).entries_view().len() == old(self).entries_view().len(),
            forall|i: int|
                0 <= i < old(self).entries_view().len() ==> (#[trigger] final(self).entries_view()[i]) == (
                if old(self).entries_view()[i].tx_hash == tx_hash@ {
                    confirmed_at(old(self).entries_view()[i], block_height)
                } else {
                    old(self).entries_view()[i]
                }),
    {
        let n = self.entries.len();
        let mut i: usize = 0;
        while i < n
            invariant
                i <= n,
                n == self.entries@.len() == old(self).entries@.len(),
                self.wf(),
                self.store_kv() == old(self).store_kv(),
                forall|j: int|
                    0 <= j < i ==> (#[trigger] self.entries@[j])@ == (
                    if old(self).entries@[j]@.tx_hash == tx_hash@ {
                        confirmed_at(old(self).entries@[j]@, block_height)
                    } else {
                        old(self).entries@[j]@
                    }),
                forall|j: int|
                    i <= j < n ==> #[trigger] self.entries@[j] == old(self).entries@[j],
            decreases n - i,
        {
            let matches_hash = self.entries[i].tx_hash.equals(&tx_hash);
            if matches_hash {
                let ghost before = self.entries@;
                let entry = &mut self.entries[i];
                entry.block_height = block_height;
                entry.is_confirmed = true;
                proof {
                    assert(self.entries@ =~= before.update(
                        i as int,
                        self.entries@[i as int],
                    ));
                    assert forall|a: int, b: int|
                        0 <= a < b < self.entries@.len() implies entry_key(
                        (#[trigger] self.entries@[a])@,
                    ) != entry_key((#[trigger] self.entries@[b])@) by {
                        assert(entry_key(self.entries@[a]@) == entry_key(before[a]@));
                        assert(entry_key(self.entries@[b]@) == entry_key(before[b]@));
                    }
                }
            }
            i += 1;
        }
        Ok(())
    }
}

/// An entry after confirmation at a block height.
pub open spec fn confirmed_at(u: UtxoView, block_height: u32) -> UtxoView {
    UtxoView {
        block_height,
        is_confirmed: true,
        ..u
    }
}

} // verus!
