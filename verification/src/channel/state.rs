//! Per-channel record: identifier, participants, balances, sequence number,
//! status and the last applied update; and the application of validated
//! updates.

use vstd::prelude::*;

verus! {

use crate::canonical::{sort_keys, sort_keys_spec};
use crate::channel::transitions::{
    applied, keys_bytes, validate_spec, validate_state_transition, ChannelError,
};
use crate::crypto::{PublicKey, Signature};
use crate::encoding::copy_vec;
use crate::hashing::{sha256, sha256_of};

/// Lifecycle of a channel.
#[derive(Clone, Copy, Debug, PartialEq, Eq, Structural)]
pub enum ChannelStatus {
    Open,
    Closed,
    Disputed,
}

/// A proposed transition of balances, signed by every affected participant.
#[derive(Clone, Debug)]
pub struct StateUpdate {
    /// Target sequence after application; must equal the channel's current
    /// sequence plus one.
    pub sequence_number: u64,
    /// Signed delta per participant key.
    pub balance_changes: Vec<(PublicKey, i64)>,
    /// One signature per affected participant, in the same positional order.
    pub signatures: Vec<Signature>,
    /// The keys of `balance_changes`, sorted in canonical order.
    pub affected_participants: Vec<PublicKey>,
    /// Carried in the signed payload for replay resistance; not interpreted
    /// temporally.
    pub timestamp: u64,
}

/// Field-for-field equality of two updates, compared by contents.
pub open spec fn update_eq(a: StateUpdate, b: StateUpdate) -> bool {
    &&& a.sequence_number == b.sequence_number
    &&& a.balance_changes@ == b.balance_changes@
    &&& a.signatures@ == b.signatures@
    &&& a.affected_participants@ == b.affected_participants@
    &&& a.timestamp == b.timestamp
}

/// A fresh copy of an update, equal in contents.
pub fn duplicate_update(u: &StateUpdate) -> (r: StateUpdate)
    ensures
        update_eq(r, *u),
{
    StateUpdate {
        sequence_number: u.sequence_number,
        balance_changes: copy_vec(&u.balance_changes),
        signatures: copy_vec(&u.signatures),
        affected_participants: copy_vec(&u.affected_participants),
        timestamp: u.timestamp,
    }
}

/// No two participants share a key encoding.
pub open spec fn distinct_keys(s: Seq<PublicKey>) -> bool {
    forall|i: int, j: int| 0 <= i < j < s.len() ==> (#[trigger] s[i])@ != (#[trigger] s[j])@
}

/// The sum of a balance vector, in unbounded integers.
pub open spec fn sum_i64(s: Seq<i64>) -> int
    decreases s.len(),
{
    if s.len() == 0 {
        0
    } else {
        sum_i64(s.drop_last()) + s.last()
    }
}

/// The sum of the signed deltas of a change list.
pub open spec fn sum_changes(s: Seq<(PublicKey, i64)>) -> int
    decreases s.len(),
{
    if s.len() == 0 {
        0
    } else {
        sum_changes(s.drop_last()) + s.last().1
    }
}

/// The total delta a change list assigns to the key `k` (zero if absent).
pub open spec fn delta_of(changes: Seq<(PublicKey, i64)>, k: Seq<u8>) -> int
    decreases changes.len(),
{
    if changes.len() == 0 {
        0
    } else {
        delta_of(changes.drop_last(), k) + if changes.last().0@ == k {
            changes.last().1 as int
        } else {
            0
        }
    }
}

/// The index of the participant whose key encoding is `k`.
pub open spec fn key_index(s: Seq<PublicKey>, k: Seq<u8>) -> int {
    choose|j: int| 0 <= j < s.len() && (#[trigger] s[j])@ == k
}

/// With distinct keys, a change list assigns each listed key exactly its
/// own entry's delta.
pub proof fn lemma_delta_of_entry(changes: Seq<(PublicKey, i64)>, j: int)
    requires
        forall|a: int, b: int|
            0 <= a < b < changes.len() ==> (#[trigger] changes[a]).0@ != (
            #[trigger] changes[b]).0@,
        0 <= j < changes.len(),
    ensures
        delta_of(changes, changes[j].0@) == changes[j].1,
    decreases changes.len(),
{
    let k = changes[j].0@;
    if j == changes.len() - 1 {
        assert forall|a: int| 0 <= a < changes.drop_last().len() implies (
        #[trigger] changes.drop_last()[a]).0@ != k by {
            assert(changes.drop_last()[a] == changes[a]);
        }
        lemma_delta_of_absent(changes.drop_last(), k);
    } else {
        assert(changes.last().0@ != k);
        assert(changes.drop_last()[j] == changes[j]);
        lemma_delta_of_entry(changes.drop_last(), j);
    }
}

/// With distinct participants, any index holding key `k` is the key's index.
pub proof fn lemma_key_index_of(s: Seq<PublicKey>, k: Seq<u8>, i: int)
    requires
        distinct_keys(s),
        0 <= i < s.len(),
        s[i]@ == k,
    ensures
        key_index(s, k) == i,
{
    let j = key_index(s, k);
    assert(0 <= j < s.len() && s[j]@ == k);
    if j < i {
        assert(s[j]@ != s[i]@);
    } else if i < j {
        assert(s[i]@ != s[j]@);
    }
}

/// Updating one balance moves the sum by the difference.
pub proof fn lemma_sum_update(s: Seq<i64>, i: int, v: i64)
    requires
        0 <= i < s.len(),
    ensures
        sum_i64(s.update(i, v)) == sum_i64(s) - s[i] + v,
    decreases s.len(),
{
    let t = s.update(i, v);
    if i == s.len() - 1 {
        assert(t.drop_last() =~= s.drop_last());
    } else {
        assert(t.drop_last() =~= s.drop_last().update(i, v));
        assert(t.last() == s.last());
        lemma_sum_update(s.drop_last(), i, v);
    }
}

/// Extending a change list by one entry adds that entry's delta for its key.
pub proof fn lemma_delta_of_extend(s: Seq<(PublicKey, i64)>, i: int, k: Seq<u8>)
    requires
        0 <= i < s.len(),
    ensures
        delta_of(s.subrange(0, i + 1), k) == delta_of(s.subrange(0, i), k) + if s[i].0@ == k {
            s[i].1 as int
        } else {
            0
        },
{
    let t = s.subrange(0, i + 1);
    assert(t.drop_last() =~= s.subrange(0, i));
    assert(t.last() == s[i]);
}

/// A change list that never names `k` assigns it no delta.
pub proof fn lemma_delta_of_absent(s: Seq<(PublicKey, i64)>, k: Seq<u8>)
    requires
        forall|j: int| 0 <= j < s.len() ==> (#[trigger] s[j]).0@ != k,
    ensures
        delta_of(s, k) == 0,
    decreases s.len(),
{
    if s.len() > 0 {
        assert(s.last() == s[s.len() - 1]);
        lemma_delta_of_absent(s.drop_last(), k);
    }
}

/// Per-channel record. `balances[i]` is the balance of `participants[i]`.
#[derive(Clone, Debug)]
pub struct ChannelState {
    /// SHA-256 over the concatenated, canonically sorted participant keys.
    pub channel_id: [u8; 32],
    /// Distinct keys, in the order the channel was opened with.
    pub participants: Vec<PublicKey>,
    /// One signed balance per participant, positionally.
    pub balances: Vec<i64>,
    /// Monotone counter, starts at 0.
    pub sequence_number: u64,
    pub status: ChannelStatus,
    /// The last successfully applied update, if any.
    pub latest_update: Option<StateUpdate>,
}

impl ChannelState {
    /// Structural well-formedness: the balance vector is parallel to a
    /// non-empty list of distinct participants.
    pub open spec fn wf(self) -> bool {
        &&& self.balances@.len() == self.participants@.len()
        &&& self.participants@.len() > 0
        &&& distinct_keys(self.participants@)
    }

    /// The balance of the participant with key encoding `k`.
    pub open spec fn balance_of(self, k: Seq<u8>) -> int {
        self.balances@[key_index(self.participants@, k)] as int
    }

    /// The sum of all balances; constant across the channel's lifetime.
    pub open spec fn total_balance(self) -> int {
        sum_i64(self.balances@)
    }

    /// Open a channel: the identifier is the SHA-256 digest of the sorted
    /// participant keys; balances are taken positionally. `None` when the
    /// participant list is empty, holds a duplicate key, or does not match
    /// the balance list in length.
    pub fn new(participants: Vec<PublicKey>, initial_balances: Vec<i64>) -> (r: Option<
        ChannelState,
    >)
        ensures
            r is Some <==> participants@.len() > 0 && participants@.len()
                == initial_balances@.len() && distinct_keys(participants@),
            r matches Some(c) ==> {
                &&& c.wf()
                &&& c.participants@ == participants@
                &&& c.balances@ == initial_balances@
                &&& c.sequence_number == 0
                &&& c.status == ChannelStatus::Open
                &&& c.latest_update is None
                &&& c.channel_id@ == sha256_of(keys_bytes(sort_keys_spec(participants@)))
            },
    {
        if participants.len() == 0 || participants.len() != initial_balances.len() {
            return None;
        }
        let n = participants.len();
        let mut i: usize = 0;
        while i < n
            invariant
                i <= n,
                n == participants@.len(),
                forall|a: int, b: int|
                    0 <= a < b < n && a < i ==> (#[trigger] participants@[a])@ != (
                    #[trigger] participants@[b])@,
            decreases n - i,
        {
            let mut j: usize = i + 1;
            while j < n
                invariant
                    i < j <= n,
                    n == participants@.len(),
                    forall|b: int| i < b < j ==> participants@[i as int]@ != (
                    #[trigger] participants@[b])@,
                decreases n - j,
            {
                if participants[i].equals(&participants[j]) {
                    return None;
                }
                j += 1;
            }
            i += 1;
        }
        assert(distinct_keys(participants@));
        let sorted = sort_keys(&participants);
        let mut buf: Vec<u8> = Vec::new();
        let m = sorted.len();
        let mut k: usize = 0;
        while k < m
            invariant
                k <= m,
                m == sorted@.len(),
                buf@ == keys_bytes(sorted@.subrange(0, k as int)),
            decreases m - k,
        {
            let key_bytes = sorted[k].as_bytes();
            crate::encoding::push_bytes(&mut buf, vstd::array::array_as_slice(&key_bytes));
            proof {
                let t = sorted@.subrange(0, k + 1);
                assert(t.drop_last() =~= sorted@.subrange(0, k as int));
                assert(t.last() == sorted@[k as int]);
            }
            k += 1;
        }
        assert(sorted@.subrange(0, m as int) =~= sorted@);
        let channel_id = sha256(buf.as_slice());
        Some(
            ChannelState {
                channel_id,
                participants,
                balances: initial_balances,
                sequence_number: 0,
                status: ChannelStatus::Open,
                latest_update: None,
            },
        )
    }

    /// Run the full validator and, only if every check passes, advance the
    /// sequence, move each balance by its delta, and record the update.
    /// All-or-nothing: on any failure the state is exactly as before. The
    /// sum of balances never changes.
    #[verifier::loop_isolation(false)]
    pub fn apply_update(&mut self, update: &StateUpdate) -> (r: Result<(), ChannelError>)
        requires
            old(self).wf(),
        ensures
            final(self).wf(),
            r == validate_spec(*old(self), *update),
            r is Ok ==> applied(*old(self), *update, *final(self)),
            r is Err ==> *final(self) == *old(self),
            final(self).total_balance() == old(self).total_balance(),
            r is Ok ==> final(self).sequence_number == old(self).sequence_number + 1,
            r is Err ==> final(self).sequence_number == old(self).sequence_number,
    {
        let valid = validate_state_transition(self, update);
        match valid {
            Err(e) => {
                return Err(e);
            },
            Ok(()) => {},
        }
        let ghost pre = *self;
        let n = update.balance_changes.len();
        let mut i: usize = 0;
        while i < n
            invariant
                i <= n,
                self.channel_id == pre.channel_id,
                self.participants == pre.participants,
                self.sequence_number == pre.sequence_number,
                self.status == pre.status,
                self.latest_update == pre.latest_update,
                self.balances@.len() == pre.balances@.len(),
                forall|j: int|
                    0 <= j < pre.participants@.len() ==> self.balances@[j] == pre.balances@[j]
                        + delta_of(
                        update.balance_changes@.subrange(0, i as int),
                        (#[trigger] pre.participants@[j])@,
                    ),
                sum_i64(self.balances@) == sum_i64(pre.balances@) + sum_changes(
                    update.balance_changes@.subrange(0, i as int),
                ),
            decreases n - i,
        {
            let entry = update.balance_changes[i];
            let found = crate::crypto::find_key(&self.participants, &entry.0);
            let idx = match found {
                Some(idx) => idx,
                None => {
                    proof {
                        assert(crate::crypto::key_in(pre.participants@, entry.0@));
                        assert(false);
                    }
                    return Err(ChannelError::UnknownParticipant);
                },
            };
            proof {
                lemma_key_index_of(pre.participants@, entry.0@, idx as int);
            }
            let bal = self.balances[idx];
            assert(bal == pre.balances@[idx as int] + delta_of(
                update.balance_changes@.subrange(0, i as int),
                entry.0@,
            ));
            assert(delta_of(update.balance_changes@.subrange(0, i as int), entry.0@) == 0) by {
                assert forall|j: int|
                    0 <= j < update.balance_changes@.subrange(0, i as int).len() implies (
                #[trigger] update.balance_changes@.subrange(0, i as int)[j]).0@ != entry.0@ by {
                    assert(update.balance_changes@.subrange(0, i as int)[j]
                        == update.balance_changes@[j]);
                }
                lemma_delta_of_absent(
                    update.balance_changes@.subrange(0, i as int),
                    entry.0@,
                );
            }
            assert(0 <= pre.balance_of(entry.0@) + entry.1 <= i64::MAX);
            let nb = bal + entry.1;
            let ghost prev_balances = self.balances@;
            self.balances[idx] = nb;
            proof {
                lemma_sum_update(prev_balances, idx as int, nb);
                let t = update.balance_changes@.subrange(0, i + 1);
                assert(t.drop_last() =~= update.balance_changes@.subrange(0, i as int));
                assert(t.last() == update.balance_changes@[i as int]);
                assert forall|j: int| 0 <= j < pre.participants@.len() implies self.balances@[j]
                    == pre.balances@[j] + delta_of(
                    update.balance_changes@.subrange(0, i + 1),
                    (#[trigger] pre.participants@[j])@,
                ) by {
                    lemma_delta_of_extend(update.balance_changes@, i as int, pre.participants@[j]@);
                    if j != idx as int {
                        assert(pre.participants@[j]@ != entry.0@);
                    }
                }
            }
            i += 1;
        }
        proof {
            assert(update.balance_changes@.subrange(0, n as int) =~= update.balance_changes@);
        }
        self.sequence_number = update.sequence_number;
        self.latest_update = Some(duplicate_update(update));
        Ok(())
    }
}

} // verus!
