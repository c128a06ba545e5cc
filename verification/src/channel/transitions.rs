//! The canonical signing payload and the channel transition validator: a
//! pure function that accepts or rejects a proposed update, checking the
//! invariants in a fixed order so the reported error is reproducible.

use vstd::prelude::*;

verus! {

use vstd::bytes::spec_u64_to_le_bytes;
use vstd::relations::sorted_by;
use crate::canonical::{key_le, lex_le, lex_lt, sort_changes, sort_changes_spec, sort_keys, sort_keys_spec};
use crate::channel::state::{delta_of, sum_changes, update_eq, ChannelState, StateUpdate};
use crate::crypto::{key_in, multisig_valid, PublicKey, Signature};
use crate::encoding::{push_bytes, push_i64_le, push_u64_le, spec_i64_to_le_bytes};

/// Why a state transition was rejected.
#[derive(Clone, Copy, Debug, PartialEq, Eq, Structural)]
pub enum ChannelError {
    InvalidSequence,
    InsufficientBalance,
    InvalidSignature,
    StaleUpdate,
    UnknownParticipant,
    NonZeroBalanceChange,
    InsufficientFunds,
    InvalidSignatureCount,
    SerializationError,
}

/// The bytes of one balance-change entry: 32-byte key, then the delta as
/// 8 little-endian bytes.
pub open spec fn change_entry_bytes(e: (PublicKey, i64)) -> Seq<u8> {
    e.0@ + spec_i64_to_le_bytes(e.1)
}

/// The concatenated entries of a balance-change list.
pub open spec fn changes_bytes(s: Seq<(PublicKey, i64)>) -> Seq<u8>
    decreases s.len(),
{
    if s.len() == 0 {
        Seq::empty()
    } else {
        changes_bytes(s.drop_last()) + change_entry_bytes(s.last())
    }
}

/// The concatenated 32-byte encodings of a key list.
pub open spec fn keys_bytes(s: Seq<PublicKey>) -> Seq<u8>
    decreases s.len(),
{
    if s.len() == 0 {
        Seq::empty()
    } else {
        keys_bytes(s.drop_last()) + s.last()@
    }
}

/// The canonical signing payload layout: all integers 8-byte little-endian,
/// both lists length-prefixed, fields in this exact order.
pub open spec fn payload_bytes(
    sequence_number: u64,
    channel_id: Seq<u8>,
    changes: Seq<(PublicKey, i64)>,
    affected: Seq<PublicKey>,
    timestamp: u64,
) -> Seq<u8> {
    spec_u64_to_le_bytes(sequence_number) + channel_id + spec_u64_to_le_bytes(
        changes.len() as u64,
    ) + changes_bytes(changes) + spec_u64_to_le_bytes(affected.len() as u64) + keys_bytes(affected)
        + spec_u64_to_le_bytes(timestamp)
}

/// The data a state update commits to, with both lists in canonical order.
#[derive(Clone, Debug)]
pub struct StateUpdateForSigning {
    pub sequence_number: u64,
    pub channel_id: [u8; 32],
    /// Balance changes sorted ascending by key bytes.
    pub balance_changes: Vec<(PublicKey, i64)>,
    /// Affected participants sorted ascending by key bytes.
    pub affected_participants: Vec<PublicKey>,
    /// For replay protection.
    pub timestamp: u64,
}

impl StateUpdateForSigning {
    /// The exact bytes this payload serializes to.
    pub open spec fn bytes_spec(self) -> Seq<u8> {
        payload_bytes(
            self.sequence_number,
            self.channel_id@,
            self.balance_changes@,
            self.affected_participants@,
            self.timestamp,
        )
    }

    /// Build the payload, sorting both lists into canonical order. The
    /// timestamp starts at zero; the caller sets it as needed.
    pub fn new(
        sequence_number: u64,
        channel_id: [u8; 32],
        balance_changes: &Vec<(PublicKey, i64)>,
        affected_participants: &Vec<PublicKey>,
    ) -> (r: StateUpdateForSigning)
        ensures
            r.sequence_number == sequence_number,
            r.channel_id@ == channel_id@,
            r.balance_changes@ == sort_changes_spec(balance_changes@),
            r.affected_participants@ == sort_keys_spec(affected_participants@),
            r.timestamp == 0,
    {
        StateUpdateForSigning {
            sequence_number,
            channel_id,
            balance_changes: sort_changes(balance_changes),
            affected_participants: sort_keys(affected_participants),
            timestamp: 0,
        }
    }

    /// Serialize the payload into its canonical byte layout.
    pub fn to_bytes(&self) -> (r: Vec<u8>)
        ensures
            r@ == self.bytes_spec(),
    {
        let mut buf: Vec<u8> = Vec::new();
        push_u64_le(&mut buf, self.sequence_number);
        push_bytes(&mut buf, vstd::array::array_as_slice(&self.channel_id));
        push_u64_le(&mut buf, self.balance_changes.len() as u64);
        let ghost prefix1 = buf@;
        let n = self.balance_changes.len();
        let mut i: usize = 0;
        while i < n
            invariant
                i <= n,
                n == self.balance_changes@.len(),
                buf@ == prefix1 + changes_bytes(self.balance_changes@.subrange(0, i as int)),
            decreases n - i,
        {
            let key = self.balance_changes[i].0.as_bytes();
            push_bytes(&mut buf, vstd::array::array_as_slice(&key));
            push_i64_le(&mut buf, self.balance_changes[i].1);
            proof {
                let t = self.balance_changes@.subrange(0, i + 1);
                assert(t.drop_last() =~= self.balance_changes@.subrange(0, i as int));
                assert(t.last() == self.balance_changes@[i as int]);
                assert(buf@ =~= prefix1 + changes_bytes(t));
            }
            i += 1;
        }
        assert(self.balance_changes@.subrange(0, n as int) =~= self.balance_changes@);
        push_u64_le(&mut buf, self.affected_participants.len() as u64);
        let ghost prefix2 = buf@;
        let m = self.affected_participants.len();
        let mut j: usize = 0;
        while j < m
            invariant
                j <= m,
                m == self.affected_participants@.len(),
                buf@ == prefix2 + keys_bytes(self.affected_participants@.subrange(0, j as int)),
            decreases m - j,
        {
            let key = self.affected_participants[j].as_bytes();
            push_bytes(&mut buf, vstd::array::array_as_slice(&key));
            proof {
                let t = self.affected_participants@.subrange(0, j + 1);
                assert(t.drop_last() =~= self.affected_participants@.subrange(0, j as int));
                assert(t.last() == self.affected_participants@[j as int]);
                assert(buf@ =~= prefix2 + keys_bytes(t));
            }
            j += 1;
        }
        assert(self.affected_participants@.subrange(0, m as int) =~= self.affected_participants@);
        push_u64_le(&mut buf, self.timestamp);
        proof {
            assert(buf@ =~= self.bytes_spec());
        }
        buf
    }

    /// The exact outcome of `verify_signatures`.
    pub open spec fn verify_signatures_spec(self, signatures: Seq<Signature>) -> Result<
        (),
        ChannelError,
    > {
        if signatures.len() != self.affected_participants@.len() {
            Err(ChannelError::InvalidSignatureCount)
        } else if !multisig_valid(signatures, self.affected_participants@, self.bytes_spec()) {
            Err(ChannelError::InvalidSignature)
        } else {
            Ok(())
        }
    }

    /// Verify one signature per affected participant, positionally, over
    /// this payload's canonical bytes.
    pub fn verify_signatures(&self, signatures: &Vec<Signature>) -> (r: Result<(), ChannelError>)
        ensures
            r == self.verify_signatures_spec(signatures@),
    {
        if signatures.len() != self.affected_participants.len() {
            return Err(ChannelError::InvalidSignatureCount);
        }
        let message = self.to_bytes();
        let n = self.affected_participants.len();
        let mut i: usize = 0;
        while i < n
            invariant
                i <= n,
                n == self.affected_participants@.len() == signatures@.len(),
                message@ == self.bytes_spec(),
                forall|j: int|
                    0 <= j < i ==> crate::crypto::ed_verify(
                        self.affected_participants@[j]@,
                        signatures@[j]@,
                        message@,
                    ),
            decreases n - i,
        {
            if !self.affected_participants[i].verify_signature(&signatures[i], message.as_slice())
            {
                return Err(ChannelError::InvalidSignature);
            }
            i += 1;
        }
        Ok(())
    }
}

/// Step 2: every changed key belongs to a channel participant.
pub open spec fn changes_known(c: ChannelState, u: StateUpdate) -> bool {
    forall|i: int|
        0 <= i < u.balance_changes@.len() ==> key_in(
            c.participants@,
            (#[trigger] u.balance_changes@[i]).0@,
        )
}

/// No two change entries name the same key; the update is a mapping.
pub open spec fn changes_keys_distinct(u: StateUpdate) -> bool {
    forall|i: int, j: int|
        0 <= i < j < u.balance_changes@.len() ==> (#[trigger] u.balance_changes@[i]).0@ != (
        #[trigger] u.balance_changes@[j]).0@
}

/// Step 4: the affected list equals the canonical sort of itself.
pub open spec fn affected_sorted(u: StateUpdate) -> bool {
    sorted_by(u.affected_participants@, key_le())
}

/// Step 5: every changed key is among the affected participants.
pub open spec fn changed_in_affected(u: StateUpdate) -> bool {
    forall|i: int|
        0 <= i < u.balance_changes@.len() ==> key_in(
            u.affected_participants@,
            (#[trigger] u.balance_changes@[i]).0@,
        )
}

/// Step 7: each delta applies to the current balance without overflow and
/// without driving it negative.
pub open spec fn funds_ok(c: ChannelState, u: StateUpdate) -> bool {
    forall|i: int|
        0 <= i < u.balance_changes@.len() ==> {
            let e = #[trigger] u.balance_changes@[i];
            0 <= c.balance_of(e.0@) + e.1 <= i64::MAX
        }
}

/// The canonical message an update to `c` commits to.
pub open spec fn update_message(c: ChannelState, u: StateUpdate) -> Seq<u8> {
    payload_bytes(
        u.sequence_number,
        c.channel_id@,
        sort_changes_spec(u.balance_changes@),
        sort_keys_spec(u.affected_participants@),
        u.timestamp,
    )
}

/// Step 8: each signature verifies under its affected participant over the
/// canonical message.
pub open spec fn sigs_valid(c: ChannelState, u: StateUpdate) -> bool {
    u.signatures@.len() == u.affected_participants@.len() && multisig_valid(
        u.signatures@,
        u.affected_participants@,
        update_message(c, u),
    )
}

/// The exact outcome of the validator, checks in their fixed order.
pub open spec fn validate_spec(c: ChannelState, u: StateUpdate) -> Result<(), ChannelError> {
    if u.sequence_number != c.sequence_number + 1 {
        Err(ChannelError::InvalidSequence)
    } else if !changes_known(c, u) {
        Err(ChannelError::UnknownParticipant)
    } else if sum_changes(u.balance_changes@) != 0 {
        Err(ChannelError::NonZeroBalanceChange)
    } else if !changes_keys_distinct(u) {
        Err(ChannelError::InvalidSignatureCount)
    } else if !affected_sorted(u) {
        Err(ChannelError::InvalidSignatureCount)
    } else if !changed_in_affected(u) {
        Err(ChannelError::InvalidSignatureCount)
    } else if u.signatures@.len() != u.affected_participants@.len() {
        Err(ChannelError::InvalidSignatureCount)
    } else if !funds_ok(c, u) {
        Err(ChannelError::InsufficientFunds)
    } else if !sigs_valid(c, u) {
        Err(ChannelError::InvalidSignature)
    } else {
        Ok(())
    }
}

/// Validate a proposed update against the channel: sequence, known
/// participants, conservation, a well-formed sorted affected list covering
/// every changed key, one signature per affected participant, sufficient
/// funds, and the signatures themselves, in that order. No step mutates the
/// channel.
#[verifier::loop_isolation(false)]
pub fn validate_state_transition(channel: &ChannelState, update: &StateUpdate) -> (r: Result<
    (),
    ChannelError,
>)
    requires
        channel.wf(),
    ensures
        r == validate_spec(*channel, *update),
{
    if channel.sequence_number == u64::MAX || update.sequence_number != channel.sequence_number
        + 1 {
        return Err(ChannelError::InvalidSequence);
    }
    let n = update.balance_changes.len();
    let mut i: usize = 0;
    while i < n
        invariant
            i <= n,
            forall|j: int|
                0 <= j < i ==> key_in(
                    channel.participants@,
                    (#[trigger] update.balance_changes@[j]).0@,
                ),
        decreases n - i,
    {
        if !crate::crypto::contains_key(&channel.participants, &update.balance_changes[i].0) {
            return Err(ChannelError::UnknownParticipant);
        }
        i += 1;
    }
    assert(changes_known(*channel, *update));
    let mut acc: i128 = 0;
    let mut i: usize = 0;
    while i < n
        invariant
            i <= n,
            acc as int == sum_changes(update.balance_changes@.subrange(0, i as int)),
            -(i as int) * 0x8000_0000_0000_0000 <= acc as int <= (i as int)
                * 0x8000_0000_0000_0000,
        decreases n - i,
    {
        let d = update.balance_changes[i].1;
        proof {
            let t = update.balance_changes@.subrange(0, i + 1);
            assert(t.drop_last() =~= update.balance_changes@.subrange(0, i as int));
            assert(t.last() == update.balance_changes@[i as int]);
        }
        acc = acc + d as i128;
        i += 1;
    }
    assert(update.balance_changes@.subrange(0, n as int) =~= update.balance_changes@);
    if acc != 0 {
        return Err(ChannelError::NonZeroBalanceChange);
    }
    let mut i: usize = 0;
    while i < n
        invariant
            i <= n,
            forall|a: int, b: int|
                0 <= a < b < n && a < i ==> (#[trigger] update.balance_changes@[a]).0@ != (
                #[trigger] update.balance_changes@[b]).0@,
        decreases n - i,
    {
        let mut j: usize = i + 1;
        while j < n
            invariant
                i < j <= n,
                forall|b: int|
                    i < b < j ==> update.balance_changes@[i as int].0@ != (
                    #[trigger] update.balance_changes@[b]).0@,
            decreases n - j,
        {
            if update.balance_changes[i].0.equals(&update.balance_changes[j].0) {
                return Err(ChannelError::InvalidSignatureCount);
            }
            j += 1;
        }
        i += 1;
    }
    assert(changes_keys_distinct(*update));
    let m = update.affected_participants.len();
    let mut i: usize = 0;
    while m > 0 && i < m - 1
        invariant
            i <= m,
            forall|k: int|
                1 <= k < m && k <= i ==> lex_le(
                    update.affected_participants@[k - 1]@,
                    (#[trigger] update.affected_participants@[k])@,
                ),
        decreases m - i,
    {
        if crate::canonical::key_lt(
            &update.affected_participants[i + 1],
            &update.affected_participants[i],
        ) {
            proof {
                let s = update.affected_participants@;
                if sorted_by(s, key_le()) {
                    assert(key_le()(s[i as int], s[i + 1]));
                    if lex_lt(s[i as int]@, s[i + 1]@) {
                        crate::canonical::lemma_lex_lt_transitive(
                            s[i as int]@,
                            s[i + 1]@,
                            s[i as int]@,
                        );
                    }
                    crate::canonical::lemma_lex_lt_irreflexive(s[i as int]@);
                }
            }
            return Err(ChannelError::InvalidSignatureCount);
        }
        proof {
            crate::canonical::lemma_lex_lt_total(
                update.affected_participants@[i as int]@,
                update.affected_participants@[i + 1]@,
            );
        }
        i += 1;
    }
    proof {
        crate::canonical::lemma_adjacent_implies_sorted(update.affected_participants@);
    }
    let mut i: usize = 0;
    while i < n
        invariant
            i <= n,
            forall|j: int|
                0 <= j < i ==> key_in(
                    update.affected_participants@,
                    (#[trigger] update.balance_changes@[j]).0@,
                ),
        decreases n - i,
    {
        if !crate::crypto::contains_key(
            &update.affected_participants,
            &update.balance_changes[i].0,
        ) {
            return Err(ChannelError::InvalidSignatureCount);
        }
        i += 1;
    }
    assert(changed_in_affected(*update));
    if update.signatures.len() != m {
        return Err(ChannelError::InvalidSignatureCount);
    }
    let mut i: usize = 0;
    while i < n
        invariant
            i <= n,
            forall|j: int|
                0 <= j < i ==> {
                    let e = #[trigger] update.balance_changes@[j];
                    0 <= channel.balance_of(e.0@) + e.1 <= i64::MAX
                },
        decreases n - i,
    {
        let entry = update.balance_changes[i];
        let found = crate::crypto::find_key(&channel.participants, &entry.0);
        let idx = match found {
            Some(idx) => idx,
            None => {
                proof {
                    assert(key_in(channel.participants@, entry.0@));
                }
                return Err(ChannelError::InvalidSignatureCount);
            },
        };
        proof {
            crate::channel::state::lemma_key_index_of(channel.participants@, entry.0@, idx as int);
        }
        let bal = channel.balances[idx];
        match bal.checked_add(entry.1) {
            Some(nb) => {
                if nb < 0 {
                    return Err(ChannelError::InsufficientFunds);
                }
            },
            None => {
                return Err(ChannelError::InsufficientFunds);
            },
        }
        i += 1;
    }
    assert(funds_ok(*channel, *update));
    let mut message = StateUpdateForSigning::new(
        update.sequence_number,
        channel.channel_id,
        &update.balance_changes,
        &update.affected_participants,
    );
    message.timestamp = update.timestamp;
    proof {
        crate::canonical::lemma_key_le_total_ordering();
        update.affected_participants@.lemma_sort_by_ensures(key_le());
        vstd::seq_lib::lemma_sorted_unique(
            update.affected_participants@,
            sort_keys_spec(update.affected_participants@),
            key_le(),
        );
        assert(message.affected_participants@ == update.affected_participants@);
        assert(message.bytes_spec() == update_message(*channel, *update));
    }
    match message.verify_signatures(&update.signatures) {
        Ok(()) => Ok(()),
        Err(e) => {
            assert(e == ChannelError::InvalidSignature);
            Err(e)
        },
    }
}

/// Positional binding of signatures: in an update that passes every
/// structural and monetary check, a signature that does not verify under
/// the participant at its own position is rejected as `InvalidSignature` —
/// there is one legal arrangement only. That a signature made by a
/// different participant fails verification at a given position is a
/// property of the cipher which the verification predicate leaves open, so
/// this law takes the failing position as its premise.
pub proof fn lemma_signature_positional_binding(c: ChannelState, u: StateUpdate, i: int)
    requires
        u.sequence_number == c.sequence_number + 1,
        changes_known(c, u),
        sum_changes(u.balance_changes@) == 0,
        changes_keys_distinct(u),
        affected_sorted(u),
        changed_in_affected(u),
        u.signatures@.len() == u.affected_participants@.len(),
        funds_ok(c, u),
        0 <= i < u.affected_participants@.len(),
        !crate::crypto::ed_verify(
            u.affected_participants@[i]@,
            u.signatures@[i]@,
            update_message(c, u),
        ),
    ensures
        validate_spec(c, u) == Err::<(), ChannelError>(ChannelError::InvalidSignature),
{
    assert(!multisig_valid(u.signatures@, u.affected_participants@, update_message(c, u)));
}

/// Balances never go negative: if every balance was non-negative before a
/// valid update was applied, every balance is non-negative after it.
pub proof fn lemma_balances_nonnegative(pre: ChannelState, u: StateUpdate, post: ChannelState)
    requires
        pre.wf(),
        valid_transition(pre, u),
        applied(pre, u, post),
        forall|i: int| 0 <= i < pre.balances@.len() ==> (#[trigger] pre.balances@[i]) >= 0,
    ensures
        forall|i: int| 0 <= i < post.balances@.len() ==> (#[trigger] post.balances@[i]) >= 0,
{
    assert forall|i: int| 0 <= i < post.balances@.len() implies (#[trigger] post.balances@[i])
        >= 0 by {
        let k = pre.participants@[i]@;
        let d = delta_of(u.balance_changes@, k);
        assert(post.balances@[i] == pre.balances@[i] + d);
        if d != 0 {
            if forall|j: int| 0 <= j < u.balance_changes@.len() ==> (
            #[trigger] u.balance_changes@[j]).0@ != k {
                crate::channel::state::lemma_delta_of_absent(u.balance_changes@, k);
            }
            let j = choose|j: int|
                0 <= j < u.balance_changes@.len() && (#[trigger] u.balance_changes@[j]).0@ == k;
            crate::channel::state::lemma_delta_of_entry(u.balance_changes@, j);
            crate::channel::state::lemma_key_index_of(pre.participants@, k, i);
            assert(pre.balance_of(k) == pre.balances@[i]);
            assert(0 <= pre.balance_of(k) + u.balance_changes@[j].1);
        }
    }
}

/// Canonical encoding: two signing payloads with the same logical content,
/// the balance changes and affected participants arriving in any order,
/// serialize to byte-identical output.
pub proof fn lemma_canonical_encoding(
    sequence_number: u64,
    channel_id: Seq<u8>,
    changes1: Seq<(PublicKey, i64)>,
    changes2: Seq<(PublicKey, i64)>,
    affected1: Seq<PublicKey>,
    affected2: Seq<PublicKey>,
    timestamp: u64,
)
    requires
        changes1.to_multiset() == changes2.to_multiset(),
        affected1.to_multiset() == affected2.to_multiset(),
    ensures
        payload_bytes(
            sequence_number,
            channel_id,
            sort_changes_spec(changes1),
            sort_keys_spec(affected1),
            timestamp,
        ) == payload_bytes(
            sequence_number,
            channel_id,
            sort_changes_spec(changes2),
            sort_keys_spec(affected2),
            timestamp,
        ),
{
    crate::canonical::lemma_canonical_sort_unique(changes1, changes2);
    crate::canonical::lemma_canonical_key_sort_unique(affected1, affected2);
}

/// A valid transition: every check of the validator passes.
pub open spec fn valid_transition(c: ChannelState, u: StateUpdate) -> bool {
    validate_spec(c, u) is Ok
}

/// What a successful application does: sequence advances to the update's,
/// every balance moves by its delta, identity, participants and status stay,
/// and the update is recorded.
pub open spec fn applied(pre: ChannelState, u: StateUpdate, post: ChannelState) -> bool {
    &&& post.channel_id@ == pre.channel_id@
    &&& post.participants@ == pre.participants@
    &&& post.sequence_number == u.sequence_number
    &&& post.status == pre.status
    &&& post.latest_update matches Some(s) && update_eq(s, u)
    &&& post.balances@.len() == pre.balances@.len()
    &&& forall|i: int|
        0 <= i < pre.balances@.len() ==> post.balances@[i] == pre.balances@[i] + delta_of(
            u.balance_changes@,
            (#[trigger] pre.participants@[i])@,
        )
}

} // verus!
