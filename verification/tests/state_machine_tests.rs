use state_channel_node::channel::state::{ChannelState, StateUpdate};
use state_channel_node::channel::transitions::{ChannelError, StateUpdateForSigning};
use state_channel_node::crypto::{generate_keypair, KeyPair, PublicKey};

fn create_test_channel(participants: &[PublicKey], initial_balance: i64) -> ChannelState {
    let balances = vec![initial_balance; participants.len()];
    ChannelState::new(participants.to_vec(), balances).expect("valid channel arguments")
}

fn balance_in(channel: &ChannelState, pk: &PublicKey) -> i64 {
    let idx = channel
        .participants
        .iter()
        .position(|p| p.as_bytes() == pk.as_bytes())
        .unwrap();
    channel.balances[idx]
}

fn signed_update(
    keypairs: &[&KeyPair],
    channel: &ChannelState,
    sequence: u64,
    changes: Vec<(PublicKey, i64)>,
    timestamp: u64,
) -> StateUpdate {
    let mut affected: Vec<PublicKey> = changes.iter().map(|(p, _)| p.clone()).collect();
    affected.sort_by(|a, b| a.as_bytes().cmp(&b.as_bytes()));
    let mut payload = StateUpdateForSigning::new(sequence, channel.channel_id, &changes, &affected);
    payload.timestamp = timestamp;
    let message = payload.to_bytes();
    let signatures = affected
        .iter()
        .map(|p| {
            let kp = keypairs
                .iter()
                .find(|kp| kp.public_key().as_bytes() == p.as_bytes())
                .unwrap();
            kp.sign(&message)
        })
        .collect();
    StateUpdate {
        sequence_number: sequence,
        balance_changes: changes,
        signatures,
        affected_participants: affected,
        timestamp,
    }
}

#[test]
fn test_apply_update_transfers_and_conserves() {
    let kp1 = generate_keypair();
    let kp2 = generate_keypair();
    let participants = vec![kp1.public_key(), kp2.public_key()];
    let mut channel = create_test_channel(&participants, 1_000_000);

    let update = signed_update(
        &[&kp1, &kp2],
        &channel,
        1,
        vec![
            (participants[0].clone(), -100_000),
            (participants[1].clone(), 100_000),
        ],
        7,
    );

    assert!(channel.apply_update(&update).is_ok());
    assert_eq!(balance_in(&channel, &participants[0]), 900_000);
    assert_eq!(balance_in(&channel, &participants[1]), 1_100_000);
    assert_eq!(channel.sequence_number, 1);
    let total: i64 = channel.balances.iter().sum();
    assert_eq!(total, 2_000_000);
    let stored = channel.latest_update.as_ref().unwrap();
    assert_eq!(stored.sequence_number, 1);
    assert_eq!(stored.timestamp, 7);
}

#[test]
fn test_apply_update_rejected_leaves_state_unchanged() {
    let kp1 = generate_keypair();
    let kp2 = generate_keypair();
    let participants = vec![kp1.public_key(), kp2.public_key()];
    let mut channel = create_test_channel(&participants, 1_000_000);

    // Wrong sequence: target is 2 while the next must be 1.
    let update = signed_update(
        &[&kp1, &kp2],
        &channel,
        2,
        vec![
            (participants[0].clone(), -100_000),
            (participants[1].clone(), 100_000),
        ],
        7,
    );

    let result = channel.apply_update(&update);
    assert!(matches!(result, Err(ChannelError::InvalidSequence)));
    assert_eq!(balance_in(&channel, &participants[0]), 1_000_000);
    assert_eq!(balance_in(&channel, &participants[1]), 1_000_000);
    assert_eq!(channel.sequence_number, 0);
    assert!(channel.latest_update.is_none());
}

#[test]
fn test_unknown_participant_rejected() {
    let kp1 = generate_keypair();
    let kp2 = generate_keypair();
    let outsider = generate_keypair();
    let participants = vec![kp1.public_key(), kp2.public_key()];
    let mut channel = create_test_channel(&participants, 1_000_000);

    let update = signed_update(
        &[&kp1, &outsider],
        &channel,
        1,
        vec![
            (participants[0].clone(), -500),
            (outsider.public_key(), 500),
        ],
        3,
    );

    let result = channel.apply_update(&update);
    assert!(matches!(result, Err(ChannelError::UnknownParticipant)));
}

#[test]
fn test_nonzero_balance_change_rejected() {
    let kp1 = generate_keypair();
    let kp2 = generate_keypair();
    let participants = vec![kp1.public_key(), kp2.public_key()];
    let mut channel = create_test_channel(&participants, 1_000_000);

    let update = signed_update(
        &[&kp1, &kp2],
        &channel,
        1,
        vec![
            (participants[0].clone(), -500),
            (participants[1].clone(), 400),
        ],
        3,
    );

    let result = channel.apply_update(&update);
    assert!(matches!(result, Err(ChannelError::NonZeroBalanceChange)));
}

#[test]
fn test_unsorted_affected_list_rejected() {
    let kp1 = generate_keypair();
    let kp2 = generate_keypair();
    let participants = vec![kp1.public_key(), kp2.public_key()];
    let mut channel = create_test_channel(&participants, 1_000_000);

    let mut update = signed_update(
        &[&kp1, &kp2],
        &channel,
        1,
        vec![
            (participants[0].clone(), -500),
            (participants[1].clone(), 500),
        ],
        3,
    );
    // Break the canonical order of the affected list.
    update.affected_participants.reverse();
    update.signatures.reverse();

    let result = channel.apply_update(&update);
    assert!(matches!(result, Err(ChannelError::InvalidSignatureCount)));
}

#[test]
fn test_sequence_increments_by_one_per_update() {
    let kp1 = generate_keypair();
    let kp2 = generate_keypair();
    let participants = vec![kp1.public_key(), kp2.public_key()];
    let mut channel = create_test_channel(&participants, 1_000_000);

    for seq in 1..=3u64 {
        let update = signed_update(
            &[&kp1, &kp2],
            &channel,
            seq,
            vec![
                (participants[0].clone(), -1_000),
                (participants[1].clone(), 1_000),
            ],
            seq,
        );
        assert!(channel.apply_update(&update).is_ok());
        assert_eq!(channel.sequence_number, seq);
    }
    let total: i64 = channel.balances.iter().sum();
    assert_eq!(total, 2_000_000);
}
