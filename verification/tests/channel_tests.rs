use state_channel_node::channel::state::{ChannelState, StateUpdate};
use state_channel_node::channel::transitions::{
    validate_state_transition, ChannelError, StateUpdateForSigning,
};
use state_channel_node::crypto::{generate_keypair, KeyPair, PublicKey, Signature};

fn create_test_channel(participants: &[PublicKey], initial_balance: i64) -> ChannelState {
    let balances = vec![initial_balance; participants.len()];
    ChannelState::new(participants.to_vec(), balances).expect("valid channel arguments")
}

fn create_test_state_update(
    sequence_number: u64,
    changes: Vec<(PublicKey, i64)>,
    signatures: Vec<Signature>,
    affected_participants: Vec<PublicKey>,
    timestamp: u64,
) -> StateUpdate {
    StateUpdate {
        sequence_number,
        balance_changes: changes,
        signatures,
        affected_participants,
        timestamp,
    }
}

fn signing_bytes(
    sequence_number: u64,
    channel_id: [u8; 32],
    changes: &Vec<(PublicKey, i64)>,
    affected: &Vec<PublicKey>,
    timestamp: u64,
) -> Vec<u8> {
    let mut message = StateUpdateForSigning::new(sequence_number, channel_id, changes, affected);
    message.timestamp = timestamp;
    message.to_bytes()
}

fn now_secs() -> u64 {
    std::time::SystemTime::now()
        .duration_since(std::time::UNIX_EPOCH)
        .unwrap()
        .as_secs()
}

#[test]
fn test_sequence_number_validation() {
    let kp1 = generate_keypair();
    let kp2 = generate_keypair();
    let participants = vec![kp1.verifying_key.clone(), kp2.verifying_key.clone()];

    let mut channel = create_test_channel(&participants, 1_000_000);
    channel.sequence_number = 5; // Simulate previous updates

    let mut affected_participants = vec![participants[0].clone(), participants[1].clone()];
    affected_participants.sort_by(|a, b| a.as_bytes().cmp(&b.as_bytes()));

    let changes = vec![
        (participants[0].clone(), -100_000),
        (participants[1].clone(), 100_000),
    ];

    let timestamp = now_secs();
    let message = signing_bytes(1, channel.channel_id, &changes, &affected_participants, timestamp);

    let signatures = vec![kp1.sign(&message), kp2.sign(&message)];

    let update = create_test_state_update(1, changes, signatures, affected_participants, timestamp);

    // Should fail due to sequence number being less than current
    assert!(matches!(
        validate_state_transition(&channel, &update),
        Err(ChannelError::InvalidSequence)
    ));
}

#[test]
fn test_balance_overflow_protection() {
    let kp1 = generate_keypair();
    let kp2 = generate_keypair();
    let participants = vec![kp1.verifying_key.clone(), kp2.verifying_key.clone()];

    let channel = create_test_channel(&participants, 1_000_000);

    let mut affected_participants = vec![participants[0].clone(), participants[1].clone()];
    affected_participants.sort_by(|a, b| a.as_bytes().cmp(&b.as_bytes()));

    let changes = vec![
        (participants[0].clone(), -i64::MAX),
        (participants[1].clone(), i64::MAX),
    ];

    let timestamp = now_secs();
    let message = signing_bytes(1, channel.channel_id, &changes, &affected_participants, timestamp);

    let signatures = vec![kp1.sign(&message), kp2.sign(&message)];

    let update = create_test_state_update(1, changes, signatures, affected_participants, timestamp);

    // Should fail due to potential overflow
    assert!(matches!(
        validate_state_transition(&channel, &update),
        Err(ChannelError::InsufficientFunds)
    ));
}

#[test]
fn test_invalid_signature_order() {
    let kp1 = generate_keypair();
    let kp2 = generate_keypair();

    let participants = vec![kp1.public_key(), kp2.public_key()];
    let channel = create_test_channel(&participants, 1_000_000);

    // Create a sorted list of affected participants
    let mut affected_participants = vec![participants[0].clone(), participants[1].clone()];
    affected_participants.sort_by(|a, b| a.as_bytes().cmp(&b.as_bytes()));

    // Create balance changes in the same order as affected_participants
    let changes: Vec<_> = affected_participants
        .iter()
        .enumerate()
        .map(|(i, p)| if i == 0 { (p.clone(), -100_000) } else { (p.clone(), 100_000) })
        .collect();

    let timestamp = now_secs();
    let message = signing_bytes(
        channel.sequence_number + 1,
        channel.channel_id,
        &changes,
        &affected_participants,
        timestamp,
    );

    // Create signatures in WRONG order (reversed from affected_participants)
    let keypair_for = |p: &PublicKey| -> &KeyPair {
        if p.as_bytes() == kp1.public_key().as_bytes() {
            &kp1
        } else {
            &kp2
        }
    };
    let signatures: Vec<_> = affected_participants
        .iter()
        .rev()
        .map(|p| keypair_for(p).sign(&message))
        .collect();

    let update = create_test_state_update(
        channel.sequence_number + 1,
        changes,
        signatures,
        affected_participants,
        timestamp,
    );

    // Should fail with InvalidSignature error since signatures are in wrong order
    assert!(matches!(
        validate_state_transition(&channel, &update),
        Err(ChannelError::InvalidSignature)
    ));
}

#[test]
fn test_missing_participant_signature() {
    let kp1 = generate_keypair();
    let kp2 = generate_keypair();
    let participants = vec![kp1.verifying_key.clone(), kp2.verifying_key.clone()];

    let channel = create_test_channel(&participants, 1_000_000);

    let mut affected_participants = vec![participants[0].clone(), participants[1].clone()];
    affected_participants.sort_by(|a, b| a.as_bytes().cmp(&b.as_bytes()));

    let changes = vec![
        (participants[0].clone(), -100_000),
        (participants[1].clone(), 100_000),
    ];

    let timestamp = now_secs();
    let message = signing_bytes(1, channel.channel_id, &changes, &affected_participants, timestamp);

    // Only include one signature
    let signatures = vec![kp1.sign(&message)];

    let update = create_test_state_update(1, changes, signatures, affected_participants, timestamp);

    // Should fail due to missing signature
    assert!(matches!(
        validate_state_transition(&channel, &update),
        Err(ChannelError::InvalidSignatureCount)
    ));
}

#[test]
fn test_valid_transition() {
    let kp1 = generate_keypair();
    let kp2 = generate_keypair();

    let participants = vec![kp1.public_key(), kp2.public_key()];
    let channel = create_test_channel(&participants, 1_000_000);

    // Create a sorted list of affected participants
    let mut affected_participants = vec![participants[0].clone(), participants[1].clone()];
    affected_participants.sort_by(|a, b| a.as_bytes().cmp(&b.as_bytes()));

    // Create balance changes in the same order as affected_participants
    let changes: Vec<_> = vec![
        (affected_participants[0].clone(), -100_000),
        (affected_participants[1].clone(), 100_000),
    ];

    let timestamp = now_secs();
    let message = signing_bytes(
        channel.sequence_number + 1,
        channel.channel_id,
        &changes,
        &affected_participants,
        timestamp,
    );

    let keypair_for = |p: &PublicKey| -> &KeyPair {
        if p.as_bytes() == kp1.public_key().as_bytes() {
            &kp1
        } else {
            &kp2
        }
    };
    // Create signatures in the same order as affected_participants
    let signatures: Vec<_> = affected_participants
        .iter()
        .map(|p| keypair_for(p).sign(&message))
        .collect();

    let update = create_test_state_update(
        channel.sequence_number + 1,
        changes,
        signatures,
        affected_participants,
        timestamp,
    );

    // Should succeed
    assert!(validate_state_transition(&channel, &update).is_ok());
}
