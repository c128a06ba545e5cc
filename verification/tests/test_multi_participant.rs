use rand::seq::SliceRandom;
use rand::Rng;
use state_channel_node::channel::state::{ChannelState, StateUpdate};
use state_channel_node::channel::transitions::{validate_state_transition, StateUpdateForSigning};
use state_channel_node::crypto::{generate_keypair, KeyPair, PublicKey, Signature};

fn create_test_channel(participants: &[PublicKey], initial_balance: i64) -> ChannelState {
    let balances = vec![initial_balance; participants.len()];
    ChannelState::new(participants.to_vec(), balances).expect("valid channel arguments")
}

fn balance_in(channel: &ChannelState, pk: &PublicKey) -> i64 {
    let idx = channel
        .participants
        .iter()
        .position(|p| p.as_bytes() == pk.as_bytes())
        .unwrap();
    channel.balances[idx]
}

fn sign_update(
    kp: &KeyPair,
    affected_participants: &[PublicKey],
    sequence: u64,
    changes: &Vec<(PublicKey, i64)>,
    timestamp: u64,
    channel_id: [u8; 32],
) -> Signature {
    let mut message_for_signing = StateUpdateForSigning::new(
        sequence,
        channel_id,
        changes,
        &affected_participants.to_vec(),
    );
    message_for_signing.timestamp = timestamp;
    let message = message_for_signing.to_bytes();
    kp.sign(&message)
}

fn sort_participants(participants: &mut [PublicKey]) {
    participants.sort_by(|a, b| a.as_bytes().cmp(&b.as_bytes()));
}

fn now_secs() -> u64 {
    std::time::SystemTime::now()
        .duration_since(std::time::UNIX_EPOCH)
        .unwrap()
        .as_secs()
}

#[test]
fn test_multi_participant_circular_payment() {
    println!("\n=== Testing Multi-Participant Circular Payment ===");
    let kp1 = generate_keypair();
    let kp2 = generate_keypair();
    let kp3 = generate_keypair();

    let participants = vec![kp1.public_key(), kp2.public_key(), kp3.public_key()];
    println!("Created channel with {} participants", participants.len());
    let mut channel = create_test_channel(&participants, 1_000_000);
    println!("Initial channel balance: 1,000,000");

    let keypair_for = |p: &PublicKey| -> &KeyPair {
        if p.as_bytes() == participants[0].as_bytes() {
            &kp1
        } else if p.as_bytes() == participants[1].as_bytes() {
            &kp2
        } else {
            &kp3
        }
    };

    // First transfer: P1 -> P2
    println!("\nStep 1: P1 -> P2 (100,000)");
    let mut affected_participants1 = vec![participants[0].clone(), participants[1].clone()];
    sort_participants(&mut affected_participants1);
    let changes1 = vec![
        (participants[0].clone(), -100_000),
        (participants[1].clone(), 100_000),
    ];
    let timestamp1 = now_secs();
    let signatures1: Vec<_> = affected_participants1
        .iter()
        .map(|p| {
            sign_update(
                keypair_for(p),
                &affected_participants1,
                1,
                &changes1,
                timestamp1,
                channel.channel_id,
            )
        })
        .collect();
    let update1 = StateUpdate {
        sequence_number: 1,
        balance_changes: changes1,
        signatures: signatures1,
        affected_participants: affected_participants1,
        timestamp: timestamp1,
    };

    // Second transfer: P2 -> P3
    println!("\nStep 2: P2 -> P3 (100,000)");
    let mut affected_participants2 = vec![participants[1].clone(), participants[2].clone()];
    sort_participants(&mut affected_participants2);
    let changes2 = vec![
        (participants[1].clone(), -100_000),
        (participants[2].clone(), 100_000),
    ];
    let timestamp2 = timestamp1 + 1;
    let signatures2: Vec<_> = affected_participants2
        .iter()
        .map(|p| {
            sign_update(
                keypair_for(p),
                &affected_participants2,
                2,
                &changes2,
                timestamp2,
                channel.channel_id,
            )
        })
        .collect();
    let update2 = StateUpdate {
        sequence_number: 2,
        balance_changes: changes2,
        signatures: signatures2,
        affected_participants: affected_participants2,
        timestamp: timestamp2,
    };

    // Third transfer: P3 -> P1
    println!("\nStep 3: P3 -> P1 (100,000)");
    let mut affected_participants3 = vec![participants[2].clone(), participants[0].clone()];
    sort_participants(&mut affected_participants3);
    let changes3 = vec![
        (participants[2].clone(), -100_000),
        (participants[0].clone(), 100_000),
    ];
    let timestamp3 = timestamp2 + 1;
    let signatures3: Vec<_> = affected_participants3
        .iter()
        .map(|p| {
            sign_update(
                keypair_for(p),
                &affected_participants3,
                3,
                &changes3,
                timestamp3,
                channel.channel_id,
            )
        })
        .collect();
    let update3 = StateUpdate {
        sequence_number: 3,
        balance_changes: changes3,
        signatures: signatures3,
        affected_participants: affected_participants3,
        timestamp: timestamp3,
    };

    // Apply all updates
    for (i, update) in [update1, update2, update3].iter().enumerate() {
        println!("\nApplying update {}", i + 1);
        match validate_state_transition(&channel, update) {
            Ok(_) => {
                let _ = channel.apply_update(update);
                println!("Successfully applied update {}", i + 1);
            }
            Err(e) => {
                println!("Failed to apply update {}: {:?}", i + 1, e);
            }
        }
    }

    // Verify final state
    println!("\nFinal channel state:");
    for (i, participant) in participants.iter().enumerate() {
        println!("P{} balance: {}", i + 1, balance_in(&channel, participant));
    }

    // All balances should be back to initial state
    for participant in &participants {
        assert_eq!(balance_in(&channel, participant), 1_000_000, "Final balance incorrect");
    }

    assert_eq!(channel.sequence_number, 3, "Final sequence number should be 3");
}

#[test]
fn test_realistic_multi_participant_scenario() {
    println!("\n=== Testing Realistic Multi-Participant Scenario ===");
    // Create 5 participants
    let keypairs: Vec<_> = (0..5).map(|_| generate_keypair()).collect();
    let participants: Vec<_> = keypairs.iter().map(|kp| kp.public_key()).collect();

    println!("Created channel with {} participants", participants.len());
    let mut channel = create_test_channel(&participants, 1_000_000);
    println!("Initial channel balance: 1,000,000");

    let keypair_for = |p: &PublicKey| -> &KeyPair {
        let idx = participants
            .iter()
            .position(|q| q.as_bytes() == p.as_bytes())
            .unwrap();
        &keypairs[idx]
    };

    // Create a series of random updates
    let mut rng = rand::thread_rng();
    let mut updates = Vec::new();
    let mut timestamp = now_secs();

    for seq in 1..=10 {
        // Randomly select two participants for this update
        let mut update_participants = participants.clone();
        update_participants.shuffle(&mut rng);
        let affected = &update_participants[0..2];

        let mut affected_participants = affected.to_vec();
        sort_participants(&mut affected_participants);

        let amount = rng.gen_range(50_000..=100_000);
        let changes = vec![(affected[0].clone(), -amount), (affected[1].clone(), amount)];

        let signatures: Vec<_> = affected_participants
            .iter()
            .map(|p| {
                sign_update(
                    keypair_for(p),
                    &affected_participants,
                    seq,
                    &changes,
                    timestamp,
                    channel.channel_id,
                )
            })
            .collect();

        let update = StateUpdate {
            sequence_number: seq,
            balance_changes: changes,
            signatures,
            affected_participants,
            timestamp,
        };

        updates.push(update);
        timestamp += 1; // Increment timestamp for each update
    }

    // Apply all updates
    for (i, update) in updates.iter().enumerate() {
        println!("\nApplying update {}", i + 1);
        match validate_state_transition(&channel, update) {
            Ok(_) => {
                let _ = channel.apply_update(update);
                println!("Successfully applied update {}", i + 1);
            }
            Err(e) => {
                println!("Failed to apply update {}: {:?}", i + 1, e);
            }
        }
    }

    // Verify final state
    println!("\nFinal channel state:");
    for (i, participant) in participants.iter().enumerate() {
        println!("P{} balance: {}", i + 1, balance_in(&channel, participant));
    }

    // Verify that total balance remains constant
    let total_balance: i64 = channel.balances.iter().sum();
    assert_eq!(total_balance, 5_000_000, "Total balance should remain constant");

    assert_eq!(channel.sequence_number, 10, "Final sequence number should be 10");
}
