use state_channel_node::crypto::{generate_keypair, verify_multisig, verify_partial_multisig};

#[test]
fn test_multisig_verification() {
    let msg = b"channel state update";
    let kp1 = generate_keypair();
    let kp2 = generate_keypair();

    let sig1 = kp1.sign(msg);
    let sig2 = kp2.sign(msg);

    let participants = vec![kp1.public_key(), kp2.public_key()];

    let signatures = vec![sig1, sig2];

    assert!(verify_multisig(&signatures, &participants, msg).is_ok());
}

#[test]
fn test_signing_round_trip() {
    let msg = b"balance update over channel 7";
    let kp = generate_keypair();
    let other = generate_keypair();

    let sig = kp.sign(msg);

    // The matching key verifies the signature.
    assert!(kp.public_key().verify_signature(&sig, msg));
    // Any other key rejects it.
    assert!(!other.public_key().verify_signature(&sig, msg));
    // A modified message rejects it.
    let tampered = b"balance update over channel 8";
    assert!(!kp.public_key().verify_signature(&sig, tampered));
}

#[test]
fn test_multisig_rejects_swapped_signatures() {
    let msg = b"positional binding";
    let kp1 = generate_keypair();
    let kp2 = generate_keypair();

    let participants = vec![kp1.public_key(), kp2.public_key()];
    let swapped = vec![kp2.sign(msg), kp1.sign(msg)];

    assert!(verify_multisig(&swapped, &participants, msg).is_err());
}

#[test]
fn test_partial_multisig_unknown_participant() {
    let msg = b"subset check";
    let kp1 = generate_keypair();
    let kp2 = generate_keypair();
    let outsider = generate_keypair();

    let all = vec![kp1.public_key(), kp2.public_key()];
    let affected = vec![outsider.public_key()];
    let sigs = vec![outsider.sign(msg)];

    assert!(verify_partial_multisig(&sigs, &all, &affected, msg).is_err());
}

#[test]
fn test_partial_multisig_positional() {
    let msg = b"partial positional";
    let kp1 = generate_keypair();
    let kp2 = generate_keypair();
    let kp3 = generate_keypair();

    let all = vec![kp1.public_key(), kp2.public_key(), kp3.public_key()];
    let affected = vec![kp1.public_key(), kp3.public_key()];

    let good = vec![kp1.sign(msg), kp3.sign(msg)];
    assert!(verify_partial_multisig(&good, &all, &affected, msg).is_ok());

    let swapped = vec![kp3.sign(msg), kp1.sign(msg)];
    assert!(verify_partial_multisig(&swapped, &all, &affected, msg).is_err());

    let short = vec![kp1.sign(msg)];
    assert!(verify_partial_multisig(&short, &all, &affected, msg).is_err());
}
