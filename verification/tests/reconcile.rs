use hwpolicy::error::Error;
use hwpolicy::psbt::{apply_signatures, Psbt, SignatureRecord};

fn plain(pubkey: &[u8], signature: &[u8]) -> SignatureRecord {
    SignatureRecord::Plain {
        pubkey: pubkey.to_vec(),
        signature: signature.to_vec(),
    }
}

fn tap_script(pubkey: &[u8], leaf_hash: &[u8], signature: &[u8]) -> SignatureRecord {
    SignatureRecord::TapScript {
        pubkey: pubkey.to_vec(),
        leaf_hash: leaf_hash.to_vec(),
        signature: signature.to_vec(),
    }
}

#[test]
fn two_plain_signatures_both_kept() {
    let mut psbt = Psbt::new(1);
    let records = vec![(0usize, plain(b"pkA", b"sigA")), (0usize, plain(b"pkB", b"sigB"))];
    apply_signatures(&mut psbt, &records).unwrap();
    let input = &psbt.inputs[0];
    assert_eq!(input.partial_sigs.get(&b"pkA".to_vec()), Some(&b"sigA".to_vec()));
    assert_eq!(input.partial_sigs.get(&b"pkB".to_vec()), Some(&b"sigB".to_vec()));
    assert_eq!(input.partial_sigs.entries.len(), 2);
}

#[test]
fn repeated_plain_key_keeps_newest() {
    let mut psbt = Psbt::new(1);
    let records = vec![(0usize, plain(b"pk", b"sig1")), (0usize, plain(b"pk", b"sig2"))];
    apply_signatures(&mut psbt, &records).unwrap();
    let input = &psbt.inputs[0];
    assert_eq!(input.partial_sigs.get(&b"pk".to_vec()), Some(&b"sig2".to_vec()));
    assert_eq!(input.partial_sigs.entries.len(), 1);
}

#[test]
fn repeated_tap_script_pair_keeps_newest() {
    let mut psbt = Psbt::new(1);
    let records = vec![
        (0usize, tap_script(b"pk", b"leaf", b"sig1")),
        (0usize, tap_script(b"pk", b"leaf", b"sig2")),
    ];
    apply_signatures(&mut psbt, &records).unwrap();
    let input = &psbt.inputs[0];
    assert_eq!(
        input.tap_script_sigs.get(&b"pk".to_vec(), &b"leaf".to_vec()),
        Some(&b"sig2".to_vec())
    );
    assert_eq!(input.tap_script_sigs.entries.len(), 1);
}

#[test]
fn tap_key_signature_overwrites_slot() {
    let mut psbt = Psbt::new(1);
    let records = vec![
        (0usize, SignatureRecord::TapKey { signature: b"sig1".to_vec() }),
        (0usize, SignatureRecord::TapKey { signature: b"sig2".to_vec() }),
    ];
    apply_signatures(&mut psbt, &records).unwrap();
    assert_eq!(psbt.inputs[0].tap_key_sig, Some(b"sig2".to_vec()));
}

#[test]
fn out_of_range_index_fails_without_change() {
    let mut psbt = Psbt::new(1);
    let records = vec![(1usize, plain(b"pk", b"sig"))];
    let err = apply_signatures(&mut psbt, &records).unwrap_err();
    assert!(matches!(err, Error::DeviceDidNotSign));
    let input = &psbt.inputs[0];
    assert!(input.partial_sigs.entries.is_empty());
    assert!(input.tap_script_sigs.entries.is_empty());
    assert!(input.tap_key_sig.is_none());
}

#[test]
fn merges_before_bad_index_stay_applied() {
    let mut psbt = Psbt::new(2);
    let records = vec![
        (0usize, plain(b"pkA", b"sigA")),
        (5usize, plain(b"pkB", b"sigB")),
        (1usize, plain(b"pkC", b"sigC")),
    ];
    let err = apply_signatures(&mut psbt, &records).unwrap_err();
    assert!(matches!(err, Error::DeviceDidNotSign));
    assert_eq!(
        psbt.inputs[0].partial_sigs.get(&b"pkA".to_vec()),
        Some(&b"sigA".to_vec())
    );
    // The record after the failing one was never applied.
    assert!(psbt.inputs[1].partial_sigs.entries.is_empty());
}

#[test]
fn records_target_their_own_inputs() {
    let mut psbt = Psbt::new(2);
    let records = vec![
        (1usize, plain(b"pkB", b"sigB")),
        (0usize, tap_script(b"pkA", b"leaf", b"sigA")),
    ];
    apply_signatures(&mut psbt, &records).unwrap();
    assert!(psbt.inputs[0].partial_sigs.entries.is_empty());
    assert_eq!(
        psbt.inputs[0].tap_script_sigs.get(&b"pkA".to_vec(), &b"leaf".to_vec()),
        Some(&b"sigA".to_vec())
    );
    assert_eq!(
        psbt.inputs[1].partial_sigs.get(&b"pkB".to_vec()),
        Some(&b"sigB".to_vec())
    );
}
