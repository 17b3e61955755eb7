use ckb_smt_tool::codec::{decode_smt_update, encode_smt_update};
use ckb_smt_tool::prover::{GeneratorError, ProofGenerator};
use ckb_smt_tool::types::{SmtChange, SmtUpdate, UpdateError, VerifyError};

fn filled_generator() -> ProofGenerator {
    let mut generator = ProofGenerator::new();
    for i in 0..20u8 {
        let k = [i; 4];
        let v = Some(vec![i; 10]);
        generator.update(&k, v).expect("smt update");
    }
    generator
}

#[test]
fn empty_tree_root_is_zero() {
    let generator = ProofGenerator::new();
    assert_eq!(generator.root(), [0u8; 32]);
}

#[test]
fn update_changes_root_and_get_reads_back() {
    let mut generator = ProofGenerator::new();
    let root = generator
        .update(&[1, 2, 3], Some(vec![4, 5, 6]))
        .expect("smt update");
    assert_ne!(root, [0u8; 32]);
    assert_eq!(generator.root(), root);
    assert_eq!(generator.get(&[1, 2, 3]).expect("get"), Some(vec![4, 5, 6]));
    assert_eq!(generator.get(&[9, 9, 9]).expect("get"), None);
}

#[test]
fn delete_restores_previous_root() {
    let mut generator = ProofGenerator::new();
    let root_before = generator.root();
    generator.update(&[7; 4], Some(vec![1; 8])).expect("smt update");
    let root_after = generator.update(&[7; 4], None).expect("smt delete");
    assert_eq!(root_before, root_after);
}

#[test]
fn idempotent_delete_keeps_root() {
    let mut generator = filled_generator();
    let root_before = generator.root();
    // The key was never assigned: deleting it must not move the root.
    let root_after = generator.update(&[99; 4], None).expect("smt delete");
    assert_eq!(root_before, root_after);
    // Deleting it once more changes nothing either.
    let root_again = generator.update(&[99; 4], None).expect("smt delete");
    assert_eq!(root_before, root_again);
}

#[test]
fn root_is_independent_of_update_order() {
    let mut forward = ProofGenerator::new();
    let mut backward = ProofGenerator::new();
    for i in 0..20u8 {
        forward.update(&[i; 4], Some(vec![i; 10])).expect("smt update");
    }
    for i in (0..20u8).rev() {
        backward.update(&[i; 4], Some(vec![i; 10])).expect("smt update");
    }
    // Overwrites along the way do not matter either: the final mapping does.
    backward.update(&[3; 4], Some(vec![0; 2])).expect("smt update");
    backward.update(&[3; 4], Some(vec![3; 10])).expect("smt update");
    assert_eq!(forward.root(), backward.root());
}

#[test]
fn append_change_returns_previous_pending() {
    let mut generator = ProofGenerator::new();
    assert_eq!(generator.append_change(vec![1, 1], Some(vec![2])), None);
    assert_eq!(
        generator.append_change(vec![1, 1], Some(vec![3])),
        Some(Some(vec![2]))
    );
    assert_eq!(generator.append_change(vec![1, 1], None), Some(Some(vec![3])));
    assert_eq!(generator.append_change(vec![2, 2], None), None);
}

#[test]
fn commit_with_nothing_staged_is_rejected() {
    let mut generator = filled_generator();
    assert!(matches!(
        generator.commit_changes(),
        Err(GeneratorError::EmptyKeys)
    ));
}

#[test]
fn merkle_proof_of_no_keys_is_rejected() {
    let generator = filled_generator();
    assert!(matches!(
        generator.merkle_proof(vec![]),
        Err(GeneratorError::EmptyKeys)
    ));
    assert!(generator.merkle_proof(vec![vec![1; 4]]).is_ok());
}

#[test]
fn transition_round_trip() {
    let mut generator = filled_generator();
    let old_root = generator.root();
    // Remove
    generator.append_change(vec![10u8; 4], None);
    // Update
    generator.append_change(vec![15u8; 4], Some(vec![15; 20]));
    // Append
    generator.append_change(vec![25u8; 4], Some(vec![25; 20]));
    let smt_update = generator.commit_changes().expect("smt commit");
    assert_eq!(smt_update.new_root, generator.root());
    assert!(smt_update.verify_smt(&old_root).is_ok());

    // The same record against a different old root is rejected.
    let other_root = [0xabu8; 32];
    assert!(matches!(
        smt_update.verify_smt(&other_root),
        Err(UpdateError::MismatchedOldRoot)
    ));
}

#[test]
fn tampered_update_record_is_rejected() {
    let mut generator = filled_generator();
    let old_root = generator.root();
    generator.append_change(vec![10u8; 4], None);
    generator.append_change(vec![15u8; 4], Some(vec![15; 20]));
    generator.append_change(vec![25u8; 4], Some(vec![25; 20]));
    let smt_update = generator.commit_changes().expect("smt commit");

    // Mutating one byte of a new value breaks one endpoint.
    let mut tampered = smt_update.clone();
    let mut found = false;
    for c in tampered.changes.iter_mut() {
        if let Some(v) = &mut c.new_value {
            v[0] ^= 1;
            found = true;
            break;
        }
    }
    assert!(found);
    assert!(matches!(
        tampered.verify_smt(&old_root),
        Err(UpdateError::MismatchedOldRoot) | Err(UpdateError::MismatchedNewRoot)
    ));

    // Mutating one byte of an old value breaks one endpoint too.
    let mut tampered = smt_update.clone();
    let mut found = false;
    for c in tampered.changes.iter_mut() {
        if let Some(v) = &mut c.old_value {
            v[0] ^= 1;
            found = true;
            break;
        }
    }
    assert!(found);
    assert!(matches!(
        tampered.verify_smt(&old_root),
        Err(UpdateError::MismatchedOldRoot) | Err(UpdateError::MismatchedNewRoot)
    ));
}

#[test]
fn data_with_proof_verifies_against_its_root() {
    let mut generator = ProofGenerator::new();
    for i in 0..20u8 {
        generator.update(&[i; 4], Some(vec![i; 10])).expect("smt update");
    }
    let root = generator.root();
    let keys = vec![vec![0u8; 4], vec![5u8; 4], vec![10u8; 4], vec![15u8; 4]];
    let data_with_proof = generator
        .data_with_proof(keys)
        .expect("generate data with proof");
    assert!(data_with_proof.verify_smt(&root).is_ok());

    let other_root = [1u8; 32];
    assert!(matches!(
        data_with_proof.verify_smt(&other_root),
        Err(VerifyError::MismatchedRoot)
    ));
}

#[test]
fn apply_update_mirrors_committed_changes() {
    let mut source = filled_generator();
    let mut mirror = filled_generator();
    source.append_change(vec![10u8; 4], None);
    source.append_change(vec![25u8; 4], Some(vec![25; 20]));
    let smt_update = source.commit_changes().expect("smt commit");
    mirror.apply_update(&smt_update).expect("apply update");
    assert_eq!(source.root(), mirror.root());
}

#[test]
fn error_codes_match_the_wire_ranges() {
    assert_eq!(UpdateError::ComputeOldRoot.error_code(), 0x01);
    assert_eq!(UpdateError::ComputeNewRoot.error_code(), 0x02);
    assert_eq!(UpdateError::MismatchedOldRoot.error_code(), 0x03);
    assert_eq!(UpdateError::MismatchedNewRoot.error_code(), 0x04);
    assert_eq!(VerifyError::ComputeRoot.error_code(), 0x01);
    assert_eq!(VerifyError::MismatchedRoot.error_code(), 0x02);
}

#[test]
fn update_record_codec_round_trip() {
    let update = SmtUpdate {
        new_root: [7u8; 32],
        changes: vec![
            SmtChange { key: vec![1, 2, 3], old_value: None, new_value: Some(vec![4, 5]) },
            SmtChange { key: vec![], old_value: Some(vec![6]), new_value: None },
        ],
        proof: vec![0x4c, 0x4f, 0x00],
    };
    let bytes = encode_smt_update(&update);
    let decoded = decode_smt_update(&bytes).expect("decode");
    assert_eq!(decoded, update);

    // Anything that is not exactly one record is rejected.
    assert_eq!(decode_smt_update(&[]), None);
    assert_eq!(decode_smt_update(&bytes[..bytes.len() - 1]), None);
    let mut longer = bytes.clone();
    longer.push(0);
    assert_eq!(decode_smt_update(&longer), None);
}

#[test]
fn data_with_proof_codec_round_trip() {
    let mut generator = filled_generator();
    generator.update(&[5; 4], Some(vec![5; 10])).expect("smt update");
    let data_with_proof = generator
        .data_with_proof(vec![vec![5u8; 4], vec![6u8; 4]])
        .expect("generate data with proof");
    let bytes = ckb_smt_tool::codec::encode_data_with_proof(&data_with_proof);
    let decoded = ckb_smt_tool::codec::decode_data_with_proof(&bytes).expect("decode");
    assert_eq!(decoded, data_with_proof);
    assert_eq!(ckb_smt_tool::codec::decode_data_with_proof(&bytes[1..]), None);
}
