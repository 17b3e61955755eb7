use ckb_smt_tool::check_data;
use ckb_smt_tool::codec::{encode_data_with_proof, encode_smt_update};
use ckb_smt_tool::kvstore;
use ckb_smt_tool::kvstore::load_then_calculate_unique_id;
use ckb_smt_tool::prover::ProofGenerator;
use ckb_smt_tool::txview::{CellInfo, TxView, WitnessInfo};

const TYPE_SCRIPT_HASH: [u8; 32] = [0x71; 32];
const LOCK_SCRIPT_HASH: [u8; 32] = [0x4c; 32];

fn plain_cell() -> CellInfo {
    CellInfo { lock_hash: LOCK_SCRIPT_HASH, type_hash: None, data: vec![] }
}

fn owned_cell(data: Vec<u8>) -> CellInfo {
    CellInfo { lock_hash: LOCK_SCRIPT_HASH, type_hash: Some(TYPE_SCRIPT_HASH), data }
}

fn no_witness() -> WitnessInfo {
    WitnessInfo { lock: None, output_type: None }
}

fn filled_generator() -> ProofGenerator {
    let mut generator = ProofGenerator::new();
    for i in 0..20u8 {
        let k = [i; 4];
        let v = Some(vec![i; 10]);
        generator.update(&k, v).expect("smt update");
    }
    generator
}

#[test]
fn create_success() {
    let first_input = b"serialized first input".to_vec();
    let output_index = 0;
    let unique_id = load_then_calculate_unique_id(&first_input, output_index);

    let generator = ProofGenerator::new();
    let root = generator.root();

    let tx = TxView {
        inputs: vec![plain_cell()],
        outputs: vec![owned_cell(root.to_vec())],
        cell_deps: vec![],
        witnesses: vec![no_witness()],
        first_input,
    };
    let code = kvstore::program_entry(&tx, &TYPE_SCRIPT_HASH, &unique_id);
    assert_eq!(code, 0);
}

#[test]
fn no_output_data() {
    let first_input = b"serialized first input".to_vec();
    let unique_id = load_then_calculate_unique_id(&first_input, 0);

    let tx = TxView {
        inputs: vec![plain_cell()],
        outputs: vec![owned_cell(vec![])],
        cell_deps: vec![],
        witnesses: vec![no_witness()],
        first_input,
    };
    let code = kvstore::program_entry(&tx, &TYPE_SCRIPT_HASH, &unique_id);
    assert_ne!(code, 0);
    assert_eq!(code, 0x13);
}

#[test]
fn create_rejects_nonzero_initial_root() {
    let first_input = b"serialized first input".to_vec();
    let unique_id = load_then_calculate_unique_id(&first_input, 0);

    let mut data = vec![0u8; 32];
    data[31] = 1;
    let tx = TxView {
        inputs: vec![plain_cell()],
        outputs: vec![owned_cell(data)],
        cell_deps: vec![],
        witnesses: vec![no_witness()],
        first_input,
    };
    let code = kvstore::program_entry(&tx, &TYPE_SCRIPT_HASH, &unique_id);
    assert_eq!(code, 0x14);
}

#[test]
fn create_rejects_wrong_unique_id() {
    let first_input = b"serialized first input".to_vec();
    let tx = TxView {
        inputs: vec![plain_cell()],
        outputs: vec![owned_cell(vec![0u8; 32])],
        cell_deps: vec![],
        witnesses: vec![no_witness()],
        first_input,
    };
    let wrong_id = [0u8; 32];
    let code = kvstore::program_entry(&tx, &TYPE_SCRIPT_HASH, &wrong_id);
    assert_eq!(code, 0x12);
}

#[test]
fn destroy_success() {
    let tx = TxView {
        inputs: vec![owned_cell(vec![0u8; 32])],
        outputs: vec![plain_cell()],
        cell_deps: vec![],
        witnesses: vec![no_witness()],
        first_input: b"serialized first input".to_vec(),
    };
    let code = kvstore::program_entry(&tx, &TYPE_SCRIPT_HASH, &[0u8; 32]);
    assert_eq!(code, 0);
}

#[test]
fn update_success() {
    let mut generator = filled_generator();
    let old_root = generator.root();
    // Remove
    generator.append_change(vec![10u8; 4], None);
    // Update
    generator.append_change(vec![15u8; 4], Some(vec![15; 20]));
    // Append
    generator.append_change(vec![25u8; 4], Some(vec![25; 20]));
    let smt_update = generator.commit_changes().expect("smt commit");
    let new_root = generator.root();

    let witness = WitnessInfo {
        lock: None,
        output_type: Some(encode_smt_update(&smt_update)),
    };
    let tx = TxView {
        inputs: vec![owned_cell(old_root.to_vec())],
        outputs: vec![owned_cell(new_root.to_vec())],
        cell_deps: vec![],
        witnesses: vec![witness],
        first_input: b"serialized first input".to_vec(),
    };
    let code = kvstore::program_entry(&tx, &TYPE_SCRIPT_HASH, &[0u8; 32]);
    assert_eq!(code, 0);
}

#[test]
fn update_rejects_missing_witness() {
    let mut generator = filled_generator();
    let old_root = generator.root();
    generator.append_change(vec![25u8; 4], Some(vec![25; 20]));
    let _ = generator.commit_changes().expect("smt commit");
    let new_root = generator.root();

    let tx = TxView {
        inputs: vec![owned_cell(old_root.to_vec())],
        outputs: vec![owned_cell(new_root.to_vec())],
        cell_deps: vec![],
        witnesses: vec![no_witness()],
        first_input: b"serialized first input".to_vec(),
    };
    let code = kvstore::program_entry(&tx, &TYPE_SCRIPT_HASH, &[0u8; 32]);
    assert_eq!(code, 0x18);
}

#[test]
fn update_rejects_garbled_witness() {
    let mut generator = filled_generator();
    let old_root = generator.root();
    generator.append_change(vec![25u8; 4], Some(vec![25; 20]));
    let _ = generator.commit_changes().expect("smt commit");
    let new_root = generator.root();

    let witness = WitnessInfo { lock: None, output_type: Some(vec![1, 2, 3]) };
    let tx = TxView {
        inputs: vec![owned_cell(old_root.to_vec())],
        outputs: vec![owned_cell(new_root.to_vec())],
        cell_deps: vec![],
        witnesses: vec![witness],
        first_input: b"serialized first input".to_vec(),
    };
    let code = kvstore::program_entry(&tx, &TYPE_SCRIPT_HASH, &[0u8; 32]);
    assert_eq!(code, 0x04);
}

#[test]
fn update_rejects_mismatched_declared_root() {
    let mut generator = filled_generator();
    let old_root = generator.root();
    generator.append_change(vec![25u8; 4], Some(vec![25; 20]));
    let smt_update = generator.commit_changes().expect("smt commit");

    // The committed record's data disagrees with the declared new root.
    let other_data = vec![0xeeu8; 32];
    let witness = WitnessInfo {
        lock: None,
        output_type: Some(encode_smt_update(&smt_update)),
    };
    let tx = TxView {
        inputs: vec![owned_cell(old_root.to_vec())],
        outputs: vec![owned_cell(other_data)],
        cell_deps: vec![],
        witnesses: vec![witness],
        first_input: b"serialized first input".to_vec(),
    };
    let code = kvstore::program_entry(&tx, &TYPE_SCRIPT_HASH, &[0u8; 32]);
    assert_eq!(code, 0x17);
}

#[test]
fn update_rejects_wrong_old_root() {
    let mut generator = filled_generator();
    generator.append_change(vec![25u8; 4], Some(vec![25; 20]));
    let smt_update = generator.commit_changes().expect("smt commit");
    let new_root = generator.root();

    let wrong_old = vec![0x11u8; 32];
    let witness = WitnessInfo {
        lock: None,
        output_type: Some(encode_smt_update(&smt_update)),
    };
    let tx = TxView {
        inputs: vec![owned_cell(wrong_old)],
        outputs: vec![owned_cell(new_root.to_vec())],
        cell_deps: vec![],
        witnesses: vec![witness],
        first_input: b"serialized first input".to_vec(),
    };
    let code = kvstore::program_entry(&tx, &TYPE_SCRIPT_HASH, &[0u8; 32]);
    // MismatchedOldRoot, offset into the proof-verification range.
    assert_eq!(code, 0x63);
}

#[test]
fn shape_with_two_inputs_is_rejected() {
    let mut generator = filled_generator();
    let root = generator.root();
    generator.append_change(vec![25u8; 4], Some(vec![25; 20]));
    let smt_update = generator.commit_changes().expect("smt commit");
    let new_root = generator.root();

    // Two spent records and one created record owned by the validator: no
    // supported operation, whatever the data says.
    let witness = WitnessInfo {
        lock: None,
        output_type: Some(encode_smt_update(&smt_update)),
    };
    let tx = TxView {
        inputs: vec![owned_cell(root.to_vec()), owned_cell(root.to_vec())],
        outputs: vec![owned_cell(new_root.to_vec())],
        cell_deps: vec![],
        witnesses: vec![witness, no_witness()],
        first_input: b"serialized first input".to_vec(),
    };
    let code = kvstore::program_entry(&tx, &TYPE_SCRIPT_HASH, &[0u8; 32]);
    assert_eq!(code, 0x10);
}

#[test]
fn demo_check_data_success() {
    let generator = filled_generator();
    let root = generator.root();
    let data_with_proof = {
        let keys = (0..5u8).map(|x| vec![x * 5; 4]).collect();
        generator
            .data_with_proof(keys)
            .expect("generate data with proof")
    };

    // The identity of the record that carries the trusted root.
    let dep_type_hash = TYPE_SCRIPT_HASH;
    let smt_cell_dep = CellInfo {
        lock_hash: [0u8; 32],
        type_hash: Some(dep_type_hash),
        data: root.to_vec(),
    };
    let input = CellInfo {
        lock_hash: LOCK_SCRIPT_HASH,
        type_hash: None,
        data: vec![],
    };
    let witness = WitnessInfo {
        lock: Some(encode_data_with_proof(&data_with_proof)),
        output_type: None,
    };
    let tx = TxView {
        inputs: vec![input],
        outputs: vec![plain_cell()],
        cell_deps: vec![smt_cell_dep],
        witnesses: vec![witness],
        first_input: b"serialized first input".to_vec(),
    };
    let code = check_data::program_entry(&tx, &LOCK_SCRIPT_HASH, &dep_type_hash);
    assert_eq!(code, 0);
}

#[test]
fn check_data_rejects_wrong_root_source() {
    let generator = filled_generator();
    let data_with_proof = generator
        .data_with_proof(vec![vec![0u8; 4]])
        .expect("generate data with proof");

    let dep_type_hash = TYPE_SCRIPT_HASH;
    // The referenced record carries a different root.
    let smt_cell_dep = CellInfo {
        lock_hash: [0u8; 32],
        type_hash: Some(dep_type_hash),
        data: vec![0x22u8; 32],
    };
    let input = CellInfo {
        lock_hash: LOCK_SCRIPT_HASH,
        type_hash: None,
        data: vec![],
    };
    let witness = WitnessInfo {
        lock: Some(encode_data_with_proof(&data_with_proof)),
        output_type: None,
    };
    let tx = TxView {
        inputs: vec![input],
        outputs: vec![plain_cell()],
        cell_deps: vec![smt_cell_dep],
        witnesses: vec![witness],
        first_input: b"serialized first input".to_vec(),
    };
    let code = check_data::program_entry(&tx, &LOCK_SCRIPT_HASH, &dep_type_hash);
    // MismatchedRoot, offset into the proof-verification range.
    assert_eq!(code, 0x62);
}

#[test]
fn check_data_rejects_duplicate_root_sources() {
    let dep_type_hash = TYPE_SCRIPT_HASH;
    let dep = CellInfo {
        lock_hash: [0u8; 32],
        type_hash: Some(dep_type_hash),
        data: vec![0u8; 32],
    };
    let dep_twin = CellInfo {
        lock_hash: [0u8; 32],
        type_hash: Some(dep_type_hash),
        data: vec![0u8; 32],
    };
    let tx = TxView {
        inputs: vec![],
        outputs: vec![],
        cell_deps: vec![dep, dep_twin],
        witnesses: vec![],
        first_input: vec![],
    };
    let code = check_data::program_entry(&tx, &LOCK_SCRIPT_HASH, &dep_type_hash);
    assert_eq!(code, 0x11);
}

#[test]
fn check_data_rejects_missing_witness() {
    let generator = filled_generator();
    let root = generator.root();
    let dep_type_hash = TYPE_SCRIPT_HASH;
    let smt_cell_dep = CellInfo {
        lock_hash: [0u8; 32],
        type_hash: Some(dep_type_hash),
        data: root.to_vec(),
    };
    let input = CellInfo {
        lock_hash: LOCK_SCRIPT_HASH,
        type_hash: None,
        data: vec![],
    };
    let tx = TxView {
        inputs: vec![input],
        outputs: vec![],
        cell_deps: vec![smt_cell_dep],
        witnesses: vec![no_witness()],
        first_input: vec![],
    };
    let code = check_data::program_entry(&tx, &LOCK_SCRIPT_HASH, &dep_type_hash);
    assert_eq!(code, 0x14);
}
