use blake2::Digest;
use prover_core::chain::compute_chain_encoding;
use prover_core::circuit_type::{CircuitType, DelegationCircuitType, MainCircuitType};
use prover_core::oracle::{
    generate_oracle_data_for_universal_verifier, generate_oracle_data_from_metadata_and_proof_list,
    split_timestamp, ProofList, VerifierCircuitsIdentifiers,
};
use prover_core::recursion::{
    generate_constants_for_binary, generate_params_and_register_values, get_padded_binary,
    recompute_plan, FinalRegisterValue, Machine, ProgramImage, ProofMetadata, RecursionStrategy,
    VerifierKeyParams,
};

fn blake2s_pair(a: [u32; 8], b: [u32; 8]) -> [u32; 8] {
    let mut bytes = Vec::new();
    for w in a.iter().chain(b.iter()) {
        bytes.extend_from_slice(&w.to_le_bytes());
    }
    let digest = blake2::Blake2s256::digest(&bytes);
    let mut out = [0u32; 8];
    for i in 0..8 {
        out[i] = u32::from_le_bytes([digest[4 * i], digest[4 * i + 1], digest[4 * i + 2], digest[4 * i + 3]]);
    }
    out
}

fn keys() -> VerifierKeyParams {
    VerifierKeyParams {
        universal_circuit: [1, 2, 3, 4, 5, 6, 7, 8],
        universal_circuit_log_23: [9, 10, 11, 12, 13, 14, 15, 16],
        recursion_layer: [17, 18, 19, 20, 21, 22, 23, 24],
        recursion_log_23_layer: [25, 26, 27, 28, 29, 30, 31, 32],
    }
}

fn metadata(basic: usize, reduced: usize, log23: usize, delegations: Vec<(u32, u32)>) -> ProofMetadata {
    let register_values = (0..32u64)
        .map(|i| FinalRegisterValue { value: i as u32 + 100, last_access_timestamp: (i << 19) + 3 })
        .collect();
    ProofMetadata {
        register_values,
        basic_proof_count: basic,
        reduced_proof_count: reduced,
        reduced_log_23_proof_count: log23,
        delegation_proof_count: delegations,
        prev_end_params_output: None,
    }
}

#[test]
fn constants_for_single_log23_run_universal_cached() {
    let base = [7u32, 7, 7, 7, 8, 8, 8, 8];
    let k = keys();
    let (end_params, aux_values) =
        generate_constants_for_binary(base, RecursionStrategy::UseReducedLog23Machine, true, &k);
    assert_eq!(end_params, k.universal_circuit_log_23);
    let expected = blake2s_pair(blake2s_pair([0u32; 8], base), k.universal_circuit);
    assert_eq!(aux_values, expected);
}

#[test]
fn constants_for_other_strategies() {
    let base = [1u32; 8];
    let k = keys();
    let (_, multiple) =
        generate_constants_for_binary(base, RecursionStrategy::UseReducedLog23MachineMultiple, true, &k);
    let expected = blake2s_pair(
        blake2s_pair(blake2s_pair([0u32; 8], base), k.universal_circuit),
        k.universal_circuit_log_23,
    );
    assert_eq!(multiple, expected);
    let (_, only) =
        generate_constants_for_binary(base, RecursionStrategy::UseReducedLog23MachineOnly, true, &k);
    assert_eq!(only, blake2s_pair(blake2s_pair([0u32; 8], base), k.universal_circuit_log_23));
    let (end, non_universal) =
        generate_constants_for_binary(base, RecursionStrategy::UseReducedLog23Machine, false, &k);
    assert_eq!(end, k.recursion_log_23_layer);
    let expected = blake2s_pair(
        blake2s_pair(blake2s_pair([0u32; 8], base), k.recursion_layer),
        k.recursion_log_23_layer,
    );
    assert_eq!(non_universal, expected);
}

#[test]
fn constants_are_the_same_across_runs() {
    let base = [3u32; 8];
    let first = generate_constants_for_binary(base, RecursionStrategy::UseReducedLog23MachineMultiple, true, &keys());
    let second = generate_constants_for_binary(base, RecursionStrategy::UseReducedLog23MachineMultiple, true, &keys());
    assert_eq!(first, second);
}

#[test]
fn chain_encoding_hashes_each_entry() {
    let a = [0u32; 8];
    let b = [5u32; 8];
    assert_eq!(compute_chain_encoding(&vec![a]), a);
    let two = compute_chain_encoding(&vec![a, b]);
    assert_ne!(two, b);
    assert_eq!(two, blake2s_pair(a, b));
    let other = compute_chain_encoding(&vec![a, [6u32; 8]]);
    assert_ne!(two, other);
}

#[test]
fn recompute_plans() {
    let (chain, last) = recompute_plan(RecursionStrategy::UseReducedLog23MachineMultiple, true);
    assert_eq!(
        chain,
        vec![
            (ProgramImage::BaseLayer, Machine::Standard),
            (ProgramImage::UniversalVerifier, Machine::Reduced),
            (ProgramImage::UniversalVerifier, Machine::ReducedLog23),
        ]
    );
    assert_eq!(last, (ProgramImage::UniversalVerifier, Machine::ReducedLog23));
    let (chain, last) = recompute_plan(RecursionStrategy::UseReducedLog23Machine, false);
    assert_eq!(chain.len(), 3);
    assert_eq!(last, (ProgramImage::RecursionLayerVerifier, Machine::ReducedLog23));
    let (end, aux) = generate_params_and_register_values(&vec![[1u32; 8], [2u32; 8]], [4u32; 8]);
    assert_eq!(end, [4u32; 8]);
    assert_eq!(aux, blake2s_pair(blake2s_pair([0u32; 8], [1u32; 8]), [2u32; 8]));
}

#[test]
fn padded_binary_words() {
    assert_eq!(get_padded_binary(&vec![1, 2, 3, 4, 5]), vec![0x04030201, 0x00000005]);
    assert_eq!(get_padded_binary(&vec![]), Vec::<u32>::new());
    assert_eq!(get_padded_binary(&vec![0xff, 0, 0, 0x80]), vec![0x800000ff]);
    let s = RecursionStrategy::UseReducedLog23Machine;
    assert_eq!(s.get_second_layer_binary(&vec![9, 0, 0]), vec![9]);
}

#[test]
fn strategy_predicates() {
    let m = metadata(0, 2, 0, vec![(1991, 1)]);
    assert!(RecursionStrategy::UseReducedLog23Machine.switch_to_second_recursion_layer(&m));
    let m3 = metadata(0, 3, 0, vec![(1991, 1)]);
    assert!(!RecursionStrategy::UseReducedLog23Machine.switch_to_second_recursion_layer(&m3));
    assert!(RecursionStrategy::UseReducedLog23MachineMultiple.switch_to_second_recursion_layer(&m3));
    let md = metadata(0, 5, 0, vec![(1991, 3)]);
    assert!(!RecursionStrategy::UseReducedLog23MachineMultiple.switch_to_second_recursion_layer(&md));
    assert!(RecursionStrategy::UseReducedLog23MachineOnly.switch_to_second_recursion_layer(&md));
    assert!(RecursionStrategy::UseReducedLog23MachineOnly.skip_first_layer());
    assert!(!RecursionStrategy::UseReducedLog23Machine.skip_first_layer());
    assert_eq!(RecursionStrategy::UseReducedLog23Machine.get_second_layer_machine(), Machine::ReducedLog23);
    assert!(!RecursionStrategy::UseReducedLog23MachineOnly.use_final_machine());
}

#[test]
fn finish_second_layer() {
    let one = metadata(0, 0, 1, vec![(1991, 1)]);
    assert!(RecursionStrategy::UseReducedLog23Machine.finish_second_recursion_layer(&one, 0));
    assert!(RecursionStrategy::UseReducedLog23MachineMultiple.finish_second_recursion_layer(&one, 0));
    assert!(!RecursionStrategy::UseReducedLog23MachineMultiple.finish_second_recursion_layer(&one, 1));
    let two = metadata(0, 0, 2, vec![]);
    assert!(!RecursionStrategy::UseReducedLog23MachineOnly.finish_second_recursion_layer(&two, 0));
    let deleg = metadata(0, 0, 1, vec![(1991, 2)]);
    assert!(!RecursionStrategy::UseReducedLog23MachineOnly.finish_second_recursion_layer(&deleg, 0));
}

#[test]
fn oracle_for_single_log23_proof() {
    let m = metadata(0, 0, 1, vec![]);
    let proofs = ProofList {
        basic_proofs: vec![],
        reduced_proofs: vec![],
        reduced_log_23_proofs: vec![vec![70, 71, 72]],
        delegation_proofs: vec![],
    };
    let oracle = generate_oracle_data_for_universal_verifier(&m, &proofs);
    assert_eq!(oracle[0], 5);
    for i in 0..32usize {
        assert_eq!(oracle[1 + 3 * i], i as u32 + 100);
        assert_eq!(oracle[2 + 3 * i], 3);
        assert_eq!(oracle[3 + 3 * i], i as u32);
    }
    assert_eq!(&oracle[97..], &[1, 70, 71, 72, 0]);
}

#[test]
fn oracle_for_basic_proofs_with_delegations() {
    let mut m = metadata(2, 0, 0, vec![(1994, 1)]);
    m.prev_end_params_output = Some([1, 2, 3, 4, 5, 6, 7, 8]);
    let proofs = ProofList {
        basic_proofs: vec![vec![10], vec![11, 12], vec![99]],
        reduced_proofs: vec![],
        reduced_log_23_proofs: vec![],
        delegation_proofs: vec![(1994, vec![vec![40, 41]])],
    };
    let body = generate_oracle_data_from_metadata_and_proof_list(&m, &proofs);
    assert_eq!(&body[96..], &[2, 10, 11, 12, 0, 1, 40, 41, 1, 2, 3, 4, 5, 6, 7, 8]);
    let oracle = generate_oracle_data_for_universal_verifier(&m, &proofs);
    assert_eq!(oracle[0], 0);
    assert_eq!(&oracle[1..], &body[..]);
    let r = metadata(0, 1, 0, vec![]);
    let rp = ProofList {
        basic_proofs: vec![],
        reduced_proofs: vec![vec![3]],
        reduced_log_23_proofs: vec![],
        delegation_proofs: vec![],
    };
    assert_eq!(generate_oracle_data_for_universal_verifier(&r, &rp)[0], 1);
}

#[test]
fn timestamp_split_and_identifiers() {
    assert_eq!(split_timestamp((5u64 << 19) + 7), (7, 5));
    assert_eq!(split_timestamp(0x7ffff), (0x7ffff, 0));
    assert_eq!(VerifierCircuitsIdentifiers::CombinedMultipleRecursionLayers.as_word(), 6);
    assert_eq!(VerifierCircuitsIdentifiers::RiscV.as_word(), 3);
}

#[test]
fn circuit_types() {
    assert!(!MainCircuitType::FinalReducedRiscVMachine.needs_delegation_challenge());
    assert!(MainCircuitType::RiscVCycles.needs_delegation_challenge());
    let c = CircuitType::from_delegation_type(1991);
    assert_eq!(c.as_delegation(), Some(DelegationCircuitType::Blake2WithCompression));
    assert_eq!(c.as_main(), None);
    assert_eq!(DelegationCircuitType::BigIntWithControl.get_delegation_type_id(), 1994);
    assert_eq!(CircuitType::Main(MainCircuitType::RiscVCycles).as_main(), Some(MainCircuitType::RiscVCycles));
}
