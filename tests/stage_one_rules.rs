use prover_core::stage_one::{
    effective_placement, ensure_transferred, extract_public_inputs, log_domain_size,
    AllocationPlacement, BoundaryConstraintLocation, ProverContextConfig, StageOneError,
};

#[test]
fn trace_length_must_be_power_of_two() {
    assert_eq!(log_domain_size(1 << 22), Ok(22));
    assert_eq!(log_domain_size(1), Ok(0));
    assert_eq!(log_domain_size(0), Err(StageOneError::TraceLengthNotPowerOfTwo));
    assert_eq!(log_domain_size(12), Err(StageOneError::TraceLengthNotPowerOfTwo));
    assert_eq!(log_domain_size(1usize << 63), Ok(63));
}

#[test]
fn transfer_must_complete_first() {
    assert_eq!(ensure_transferred(false), Err(StageOneError::TransferNotReady));
    assert_eq!(ensure_transferred(true), Ok(()));
}

#[test]
fn public_inputs_from_two_rows() {
    let first = vec![10, 11, 12];
    let one_before_last = vec![20, 21, 22];
    let inputs = vec![
        (BoundaryConstraintLocation::OneBeforeLastRow, 2),
        (BoundaryConstraintLocation::FirstRow, 1),
        (BoundaryConstraintLocation::FirstRow, 0),
    ];
    assert_eq!(extract_public_inputs(&inputs, &first, &one_before_last), Ok(vec![11, 10, 22]));
    let last = vec![(BoundaryConstraintLocation::FirstRow, 0), (BoundaryConstraintLocation::LastRow, 0)];
    assert_eq!(
        extract_public_inputs(&last, &first, &one_before_last),
        Err(StageOneError::UnsupportedBoundaryLocation)
    );
    assert_eq!(extract_public_inputs(&vec![], &first, &one_before_last), Ok(vec![]));
}

#[test]
fn reversed_placement_swaps_ends() {
    assert_eq!(effective_placement(true, AllocationPlacement::Top), AllocationPlacement::Bottom);
    assert_eq!(effective_placement(true, AllocationPlacement::Bottom), AllocationPlacement::Top);
    assert_eq!(effective_placement(true, AllocationPlacement::BestFit), AllocationPlacement::BestFit);
    assert_eq!(effective_placement(false, AllocationPlacement::Top), AllocationPlacement::Top);
}

#[test]
fn default_context_config() {
    let c = ProverContextConfig::default();
    assert_eq!(c.allocation_block_log_size, 22);
    assert_eq!(c.device_slack_blocks_count, 64);
    assert_eq!(c.host_allocator_blocks_count, 128);
    assert_eq!(c.powers_of_w_coarse_log_count, 12);
}
