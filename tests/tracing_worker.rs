use prover_core::chunker::{create_setup_and_teardown_chunker, LazyInitAndTeardown, WORDS_PER_PAGE};
use prover_core::circuit_type::{CircuitType, DelegationCircuitType, MainCircuitType};
use prover_core::worker::{
    check_termination, delegation_swap, drain_delegation, trace_cycles_for_chunk,
    DelegationChunkCounts, DelegationTracingKind, NonTermination, RamTracingState, SkipSet,
};

const MAIN: MainCircuitType = MainCircuitType::RiscVCycles;

fn no_skips() -> SkipSet {
    SkipSet { entries: vec![] }
}

#[test]
fn touched_ram_over_three_chunks() {
    // domain size 4: three cycles per chunk; 2 * 3 distinct words touched in 3 chunks
    let mut state = RamTracingState::new(4);
    let skips = no_skips();
    let mut messages = Vec::new();
    for touched in [3usize, 6, 6] {
        if let Some(index) = state.record_chunk(touched, MAIN, &skips) {
            messages.push((index, false));
        }
    }
    assert_eq!(messages, vec![(0, false)]);
    assert_eq!(state.chunks_traced_count, 3);
    let pages = vec![6u32];
    let ram: Vec<u32> = (0..WORDS_PER_PAGE as u32).map(|w| w * 10).collect();
    let mut ts = vec![0u64; WORDS_PER_PAGE];
    for w in [1usize, 2, 5, 8, 9, 100] {
        ts[w] = w as u64 + 1000;
    }
    let mut chunker = create_setup_and_teardown_chunker(&pages, &ram, &ts, state.cycles_per_chunk);
    assert_eq!(chunker.get_chunks_count(), 2);
    let plan = state.setup_and_teardown_plan(chunker.get_chunks_count(), MAIN, &skips);
    assert_eq!(plan, vec![(1, true), (2, true)]);
    let mut populated = Vec::new();
    for (index, populate) in plan {
        assert!(populate);
        let mut out = Vec::new();
        chunker.populate_next_chunk(&mut out);
        populated.push((index, out));
    }
    assert_eq!(populated.len(), 2);
    assert_eq!(messages.len() + populated.len(), state.chunks_traced_count);
    assert_eq!(
        populated[0].1,
        vec![
            LazyInitAndTeardown { address: 4, teardown_value: 10, teardown_timestamp: 1001 },
            LazyInitAndTeardown { address: 8, teardown_value: 20, teardown_timestamp: 1002 },
            LazyInitAndTeardown { address: 20, teardown_value: 50, teardown_timestamp: 1005 },
        ]
    );
    assert_eq!(populated[1].1[2], LazyInitAndTeardown { address: 400, teardown_value: 1000, teardown_timestamp: 1100 });
}

#[test]
fn chunker_pads_the_first_chunk() {
    let pages = vec![0u32, 2];
    let ram = vec![7u32; 2 * WORDS_PER_PAGE];
    let mut ts = vec![0u64; 2 * WORDS_PER_PAGE];
    ts[WORDS_PER_PAGE] = 5;
    ts[WORDS_PER_PAGE + 3] = 6;
    let mut chunker = create_setup_and_teardown_chunker(&pages, &ram, &ts, 3);
    assert_eq!(chunker.get_chunks_count(), 1);
    let mut out = Vec::new();
    chunker.populate_next_chunk(&mut out);
    let pad = LazyInitAndTeardown { address: 0, teardown_value: 0, teardown_timestamp: 0 };
    assert_eq!(
        out,
        vec![
            pad,
            LazyInitAndTeardown { address: 4096, teardown_value: 7, teardown_timestamp: 5 },
            LazyInitAndTeardown { address: 4108, teardown_value: 7, teardown_timestamp: 6 },
        ]
    );
}

#[test]
fn chunker_skip_moves_on() {
    let pages = vec![4u32];
    let ram = vec![1u32; WORDS_PER_PAGE];
    let mut ts = vec![0u64; WORDS_PER_PAGE];
    for w in 0..4 {
        ts[w] = 9;
    }
    let mut chunker = create_setup_and_teardown_chunker(&pages, &ram, &ts, 2);
    assert_eq!(chunker.get_chunks_count(), 2);
    chunker.skip_next_chunk();
    let mut out = Vec::new();
    chunker.populate_next_chunk(&mut out);
    assert_eq!(out[0].address, 8);
    assert_eq!(out[1].address, 12);
}

#[test]
fn skipped_chunks_emit_nothing() {
    let skips = SkipSet { entries: vec![(CircuitType::Main(MAIN), 0), (CircuitType::Main(MAIN), 2)] };
    let mut state = RamTracingState::new(4);
    assert_eq!(state.record_chunk(0, MAIN, &skips), None);
    assert_eq!(state.next_chunk_index_with_no_setup_and_teardown, 1);
    assert_eq!(state.record_chunk(0, MAIN, &skips), Some(1));
    assert_eq!(state.record_chunk(3, MAIN, &skips), None);
    assert_eq!(state.record_chunk(3, MAIN, &skips), None);
    let plan = state.setup_and_teardown_plan(1, MAIN, &skips);
    assert_eq!(plan, vec![(3, true)]);
    let skips2 = SkipSet { entries: vec![(CircuitType::Main(MAIN), 3)] };
    assert_eq!(state.setup_and_teardown_plan(1, MAIN, &skips2), vec![(3, false)]);
    assert!(!trace_cycles_for_chunk(2, 2, 0, MAIN, &skips));
    assert!(trace_cycles_for_chunk(4, 2, 0, MAIN, &skips));
    assert!(!trace_cycles_for_chunk(3, 2, 0, MAIN, &skips));
}

#[test]
fn delegation_swaps() {
    let blake = DelegationCircuitType::Blake2WithCompression;
    let skips = SkipSet { entries: vec![(CircuitType::Delegation(blake), 1)] };
    let mut counts = DelegationChunkCounts::new();
    let first = delegation_swap(&mut counts, blake, None, &skips);
    assert_eq!(first.emit_witness, None);
    assert_eq!(first.next, DelegationTracingKind::Witness);
    let second = delegation_swap(&mut counts, blake, Some(first.next), &skips);
    assert_eq!(second.emit_witness, Some(0));
    assert_eq!(second.next, DelegationTracingKind::Counter);
    let third = delegation_swap(&mut counts, blake, Some(second.next), &skips);
    assert_eq!(third.emit_witness, None);
    assert_eq!(third.next, DelegationTracingKind::Witness);
    assert_eq!(counts.get(blake), 2);
    assert_eq!(counts.get(DelegationCircuitType::BigIntWithControl), 0);
    assert_eq!(drain_delegation(&mut counts, blake, third.next, false), Some(2));
    assert_eq!(counts.get(blake), 3);
    assert_eq!(drain_delegation(&mut counts, blake, DelegationTracingKind::Witness, true), Some(3));
    assert_eq!(counts.get(blake), 3);
    assert_eq!(drain_delegation(&mut counts, blake, DelegationTracingKind::Counter, false), None);
    assert_eq!(counts.get(blake), 4);
}

#[test]
fn non_termination_is_reported() {
    assert_eq!(check_termination(false), Err(NonTermination));
    assert_eq!(check_termination(true), Ok(()));
}
