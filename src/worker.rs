//! Decisions of the tracing workers. The simulator runs outside the
//! library; after each chunk, and on each delegation request, the worker
//! hands the observed values to these functions, which say what to emit
//! and what to do next.

use vstd::prelude::*;
use crate::circuit_type::{CircuitType, DelegationCircuitType, MainCircuitType};

verus! {

/// Chunks, by circuit and index, for which nothing is to be emitted.
#[derive(Clone, Debug)]
pub struct SkipSet {
    pub entries: Vec<(CircuitType, usize)>,
}

pub open spec fn skipped(s: Seq<(CircuitType, usize)>, c: CircuitType, index: usize) -> bool {
    exists|i: int| 0 <= i < s.len() && s[i] == (c, index)
}

impl SkipSet {
    pub fn contains(&self, circuit_type: CircuitType, index: usize) -> (r: bool)
        ensures
            r == skipped(self.entries@, circuit_type, index),
    {
        let mut i: usize = 0;
        while i < self.entries.len()
            invariant
                0 <= i <= self.entries@.len(),
                forall|k: int| 0 <= k < i ==> self.entries@[k] != (circuit_type, index),
            decreases self.entries@.len() - i,
        {
            let (c, idx) = self.entries[i];
            if c == circuit_type && idx == index {
                assert(self.entries@[i as int] == (circuit_type, index));
                return true;
            }
            i += 1;
        }
        false
    }
}

/// Setup-and-teardown chunks needed for `touched` RAM cells.
pub open spec fn chunks_needed(touched: int, cycles_per_chunk: int) -> int {
    (touched + cycles_per_chunk - 1) / cycles_per_chunk
}

/// Progress of a worker that traces touched RAM.
#[derive(Clone, Copy, Debug, PartialEq, Eq, Structural)]
pub struct RamTracingState {
    pub cycles_per_chunk: usize,
    pub chunks_traced_count: usize,
    /// Chunks below this index have been found to need no setup and teardown.
    pub next_chunk_index_with_no_setup_and_teardown: usize,
}

/// The state after one more chunk ran, with `touched` RAM cells touched so far.
pub open spec fn ram_step(s: RamTracingState, touched: int) -> RamTracingState {
    let chunks = s.chunks_traced_count + 1;
    let next = s.next_chunk_index_with_no_setup_and_teardown;
    RamTracingState {
        cycles_per_chunk: s.cycles_per_chunk,
        chunks_traced_count: chunks as usize,
        next_chunk_index_with_no_setup_and_teardown: if chunks_needed(touched, s.cycles_per_chunk as int) < chunks - next {
            (next + 1) as usize
        } else {
            next
        },
    }
}

/// The state after chunks with the given running touched-cell counts.
pub open spec fn ram_run(cycles_per_chunk: usize, touched: Seq<int>) -> RamTracingState
    decreases touched.len(),
{
    if touched.len() == 0 {
        RamTracingState {
            cycles_per_chunk,
            chunks_traced_count: 0,
            next_chunk_index_with_no_setup_and_teardown: 0,
        }
    } else {
        ram_step(ram_run(cycles_per_chunk, touched.drop_last()), touched.last())
    }
}

impl RamTracingState {
    pub open spec fn wf(self) -> bool {
        &&& self.cycles_per_chunk >= 1
        &&& self.next_chunk_index_with_no_setup_and_teardown <= self.chunks_traced_count
    }

    /// The state before the first chunk, for a circuit of the given domain size.
    pub fn new(domain_size: usize) -> (r: RamTracingState)
        requires
            domain_size >= 2,
        ensures
            r.wf(),
            r == ram_run((domain_size - 1) as usize, Seq::empty()),
    {
        RamTracingState {
            cycles_per_chunk: domain_size - 1,
            chunks_traced_count: 0,
            next_chunk_index_with_no_setup_and_teardown: 0,
        }
    }

    /// Records a finished chunk, with `touched_ram_cells_count` cells touched
    /// so far. When the oldest chunk not yet settled turns out to need no
    /// setup and teardown, returns its index if a message is to be emitted
    /// for it (it is not skipped).
    pub fn record_chunk(
        &mut self,
        touched_ram_cells_count: usize,
        circuit_type: MainCircuitType,
        skip_set: &SkipSet,
    ) -> (r: Option<usize>)
        requires
            old(self).wf(),
            old(self).chunks_traced_count < usize::MAX,
        ensures
            final(self).wf(),
            *final(self) == ram_step(*old(self), touched_ram_cells_count as int),
            r == if final(self).next_chunk_index_with_no_setup_and_teardown
                != old(self).next_chunk_index_with_no_setup_and_teardown && !skipped(
                skip_set.entries@,
                CircuitType::Main(circuit_type),
                old(self).next_chunk_index_with_no_setup_and_teardown,
            ) {
                Some(old(self).next_chunk_index_with_no_setup_and_teardown)
            } else {
                None::<usize>
            },
    {
        self.chunks_traced_count = self.chunks_traced_count + 1;
        let cpc = self.cycles_per_chunk;
        let q = touched_ram_cells_count / cpc;
        let rem = touched_ram_cells_count % cpc;
        proof {
            vstd::arithmetic::div_mod::lemma_fundamental_div_mod(touched_ram_cells_count as int, cpc as int);
        }
        assert(rem != 0 ==> q < touched_ram_cells_count) by (nonlinear_arith)
            requires
                touched_ram_cells_count == cpc * q + rem,
                cpc >= 1,
                0 <= rem < cpc,
        ;
        let needed = if rem == 0 {
            q
        } else {
            q + 1
        };
        proof {
            lemma_ceil_div(touched_ram_cells_count as int, cpc as int);
        }
        let diff = self.chunks_traced_count - self.next_chunk_index_with_no_setup_and_teardown;
        if needed < diff {
            let index = self.next_chunk_index_with_no_setup_and_teardown;
            self.next_chunk_index_with_no_setup_and_teardown = index + 1;
            if skip_set.contains(CircuitType::Main(circuit_type), index) {
                None
            } else {
                Some(index)
            }
        } else {
            None
        }
    }

    /// After the simulation halted: for each chunk from the first unsettled
    /// one on, whether to populate a setup-and-teardown chunk for it (true)
    /// or to skip it in the chunker (false, it is in the skip set).
    pub fn setup_and_teardown_plan(
        &self,
        setup_and_teardown_chunks_count: usize,
        circuit_type: MainCircuitType,
        skip_set: &SkipSet,
    ) -> (r: Vec<(usize, bool)>)
        requires
            self.wf(),
            self.chunks_traced_count == setup_and_teardown_chunks_count
                + self.next_chunk_index_with_no_setup_and_teardown,
        ensures
            r@.len() == setup_and_teardown_chunks_count,
            forall|k: int|
                0 <= k < r@.len() ==> (#[trigger] r@[k]).0 == self.next_chunk_index_with_no_setup_and_teardown
                    + k && r@[k].1 == !skipped(skip_set.entries@, CircuitType::Main(circuit_type), r@[k].0),
    {
        let mut plan: Vec<(usize, bool)> = Vec::new();
        let mut index = self.next_chunk_index_with_no_setup_and_teardown;
        while index < self.chunks_traced_count
            invariant
                self.wf(),
                self.next_chunk_index_with_no_setup_and_teardown <= index <= self.chunks_traced_count,
                plan@.len() == index - self.next_chunk_index_with_no_setup_and_teardown,
                forall|k: int|
                    0 <= k < plan@.len() ==> (#[trigger] plan@[k]).0 == self.next_chunk_index_with_no_setup_and_teardown
                        + k && plan@[k].1 == !skipped(skip_set.entries@, CircuitType::Main(circuit_type), plan@[k].0),
            decreases self.chunks_traced_count - index,
        {
            let populate = !skip_set.contains(CircuitType::Main(circuit_type), index);
            plan.push((index, populate));
            index += 1;
        }
        plan
    }
}

proof fn lemma_ceil_div(t: int, c: int)
    requires
        t >= 0,
        c >= 1,
    ensures
        t / c + (if t % c == 0 { 0int } else { 1int }) == chunks_needed(t, c),
{
    vstd::arithmetic::div_mod::lemma_fundamental_div_mod(t, c);
    vstd::arithmetic::div_mod::lemma_fundamental_div_mod(t + c - 1, c);
    let q = t / c;
    let r = t % c;
    let q2 = (t + c - 1) / c;
    let r2 = (t + c - 1) % c;
    assert(0 <= r < c && 0 <= r2 < c);
    if r == 0 {
        assert(q2 == q) by (nonlinear_arith)
            requires
                t == c * q + r,
                t + c - 1 == c * q2 + r2,
                r == 0,
                0 <= r2 < c,
                c >= 1,
        ;
    } else {
        assert(q2 == q + 1) by (nonlinear_arith)
            requires
                t == c * q + r,
                t + c - 1 == c * q2 + r2,
                0 < r < c,
                0 <= r2 < c,
                c >= 1,
        ;
    }
}

/// Running touched-cell counts of a real run: they start at zero, never
/// shrink, and grow by at most one cell per cycle of a chunk.
pub open spec fn plausible_touch_counts(cycles_per_chunk: int, touched: Seq<int>) -> bool {
    &&& forall|k: int| 0 <= k < touched.len() ==> 0 <= #[trigger] touched[k]
    &&& touched.len() > 0 ==> touched[0] <= cycles_per_chunk
    &&& forall|k: int|
        0 < k < touched.len() ==> touched[k - 1] <= #[trigger] touched[k] <= touched[k - 1]
            + cycles_per_chunk
}

proof fn lemma_needed_step(t: int, t2: int, c: int)
    requires
        c >= 1,
        0 <= t <= t2 <= t + c,
    ensures
        chunks_needed(t, c) <= chunks_needed(t2, c) <= chunks_needed(t, c) + 1,
{
    vstd::arithmetic::div_mod::lemma_div_is_ordered(t + c - 1, t2 + c - 1, c);
    vstd::arithmetic::div_mod::lemma_div_is_ordered(t2 + c - 1, t + c - 1 + c, c);
    vstd::arithmetic::div_mod::lemma_div_plus_one(t + c - 1, c);
}

/// Every traced chunk gets exactly one setup-and-teardown message when
/// nothing is skipped: the chunks found to need none, plus the populated
/// chunks that the chunker makes from the touched cells, are as many as the
/// chunks traced.
#[verifier::rlimit(40)]
pub proof fn law_setup_and_teardown_messages_match_chunks(cycles_per_chunk: usize, touched: Seq<int>)
    requires
        cycles_per_chunk >= 1,
        touched.len() < usize::MAX,
        plausible_touch_counts(cycles_per_chunk as int, touched),
    ensures
        ram_run(cycles_per_chunk, touched).cycles_per_chunk == cycles_per_chunk,
        ram_run(cycles_per_chunk, touched).chunks_traced_count == touched.len(),
        touched.len() > 0 ==> ram_run(cycles_per_chunk, touched).next_chunk_index_with_no_setup_and_teardown
            + chunks_needed(touched.last(), cycles_per_chunk as int) == touched.len(),
    decreases touched.len(),
{
    let c = cycles_per_chunk as int;
    if touched.len() > 0 {
        let pre = touched.drop_last();
        let n = touched.len();
        assert forall|k: int| 0 < k < pre.len() implies pre[k - 1] <= #[trigger] pre[k] <= pre[k - 1] + c by {
            assert(pre[k] == touched[k] && pre[k - 1] == touched[k - 1]);
        }
        assert forall|k: int| 0 <= k < pre.len() implies 0 <= #[trigger] pre[k] by {
            assert(pre[k] == touched[k]);
        }
        law_setup_and_teardown_messages_match_chunks(cycles_per_chunk, pre);
        let s = ram_run(cycles_per_chunk, pre);
        let t = touched.last();
        assert(touched[touched.len() - 1] == t);
        let prev_touched = if pre.len() == 0 { 0int } else { pre.last() };
        let prev_needed = chunks_needed(prev_touched, c);
        if pre.len() == 0 {
            lemma_needed_step(0, t, c);
            assert(chunks_needed(0, c) == 0) by {
                vstd::arithmetic::div_mod::lemma_basic_div(c - 1, c);
            }
            assert(s.next_chunk_index_with_no_setup_and_teardown == 0);
        } else {
            assert(pre.last() == touched[n - 2]);
            lemma_needed_step(pre.last(), t, c);
        }
        assert(s.chunks_traced_count == n - 1);
        assert(s.next_chunk_index_with_no_setup_and_teardown + prev_needed == n - 1);
        let now_needed = chunks_needed(t, c);
        assert(prev_needed <= now_needed <= prev_needed + 1);
        let chunks = s.chunks_traced_count + 1;
        assert(chunks - s.next_chunk_index_with_no_setup_and_teardown == prev_needed + 1);
        assert(ram_run(cycles_per_chunk, touched) == ram_step(s, t));
        let next = s.next_chunk_index_with_no_setup_and_teardown;
        assert(next + 1 < usize::MAX);
        if now_needed < prev_needed + 1 {
            assert(ram_step(s, t).next_chunk_index_with_no_setup_and_teardown == next + 1);
        } else {
            assert(ram_step(s, t).next_chunk_index_with_no_setup_and_teardown == next);
        }
    }
}

/// Mode B: full per-cycle data is recorded for this chunk (else the chunk is fast-forwarded).
pub fn trace_cycles_for_chunk(
    chunk_index: usize,
    split_count: usize,
    split_index: usize,
    circuit_type: MainCircuitType,
    skip_set: &SkipSet,
) -> (r: bool)
    requires
        split_count > 0,
    ensures
        r == (chunk_index % split_count == split_index && !skipped(
            skip_set.entries@,
            CircuitType::Main(circuit_type),
            chunk_index,
        )),
{
    chunk_index % split_count == split_index && !skip_set.contains(
        CircuitType::Main(circuit_type),
        chunk_index,
    )
}

/// How a delegation chunk is being traced.
#[derive(Clone, Copy, Debug, PartialEq, Eq, Structural)]
pub enum DelegationTracingKind {
    /// Only requests are counted; no witness is kept.
    Counter,
    /// A witness record is filled.
    Witness,
}

/// Number of finished chunks of each delegation circuit.
#[derive(Clone, Copy, Debug, PartialEq, Eq, Structural)]
pub struct DelegationChunkCounts {
    pub big_int_with_control: usize,
    pub blake2_with_compression: usize,
}

impl DelegationChunkCounts {
    pub open spec fn count_of(self, t: DelegationCircuitType) -> usize {
        match t {
            DelegationCircuitType::BigIntWithControl => self.big_int_with_control,
            DelegationCircuitType::Blake2WithCompression => self.blake2_with_compression,
        }
    }

    pub fn new() -> (r: DelegationChunkCounts)
        ensures
            r.count_of(DelegationCircuitType::BigIntWithControl) == 0,
            r.count_of(DelegationCircuitType::Blake2WithCompression) == 0,
    {
        DelegationChunkCounts { big_int_with_control: 0, blake2_with_compression: 0 }
    }

    pub fn get(&self, t: DelegationCircuitType) -> (r: usize)
        ensures
            r == self.count_of(t),
    {
        match t {
            DelegationCircuitType::BigIntWithControl => self.big_int_with_control,
            DelegationCircuitType::Blake2WithCompression => self.blake2_with_compression,
        }
    }

    fn increment(&mut self, t: DelegationCircuitType)
        requires
            old(self).count_of(t) < usize::MAX,
        ensures
            final(self).count_of(t) == old(self).count_of(t) + 1,
            forall|u: DelegationCircuitType| u != t ==> final(self).count_of(u) == old(self).count_of(u),
    {
        match t {
            DelegationCircuitType::BigIntWithControl => {
                self.big_int_with_control = self.big_int_with_control + 1;
            },
            DelegationCircuitType::Blake2WithCompression => {
                self.blake2_with_compression = self.blake2_with_compression + 1;
            },
        }
    }
}

/// What a delegation boundary asks of the worker.
#[derive(Clone, Copy, Debug, PartialEq, Eq, Structural)]
pub struct DelegationSwap {
    /// Emit the finished witness, under this chunk sequence number.
    pub emit_witness: Option<usize>,
    /// How to trace the chunk that starts now.
    pub next: DelegationTracingKind,
}

/// Mode C, at a delegation boundary of `circuit_type`: finishes the
/// previous chunk (its witness, if it had one, is emitted under the current
/// count, and the count moves on) and says how to trace the next chunk: a
/// counter if that chunk is skipped, else a fresh witness.
pub fn delegation_swap(
    counts: &mut DelegationChunkCounts,
    circuit_type: DelegationCircuitType,
    previous: Option<DelegationTracingKind>,
    skip_set: &SkipSet,
) -> (r: DelegationSwap)
    requires
        old(counts).count_of(circuit_type) < usize::MAX,
    ensures
        r.emit_witness == if previous == Some(DelegationTracingKind::Witness) {
            Some(old(counts).count_of(circuit_type))
        } else {
            None::<usize>
        },
        final(counts).count_of(circuit_type) == old(counts).count_of(circuit_type) + if previous is Some {
            1int
        } else {
            0int
        },
        forall|u: DelegationCircuitType|
            u != circuit_type ==> final(counts).count_of(u) == old(counts).count_of(u),
        r.next == if skipped(
            skip_set.entries@,
            CircuitType::Delegation(circuit_type),
            final(counts).count_of(circuit_type),
        ) {
            DelegationTracingKind::Counter
        } else {
            DelegationTracingKind::Witness
        },
{
    let mut emit_witness: Option<usize> = None;
    match previous {
        Some(kind) => {
            if kind == DelegationTracingKind::Witness {
                emit_witness = Some(counts.get(circuit_type));
            }
            counts.increment(circuit_type);
        },
        None => {},
    }
    let current = counts.get(circuit_type);
    let next = if skip_set.contains(CircuitType::Delegation(circuit_type), current) {
        DelegationTracingKind::Counter
    } else {
        DelegationTracingKind::Witness
    };
    DelegationSwap { emit_witness, next }
}

/// Mode C, after the halt: settles a pending chunk. A witness is emitted
/// under the current count, which moves on unless the witness is empty; a
/// counter (which must have counted something) moves the count on.
pub fn drain_delegation(
    counts: &mut DelegationChunkCounts,
    circuit_type: DelegationCircuitType,
    pending: DelegationTracingKind,
    witness_is_empty: bool,
) -> (r: Option<usize>)
    requires
        old(counts).count_of(circuit_type) < usize::MAX,
    ensures
        r == if pending == DelegationTracingKind::Witness {
            Some(old(counts).count_of(circuit_type))
        } else {
            None::<usize>
        },
        final(counts).count_of(circuit_type) == old(counts).count_of(circuit_type) + if pending
            == DelegationTracingKind::Witness && witness_is_empty {
            0int
        } else {
            1int
        },
        forall|u: DelegationCircuitType|
            u != circuit_type ==> final(counts).count_of(u) == old(counts).count_of(u),
{
    match pending {
        DelegationTracingKind::Counter => {
            counts.increment(circuit_type);
            None
        },
        DelegationTracingKind::Witness => {
            let sequence = counts.get(circuit_type);
            if !witness_is_empty {
                counts.increment(circuit_type);
            }
            Some(sequence)
        },
    }
}

/// The run did not halt within the bound on main chunks.
pub fn check_termination(end_reached: bool) -> (r: Result<(), NonTermination>)
    ensures
        r is Ok <==> end_reached,
{
    if end_reached {
        Ok(())
    } else {
        Err(NonTermination)
    }
}

/// The simulator did not halt within the upper bound of main chunks.
#[derive(Clone, Copy, Debug, PartialEq, Eq, Structural)]
pub struct NonTermination;

} // verus!
