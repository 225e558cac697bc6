//! Host-side rules of the stage-1 witness commitment and of the prover
//! context: trace-length checks, transfer readiness, allocation placement
//! and the extraction of public inputs from the committed witness rows.

use vstd::prelude::*;
use vstd::arithmetic::power2::{pow2, lemma_pow2_pos, lemma_pow2_unfold, lemma2_to64};

verus! {

/// Failures of the stage-1 commitment.
#[derive(Clone, Copy, Debug, PartialEq, Eq, Structural)]
pub enum StageOneError {
    /// The host-to-device transfer has not completed.
    TransferNotReady,
    /// The trace length is not a power of two.
    TraceLengthNotPowerOfTwo,
    /// A public input sits on the last row.
    UnsupportedBoundaryLocation,
}

/// `log2(trace_len)` for a power-of-two trace length.
pub fn log_domain_size(trace_len: usize) -> (r: Result<u32, StageOneError>)
    ensures
        match r {
            Ok(k) => pow2(k as nat) == trace_len,
            Err(e) => e == StageOneError::TraceLengthNotPowerOfTwo && forall|k: nat| #[trigger] pow2(k) != trace_len,
        },
{
    if trace_len == 0 {
        proof {
            assert forall|k: nat| #[trigger] pow2(k) != 0 by {
                lemma_pow2_positive(k);
            }
        }
        return Err(StageOneError::TraceLengthNotPowerOfTwo);
    }
    let mut n = trace_len;
    let mut k: u32 = 0;
    proof {
        lemma2_to64();
    }
    while n % 2 == 0
        invariant
            n >= 1,
            k <= 64,
            n * pow2(k as nat) == trace_len,
            trace_len <= usize::MAX,
        decreases n,
    {
        proof {
            lemma_pow2_positive(k as nat);
            lemma_pow2_unfold(k as nat + 1);
            assert(pow2(k as nat + 1) == 2 * pow2(k as nat));
            if k >= 64 {
                lemma_pow2_at_least(k as nat);
                assert(n * pow2(k as nat) >= pow2(k as nat)) by (nonlinear_arith)
                    requires n >= 1, pow2(k as nat) >= 1;
                assert(false);
            }
            assert((n / 2) * pow2(k as nat + 1) == n * pow2(k as nat)) by (nonlinear_arith)
                requires
                    n % 2 == 0,
                    pow2(k as nat + 1) == 2 * pow2(k as nat),
            ;
        }
        n = n / 2;
        k = k + 1;
    }
    if n == 1 {
        assert(pow2(k as nat) == trace_len) by (nonlinear_arith)
            requires n == 1, n * pow2(k as nat) == trace_len;
        Ok(k)
    } else {
        proof {
            assert forall|j: nat| #[trigger] pow2(j) != trace_len by {
                if pow2(j) == trace_len {
                    lemma_odd_factor(n as nat, k as nat, j);
                }
            }
        }
        Err(StageOneError::TraceLengthNotPowerOfTwo)
    }
}

proof fn lemma_pow2_positive(k: nat)
    ensures
        pow2(k) >= 1,
{
    lemma_pow2_pos(k);
}

proof fn lemma_pow2_at_least(k: nat)
    requires
        k >= 64,
    ensures
        pow2(k) > usize::MAX,
    decreases k,
{
    if k == 64 {
        lemma2_to64();
    } else {
        lemma_pow2_at_least((k - 1) as nat);
        lemma_pow2_unfold(k);
    }
}

/// An odd factor above 1 times a power of two is no power of two.
proof fn lemma_odd_factor(n: nat, k: nat, j: nat)
    requires
        n > 1,
        n % 2 == 1,
    ensures
        pow2(j) != n * pow2(k),
    decreases k,
{
    lemma_pow2_positive(k);
    lemma_pow2_positive(j);
    if pow2(j) == n * pow2(k) {
        if k == 0 {
            lemma2_to64();
            if j == 0 {
                assert(n * 1 == n);
            } else {
                lemma_pow2_unfold(j);
                assert(n == 2 * pow2((j - 1) as nat));
            }
        } else {
            lemma_pow2_unfold(k);
            if j == 0 {
                lemma2_to64();
                assert(n * pow2(k) >= 2) by (nonlinear_arith)
                    requires n > 1, pow2(k) >= 1;
            } else {
                lemma_pow2_unfold(j);
                assert(pow2((j - 1) as nat) == n * pow2((k - 1) as nat)) by (nonlinear_arith)
                    requires
                        2 * pow2((j - 1) as nat) == n * (2 * pow2((k - 1) as nat)),
                ;
                lemma_odd_factor(n, (k - 1) as nat, (j - 1) as nat);
            }
        }
    }
}

/// Kernels may only be launched on data whose transfer has completed.
pub fn ensure_transferred(transferred: bool) -> (r: Result<(), StageOneError>)
    ensures
        r == if transferred {
            Ok::<(), StageOneError>(())
        } else {
            Err(StageOneError::TransferNotReady)
        },
{
    if transferred {
        Ok(())
    } else {
        Err(StageOneError::TransferNotReady)
    }
}

/// Row of the trace a public input is read from.
#[derive(Clone, Copy, Debug, PartialEq, Eq, Structural)]
pub enum BoundaryConstraintLocation {
    FirstRow,
    OneBeforeLastRow,
    LastRow,
}

/// Some public input sits on the last row.
pub open spec fn has_last_row_input(p: Seq<(BoundaryConstraintLocation, usize)>) -> bool {
    exists|i: int| 0 <= i < p.len() && p[i].0 == BoundaryConstraintLocation::LastRow
}

/// The values of the inputs at `loc`, in order, read from `row`.
pub open spec fn inputs_at(
    p: Seq<(BoundaryConstraintLocation, usize)>,
    loc: BoundaryConstraintLocation,
    row: Seq<u32>,
) -> Seq<u32>
    decreases p.len(),
{
    if p.len() == 0 {
        Seq::empty()
    } else {
        let r = inputs_at(p.drop_last(), loc, row);
        if p.last().0 == loc {
            r.push(row[p.last().1 as int])
        } else {
            r
        }
    }
}

/// Public inputs from the first witness row and the row before the last:
/// those of the first row in order, then those of the other row.
pub fn extract_public_inputs(
    public_inputs: &Vec<(BoundaryConstraintLocation, usize)>,
    witness_first_row: &Vec<u32>,
    witness_one_before_last_row: &Vec<u32>,
) -> (r: Result<Vec<u32>, StageOneError>)
    requires
        forall|i: int|
            0 <= i < public_inputs@.len() ==> (#[trigger] public_inputs@[i]).1 < witness_first_row@.len()
                && public_inputs@[i].1 < witness_one_before_last_row@.len(),
    ensures
        has_last_row_input(public_inputs@) ==> r == Err::<Vec<u32>, StageOneError>(
            StageOneError::UnsupportedBoundaryLocation,
        ),
        !has_last_row_input(public_inputs@) ==> (r matches Ok(v) && v@ == inputs_at(
            public_inputs@,
            BoundaryConstraintLocation::FirstRow,
            witness_first_row@,
        ) + inputs_at(
            public_inputs@,
            BoundaryConstraintLocation::OneBeforeLastRow,
            witness_one_before_last_row@,
        )),
{
    let mut first: Vec<u32> = Vec::new();
    let mut second: Vec<u32> = Vec::new();
    let mut i: usize = 0;
    assert(public_inputs@.take(0) =~= Seq::<(BoundaryConstraintLocation, usize)>::empty());
    while i < public_inputs.len()
        invariant
            0 <= i <= public_inputs@.len(),
            forall|k: int|
                0 <= k < public_inputs@.len() ==> (#[trigger] public_inputs@[k]).1 < witness_first_row@.len()
                    && public_inputs@[k].1 < witness_one_before_last_row@.len(),
            !has_last_row_input(public_inputs@.take(i as int)),
            first@ == inputs_at(public_inputs@.take(i as int), BoundaryConstraintLocation::FirstRow, witness_first_row@),
            second@ == inputs_at(
                public_inputs@.take(i as int),
                BoundaryConstraintLocation::OneBeforeLastRow,
                witness_one_before_last_row@,
            ),
        decreases public_inputs@.len() - i,
    {
        let (location, column) = public_inputs[i];
        let ghost pre = public_inputs@.take(i as int);
        assert(public_inputs@.take(i as int + 1).drop_last() =~= pre);
        assert(public_inputs@.take(i as int + 1).last() == public_inputs@[i as int]);
        match location {
            BoundaryConstraintLocation::FirstRow => {
                first.push(witness_first_row[column]);
            },
            BoundaryConstraintLocation::OneBeforeLastRow => {
                second.push(witness_one_before_last_row[column]);
            },
            BoundaryConstraintLocation::LastRow => {
                assert(public_inputs@[i as int].0 == BoundaryConstraintLocation::LastRow);
                return Err(StageOneError::UnsupportedBoundaryLocation);
            },
        }
        proof {
            let t = public_inputs@.take(i as int + 1);
            if has_last_row_input(t) {
                let idx = choose|idx: int| 0 <= idx < t.len() && t[idx].0 == BoundaryConstraintLocation::LastRow;
                if idx < i {
                    assert(pre[idx] == t[idx]);
                }
            }
        }
        i += 1;
    }
    assert(public_inputs@.take(i as int) =~= public_inputs@);
    let mut out = first;
    let mut j: usize = 0;
    let ghost head = out@;
    while j < second.len()
        invariant
            0 <= j <= second@.len(),
            out@ == head + second@.take(j as int),
        decreases second@.len() - j,
    {
        out.push(second[j]);
        assert(out@ =~= head + second@.take(j as int + 1));
        j += 1;
    }
    assert(second@.take(j as int) =~= second@);
    Ok(out)
}

/// Where in device memory an allocation is placed.
#[derive(Clone, Copy, Debug, PartialEq, Eq, Structural)]
pub enum AllocationPlacement {
    BestFit,
    Bottom,
    Top,
}

/// The placement actually used: top and bottom swap when the context
/// reverses placement; best fit stays.
pub fn effective_placement(reversed: bool, placement: AllocationPlacement) -> (r: AllocationPlacement)
    ensures
        !reversed ==> r == placement,
        reversed ==> r == match placement {
            AllocationPlacement::BestFit => AllocationPlacement::BestFit,
            AllocationPlacement::Bottom => AllocationPlacement::Top,
            AllocationPlacement::Top => AllocationPlacement::Bottom,
        },
{
    if reversed {
        match placement {
            AllocationPlacement::BestFit => AllocationPlacement::BestFit,
            AllocationPlacement::Bottom => AllocationPlacement::Top,
            AllocationPlacement::Top => AllocationPlacement::Bottom,
        }
    } else {
        placement
    }
}

/// Properties of the device that the prover tunes its kernels to.
#[derive(Clone, Copy, Debug, PartialEq, Eq, Structural)]
pub struct DeviceProperties {
    pub l2_cache_size_bytes: usize,
    pub sm_count: usize,
}

/// Sizes of the prover context's pools.
#[derive(Clone, Copy, Debug, PartialEq, Eq, Structural)]
pub struct ProverContextConfig {
    pub powers_of_w_coarse_log_count: u32,
    pub allocation_block_log_size: u32,
    pub device_slack_blocks_count: usize,
    pub host_allocator_blocks_count: usize,
}

impl Default for ProverContextConfig {
    /// 4 MB blocks, 256 MB of device slack, a 512 MB host pool.
    fn default() -> (r: Self)
        ensures
            r.powers_of_w_coarse_log_count == 12,
            r.allocation_block_log_size == 22,
            r.device_slack_blocks_count == 64,
            r.host_allocator_blocks_count == 128,
    {
        ProverContextConfig {
            powers_of_w_coarse_log_count: 12,
            allocation_block_log_size: 22,
            device_slack_blocks_count: 64,
            host_allocator_blocks_count: 128,
        }
    }
}

} // verus!
