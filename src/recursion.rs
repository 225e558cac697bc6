//! Recursion strategy planner: which machine runs at each aggregation layer
//! and when the planner moves from one layer to the next.

use vstd::prelude::*;
use crate::chain::{chain_of, compute_chain_encoding, digests_view};

verus! {

/// Machine configurations that a layer can run on.
#[derive(Clone, Copy, Debug, PartialEq, Eq, Structural)]
pub enum Machine {
    Standard,
    Reduced,
    ReducedLog23,
    ReducedFinal,
}

/// Register state captured at the end of a run.
#[derive(Clone, Copy, Debug, PartialEq, Eq, Structural)]
pub struct FinalRegisterValue {
    pub value: u32,
    pub last_access_timestamp: u64,
}

/// Observable scalars after a layer has run.
#[derive(Clone, Debug)]
pub struct ProofMetadata {
    pub register_values: Vec<FinalRegisterValue>,
    pub basic_proof_count: usize,
    pub reduced_proof_count: usize,
    pub reduced_log_23_proof_count: usize,
    /// Pairs of delegation type and number of proofs of that type.
    pub delegation_proof_count: Vec<(u32, u32)>,
    pub prev_end_params_output: Option<[u32; 8]>,
}

/// Some delegation type has more than `bound` proofs.
pub open spec fn some_delegation_count_exceeds(counts: Seq<(u32, u32)>, bound: int) -> bool {
    exists|i: int| 0 <= i < counts.len() && counts[i].1 > bound
}

/// How recursion layers are stacked.
#[derive(Clone, Copy, Debug, PartialEq, Eq, Structural)]
pub enum RecursionStrategy {
    /// First layer until at most 2 reduced and 1 delegation proof per type,
    /// then exactly one run of the log-23 layer.
    UseReducedLog23Machine,
    /// First layer until at most 5 reduced and 2 delegation proofs per type,
    /// then at least two runs of the log-23 layer.
    UseReducedLog23MachineMultiple,
    /// No first layer: log-23 layer runs only.
    UseReducedLog23MachineOnly,
}

/// Largest number of reduced proofs that the first layer may hand over.
pub open spec fn first_layer_reduced_bound(s: RecursionStrategy) -> int {
    match s {
        RecursionStrategy::UseReducedLog23Machine => 2,
        RecursionStrategy::UseReducedLog23MachineMultiple => 5,
        RecursionStrategy::UseReducedLog23MachineOnly => 0,
    }
}

/// Largest number of delegation proofs per type that the first layer may hand over.
pub open spec fn first_layer_delegation_bound(s: RecursionStrategy) -> int {
    match s {
        RecursionStrategy::UseReducedLog23Machine => 1,
        RecursionStrategy::UseReducedLog23MachineMultiple => 2,
        RecursionStrategy::UseReducedLog23MachineOnly => 0,
    }
}

/// Whether some entry of the list has a count above `bound`.
fn any_count_above(counts: &Vec<(u32, u32)>, bound: u32) -> (r: bool)
    ensures
        r == some_delegation_count_exceeds(counts@, bound as int),
{
    let mut i: usize = 0;
    while i < counts.len()
        invariant
            0 <= i <= counts.len(),
            forall|j: int| 0 <= j < i ==> counts@[j].1 <= bound,
        decreases counts.len() - i,
    {
        if counts[i].1 > bound {
            return true;
        }
        i += 1;
    }
    false
}

impl RecursionStrategy {
    pub fn skip_first_layer(&self) -> (r: bool)
        ensures
            r == (*self == RecursionStrategy::UseReducedLog23MachineOnly),
    {
        match self {
            RecursionStrategy::UseReducedLog23MachineOnly => true,
            _ => false,
        }
    }

    /// True when the first layer's output is small enough to hand over to
    /// the second layer.
    pub fn switch_to_second_recursion_layer(&self, proof_metadata: &ProofMetadata) -> (r: bool)
        ensures
            *self == RecursionStrategy::UseReducedLog23MachineOnly ==> r,
            *self != RecursionStrategy::UseReducedLog23MachineOnly ==> (r <==> (
                proof_metadata.reduced_proof_count <= first_layer_reduced_bound(*self)
                && !some_delegation_count_exceeds(
                    proof_metadata.delegation_proof_count@,
                    first_layer_delegation_bound(*self),
                ))),
    {
        let continue_first_layer = match self {
            RecursionStrategy::UseReducedLog23Machine => {
                proof_metadata.reduced_proof_count > 2 || any_count_above(
                    &proof_metadata.delegation_proof_count,
                    1,
                )
            },
            RecursionStrategy::UseReducedLog23MachineMultiple => {
                proof_metadata.reduced_proof_count > 5 || any_count_above(
                    &proof_metadata.delegation_proof_count,
                    2,
                )
            },
            RecursionStrategy::UseReducedLog23MachineOnly => false,
        };
        !continue_first_layer
    }

    /// True when the second layer is done. The single-run strategy must be
    /// asked only at the top level with exactly one log-23 proof.
    pub fn finish_second_recursion_layer(
        &self,
        proof_metadata: &ProofMetadata,
        proof_level: usize,
    ) -> (r: bool)
        requires
            *self == RecursionStrategy::UseReducedLog23Machine ==> proof_level == 0
                && proof_metadata.reduced_log_23_proof_count == 1,
        ensures
            *self == RecursionStrategy::UseReducedLog23Machine ==> r,
            *self != RecursionStrategy::UseReducedLog23Machine ==> (r <==> (proof_level == 0
                && proof_metadata.reduced_log_23_proof_count <= 1
                && !some_delegation_count_exceeds(proof_metadata.delegation_proof_count@, 1))),
    {
        match self {
            RecursionStrategy::UseReducedLog23Machine => true,
            _ => {
                proof_level == 0 && proof_metadata.reduced_log_23_proof_count <= 1
                    && !any_count_above(&proof_metadata.delegation_proof_count, 1)
            },
        }
    }

    pub fn get_second_layer_machine(&self) -> (r: Machine)
        ensures
            r == Machine::ReducedLog23,
    {
        Machine::ReducedLog23
    }

    /// The padded image of the program that the second layer runs: the
    /// universal verifier, whose bytes the caller supplies.
    pub fn get_second_layer_binary(&self, universal_verifier_image: &Vec<u8>) -> (r: Vec<u32>)
        ensures
            r@ == padded_words(universal_verifier_image@),
    {
        get_padded_binary(universal_verifier_image)
    }

    pub fn use_final_machine(&self) -> (r: bool)
        ensures
            !r,
    {
        false
    }
}

/// Word `i` of a byte image read in little-endian order, missing bytes read as zero.
pub open spec fn padded_word_at(bs: Seq<u8>, i: int) -> u32 {
    let b = |k: int| if 4 * i + k < bs.len() { bs[4 * i + k] as int } else { 0int };
    (b(0) + 0x100 * b(1) + 0x10000 * b(2) + 0x1000000 * b(3)) as u32
}

/// A byte image as little-endian words, the last word padded with zeros.
pub open spec fn padded_words(bs: Seq<u8>) -> Seq<u32> {
    Seq::new(((bs.len() + 3) / 4) as nat, |i: int| padded_word_at(bs, i))
}

/// A program image as 32-bit little-endian instruction words, padded to word alignment.
pub fn get_padded_binary(binary: &Vec<u8>) -> (r: Vec<u32>)
    ensures
        r@ == padded_words(binary@),
{
    let n = binary.len();
    let words = n / 4 + if n % 4 == 0 { 0 } else { 1 };
    let mut r: Vec<u32> = Vec::new();
    let mut i: usize = 0;
    while i < words
        invariant
            n == binary@.len(),
            words == (n + 3) / 4,
            0 <= i <= words,
            r@.len() == i,
            forall|j: int| 0 <= j < i ==> r@[j] == padded_word_at(binary@, j),
        decreases words - i,
    {
        let mut w: u32 = 0;
        let mut k: usize = 0;
        let mut scale: u32 = 1;
        while k < 4
            invariant
                n == binary@.len(),
                words == (n + 3) / 4,
                i < words,
                0 <= k <= 4,
                scale == if k == 0 { 1u32 } else if k == 1 { 0x100u32 } else if k == 2 { 0x10000u32 } else if k == 3 { 0x1000000u32 } else { 0u32 },
                w as int == {
                    let b = |m: int| if 4 * i + m < n { binary@[4 * i + m] as int } else { 0int };
                    if k == 0 { 0 } else if k == 1 { b(0) } else if k == 2 { b(0) + 0x100 * b(1) }
                    else if k == 3 { b(0) + 0x100 * b(1) + 0x10000 * b(2) }
                    else { b(0) + 0x100 * b(1) + 0x10000 * b(2) + 0x1000000 * b(3) }
                },
            decreases 4 - k,
        {
            assert(4 * i <= n) by (nonlinear_arith)
                requires
                    i < words,
                    words == (n + 3) / 4,
            ;
            if k < n - 4 * i {
                let b = binary[4 * i + k] as u32;
                w = w + scale * b;
            }
            scale = if k < 3 { scale * 0x100 } else { 0 };
            k += 1;
        }
        r.push(w);
        i += 1;
    }
    assert(r@ =~= padded_words(binary@));
    r
}

/// Which program a layer of the recursion chain runs.
#[derive(Clone, Copy, Debug, PartialEq, Eq, Structural)]
pub enum ProgramImage {
    /// The application binary being proven.
    BaseLayer,
    /// The universal verifier program.
    UniversalVerifier,
    /// The verifier of base-layer proofs (non-universal mode).
    BaseLayerVerifier,
    /// The verifier of recursion-layer proofs (non-universal mode).
    RecursionLayerVerifier,
}

/// End parameters of the fixed verifier programs, as their verification keys give them.
#[derive(Clone, Copy, Debug)]
pub struct VerifierKeyParams {
    pub universal_circuit: [u32; 8],
    pub universal_circuit_log_23: [u32; 8],
    pub recursion_layer: [u32; 8],
    pub recursion_log_23_layer: [u32; 8],
}

/// Strategies that the given verifier mode can run.
pub open spec fn strategy_supported(s: RecursionStrategy, universal_verifier: bool) -> bool {
    universal_verifier || s == RecursionStrategy::UseReducedLog23Machine
}

/// Whether the verifier mode can run the strategy.
pub fn is_strategy_supported(s: RecursionStrategy, universal_verifier: bool) -> (r: bool)
    ensures
        r == strategy_supported(s, universal_verifier),
{
    universal_verifier || s == RecursionStrategy::UseReducedLog23Machine
}

/// The entries that are chain-encoded into the aux values, from cached keys.
pub open spec fn cached_chain_entries(
    base_params: Seq<u32>,
    s: RecursionStrategy,
    universal_verifier: bool,
    keys: VerifierKeyParams,
) -> Seq<Seq<u32>> {
    let zero = Seq::new(8, |i: int| 0u32);
    if universal_verifier {
        match s {
            RecursionStrategy::UseReducedLog23Machine => seq![zero, base_params, keys.universal_circuit@],
            RecursionStrategy::UseReducedLog23MachineMultiple => seq![
                zero,
                base_params,
                keys.universal_circuit@,
                keys.universal_circuit_log_23@,
            ],
            RecursionStrategy::UseReducedLog23MachineOnly => seq![zero, base_params, keys.universal_circuit_log_23@],
        }
    } else {
        seq![zero, base_params, keys.recursion_layer@, keys.recursion_log_23_layer@]
    }
}

/// The end parameters that the last layer is identified by, from cached keys.
pub open spec fn cached_end_params(universal_verifier: bool, keys: VerifierKeyParams) -> Seq<u32> {
    if universal_verifier {
        keys.universal_circuit_log_23@
    } else {
        keys.recursion_log_23_layer@
    }
}

/// `(end_params, aux_values)` of a base program for a strategy, from the
/// cached verifier keys and the end parameters of the base program.
pub fn generate_constants_for_binary(
    base_params: [u32; 8],
    recursion_mode: RecursionStrategy,
    universal_verifier: bool,
    keys: &VerifierKeyParams,
) -> (r: ([u32; 8], [u32; 8]))
    requires
        strategy_supported(recursion_mode, universal_verifier),
    ensures
        r.0@ == cached_end_params(universal_verifier, *keys),
        r.1@ == chain_of(cached_chain_entries(base_params@, recursion_mode, universal_verifier, *keys)),
{
    let zero = [0u32; 8];
    let mut entries: Vec<[u32; 8]> = Vec::new();
    entries.push(zero);
    entries.push(base_params);
    if universal_verifier {
        match recursion_mode {
            RecursionStrategy::UseReducedLog23Machine => {
                entries.push(keys.universal_circuit);
            },
            RecursionStrategy::UseReducedLog23MachineMultiple => {
                entries.push(keys.universal_circuit);
                entries.push(keys.universal_circuit_log_23);
            },
            RecursionStrategy::UseReducedLog23MachineOnly => {
                entries.push(keys.universal_circuit_log_23);
            },
        }
    } else {
        entries.push(keys.recursion_layer);
        entries.push(keys.recursion_log_23_layer);
    }
    assert(zero@ =~= Seq::new(8, |i: int| 0u32));
    assert(digests_view(entries@) =~= cached_chain_entries(
        base_params@,
        recursion_mode,
        universal_verifier,
        *keys,
    ));
    let aux_values = compute_chain_encoding(&entries);
    let end_params = if universal_verifier {
        keys.universal_circuit_log_23
    } else {
        keys.recursion_log_23_layer
    };
    (end_params, aux_values)
}

/// The programs and machines whose end parameters are recomputed from
/// scratch: the chain in order, then the last layer.
pub open spec fn recompute_plan_spec(s: RecursionStrategy, universal_verifier: bool) -> (
    Seq<(ProgramImage, Machine)>,
    (ProgramImage, Machine),
) {
    if universal_verifier {
        match s {
            RecursionStrategy::UseReducedLog23Machine => (
                seq![
                    (ProgramImage::BaseLayer, Machine::Standard),
                    (ProgramImage::UniversalVerifier, Machine::Reduced),
                ],
                (ProgramImage::UniversalVerifier, Machine::ReducedLog23),
            ),
            RecursionStrategy::UseReducedLog23MachineMultiple => (
                seq![
                    (ProgramImage::BaseLayer, Machine::Standard),
                    (ProgramImage::UniversalVerifier, Machine::Reduced),
                    (ProgramImage::UniversalVerifier, Machine::ReducedLog23),
                ],
                (ProgramImage::UniversalVerifier, Machine::ReducedLog23),
            ),
            RecursionStrategy::UseReducedLog23MachineOnly => (
                seq![
                    (ProgramImage::BaseLayer, Machine::Standard),
                    (ProgramImage::UniversalVerifier, Machine::ReducedLog23),
                ],
                (ProgramImage::UniversalVerifier, Machine::ReducedLog23),
            ),
        }
    } else {
        (
            seq![
                (ProgramImage::BaseLayer, Machine::Standard),
                (ProgramImage::BaseLayerVerifier, Machine::Reduced),
                (ProgramImage::RecursionLayerVerifier, Machine::Reduced),
            ],
            (ProgramImage::RecursionLayerVerifier, Machine::ReducedLog23),
        )
    }
}

/// Which (program, machine) pairs must have their end parameters computed
/// when the constants are recomputed rather than read from cached keys.
pub fn recompute_plan(recursion_mode: RecursionStrategy, universal_verifier: bool) -> (r: (
    Vec<(ProgramImage, Machine)>,
    (ProgramImage, Machine),
))
    requires
        strategy_supported(recursion_mode, universal_verifier),
    ensures
        r.0@ == recompute_plan_spec(recursion_mode, universal_verifier).0,
        r.1 == recompute_plan_spec(recursion_mode, universal_verifier).1,
{
    let mut chain: Vec<(ProgramImage, Machine)> = Vec::new();
    chain.push((ProgramImage::BaseLayer, Machine::Standard));
    if universal_verifier {
        match recursion_mode {
            RecursionStrategy::UseReducedLog23Machine => {
                chain.push((ProgramImage::UniversalVerifier, Machine::Reduced));
            },
            RecursionStrategy::UseReducedLog23MachineMultiple => {
                chain.push((ProgramImage::UniversalVerifier, Machine::Reduced));
                chain.push((ProgramImage::UniversalVerifier, Machine::ReducedLog23));
            },
            RecursionStrategy::UseReducedLog23MachineOnly => {
                chain.push((ProgramImage::UniversalVerifier, Machine::ReducedLog23));
            },
        }
        assert(chain@ =~= recompute_plan_spec(recursion_mode, universal_verifier).0);
        (chain, (ProgramImage::UniversalVerifier, Machine::ReducedLog23))
    } else {
        chain.push((ProgramImage::BaseLayerVerifier, Machine::Reduced));
        chain.push((ProgramImage::RecursionLayerVerifier, Machine::Reduced));
        assert(chain@ =~= recompute_plan_spec(recursion_mode, universal_verifier).0);
        (chain, (ProgramImage::RecursionLayerVerifier, Machine::ReducedLog23))
    }
}

/// Chain encoding of `[0; 8]` followed by the end parameters of each program of the chain.
pub fn compute_commitment_for_chain_of_programs(chain_params: &Vec<[u32; 8]>) -> (r: [u32; 8])
    ensures
        r@ == chain_of(seq![Seq::new(8, |i: int| 0u32)] + digests_view(chain_params@)),
{
    let mut entries: Vec<[u32; 8]> = Vec::new();
    entries.push([0u32; 8]);
    let mut i: usize = 0;
    while i < chain_params.len()
        invariant
            0 <= i <= chain_params@.len(),
            entries@.len() == i + 1,
            entries@[0]@ == Seq::new(8, |i: int| 0u32),
            forall|j: int| 0 <= j < i ==> entries@[j + 1] == chain_params@[j],
        decreases chain_params@.len() - i,
    {
        entries.push(chain_params[i]);
        i += 1;
    }
    assert(digests_view(entries@) =~= seq![Seq::new(8, |i: int| 0u32)] + digests_view(
        chain_params@,
    ));
    compute_chain_encoding(&entries)
}

/// `(end_params, aux_values)` from recomputed end parameters: those of the
/// last layer, and the chain commitment of those of the chain.
pub fn generate_params_and_register_values(
    chain_params: &Vec<[u32; 8]>,
    last_params: [u32; 8],
) -> (r: ([u32; 8], [u32; 8]))
    ensures
        r.0 == last_params,
        r.1@ == chain_of(seq![Seq::new(8, |i: int| 0u32)] + digests_view(chain_params@)),
{
    let aux = compute_commitment_for_chain_of_programs(chain_params);
    (last_params, aux)
}

/// For fixed inputs the constants are fixed: two results that both meet the
/// contract of `generate_constants_for_binary` on the same inputs are equal.
pub proof fn law_constants_are_deterministic(
    base_params: [u32; 8],
    recursion_mode: RecursionStrategy,
    universal_verifier: bool,
    keys: VerifierKeyParams,
    first: ([u32; 8], [u32; 8]),
    second: ([u32; 8], [u32; 8]),
)
    requires
        strategy_supported(recursion_mode, universal_verifier),
        first.0@ == cached_end_params(universal_verifier, keys),
        first.1@ == chain_of(cached_chain_entries(base_params@, recursion_mode, universal_verifier, keys)),
        second.0@ == cached_end_params(universal_verifier, keys),
        second.1@ == chain_of(cached_chain_entries(base_params@, recursion_mode, universal_verifier, keys)),
    ensures
        first == second,
{
    assert(first.0@ =~= second.0@);
    assert(first.1@ =~= second.1@);
    vstd::array::axiom_array_ext_equal(first.0, second.0);
    vstd::array::axiom_array_ext_equal(first.1, second.1);
}

} // verus!
