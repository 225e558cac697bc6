//! Verifier oracle encoder: proofs and metadata laid out as the word stream
//! that the verifier program reads.

use vstd::prelude::*;
use crate::recursion::{FinalRegisterValue, ProofMetadata};

verus! {

/// Width of the low limb of a split timestamp.
pub const TIMESTAMP_COLUMNS_NUM_BITS: u32 = 19;

/// Delegation CSR of the Blake2 round function with extended control.
pub const BLAKE2_ROUND_FUNCTION_WITH_EXTENDED_CONTROL_ACCESS_ID: u32 = 0x7c7;

/// Delegation CSR of the 256-bit integer operations with control.
pub const U256_OPS_WITH_CONTROL_ACCESS_ID: u32 = 0x7ca;

/// Prefix word for the universal verifier, naming the payload kind.
#[derive(Clone, Copy, Debug, PartialEq, Eq, Structural)]
pub enum VerifierCircuitsIdentifiers {
    BaseLayer,
    RecursionLayer,
    RiscV,
    /// Two recursion-layer proofs combined into one.
    CombinedRecursionLayers,
    RecursionLog23Layer,
    /// Several recursion-layer proofs combined into one; the number follows the prefix.
    CombinedMultipleRecursionLayers,
}

pub open spec fn identifier_word(id: VerifierCircuitsIdentifiers) -> u32 {
    match id {
        VerifierCircuitsIdentifiers::BaseLayer => 0,
        VerifierCircuitsIdentifiers::RecursionLayer => 1,
        VerifierCircuitsIdentifiers::RiscV => 3,
        VerifierCircuitsIdentifiers::CombinedRecursionLayers => 4,
        VerifierCircuitsIdentifiers::RecursionLog23Layer => 5,
        VerifierCircuitsIdentifiers::CombinedMultipleRecursionLayers => 6,
    }
}

impl VerifierCircuitsIdentifiers {
    /// The prefix word of this payload kind.
    pub fn as_word(&self) -> (r: u32)
        ensures
            r == identifier_word(*self),
    {
        match self {
            VerifierCircuitsIdentifiers::BaseLayer => 0,
            VerifierCircuitsIdentifiers::RecursionLayer => 1,
            VerifierCircuitsIdentifiers::RiscV => 3,
            VerifierCircuitsIdentifiers::CombinedRecursionLayers => 4,
            VerifierCircuitsIdentifiers::RecursionLog23Layer => 5,
            VerifierCircuitsIdentifiers::CombinedMultipleRecursionLayers => 6,
        }
    }
}

/// Proofs already flattened for the verifier: each entry is a proof's
/// skeleton followed by each of its queries. Main proofs are flattened with
/// the shuffle applied, delegation proofs without it.
#[derive(Clone, Debug)]
pub struct ProofList {
    pub basic_proofs: Vec<Vec<u32>>,
    pub reduced_proofs: Vec<Vec<u32>>,
    pub reduced_log_23_proofs: Vec<Vec<u32>>,
    /// Pairs of delegation type and its proofs.
    pub delegation_proofs: Vec<(u32, Vec<Vec<u32>>)>,
}

pub open spec fn timestamp_low(ts: u64) -> u32 {
    (ts % 0x80000) as u32
}

pub open spec fn timestamp_high(ts: u64) -> u32 {
    ((ts / 0x80000) % 0x1_0000_0000) as u32
}

/// A timestamp as its low 19 bits and the bits above them.
pub fn split_timestamp(ts: u64) -> (r: (u32, u32))
    ensures
        r.0 == timestamp_low(ts),
        r.1 == timestamp_high(ts),
{
    ((ts % 0x80000) as u32, ((ts / 0x80000) % 0x1_0000_0000) as u32)
}

/// `value, ts_low, ts_high` for each register.
pub open spec fn register_words(regs: Seq<FinalRegisterValue>) -> Seq<u32> {
    Seq::new(
        3 * regs.len(),
        |i: int|
            if i % 3 == 0 {
                regs[i / 3].value
            } else if i % 3 == 1 {
                timestamp_low(regs[i / 3].last_access_timestamp)
            } else {
                timestamp_high(regs[i / 3].last_access_timestamp)
            },
    )
}

/// The flattened proofs one after the other.
pub open spec fn concat_proofs(ps: Seq<Vec<u32>>) -> Seq<u32>
    decreases ps.len(),
{
    if ps.len() == 0 {
        Seq::empty()
    } else {
        concat_proofs(ps.drop_last()) + ps.last()@
    }
}

/// The proofs listed for a delegation type (its first entry), or none.
pub open spec fn delegation_proofs_of(list: Seq<(u32, Vec<Vec<u32>>)>, t: u32) -> Seq<Vec<u32>>
    decreases list.len(),
{
    if list.len() == 0 {
        Seq::empty()
    } else if list[0].0 == t {
        list[0].1@
    } else {
        delegation_proofs_of(list.drop_first(), t)
    }
}

/// For each allowed type in order: the number of its proofs, then the proofs.
pub open spec fn delegation_words(allowed: Seq<u32>, list: Seq<(u32, Vec<Vec<u32>>)>) -> Seq<u32>
    decreases allowed.len(),
{
    if allowed.len() == 0 {
        Seq::empty()
    } else {
        let ps = delegation_proofs_of(list, allowed.last());
        delegation_words(allowed.drop_last(), list) + seq![ps.len() as u32] + concat_proofs(ps)
    }
}

/// Delegation types that the full machine may call, in the order the verifier reads them.
pub open spec fn full_machine_delegations() -> Seq<u32> {
    seq![BLAKE2_ROUND_FUNCTION_WITH_EXTENDED_CONTROL_ACCESS_ID, U256_OPS_WITH_CONTROL_ACCESS_ID]
}

/// Delegation types that the reduced machines may call.
pub open spec fn reduced_machine_delegations() -> Seq<u32> {
    seq![BLAKE2_ROUND_FUNCTION_WITH_EXTENDED_CONTROL_ACCESS_ID]
}

fn full_machine_allowed_delegation_types() -> (r: Vec<u32>)
    ensures
        r@ == full_machine_delegations(),
{
    let r = vec![BLAKE2_ROUND_FUNCTION_WITH_EXTENDED_CONTROL_ACCESS_ID, U256_OPS_WITH_CONTROL_ACCESS_ID];
    assert(r@ =~= full_machine_delegations());
    r
}

fn reduced_machine_allowed_delegation_types() -> (r: Vec<u32>)
    ensures
        r@ == reduced_machine_delegations(),
{
    let r = vec![BLAKE2_ROUND_FUNCTION_WITH_EXTENDED_CONTROL_ACCESS_ID];
    assert(r@ =~= reduced_machine_delegations());
    r
}

/// Number of main proofs in the layer, the first non-zero of basic,
/// reduced and reduced log-23 counts.
pub open spec fn main_proof_count(m: ProofMetadata) -> usize {
    if m.basic_proof_count > 0 {
        m.basic_proof_count
    } else if m.reduced_proof_count > 0 {
        m.reduced_proof_count
    } else {
        m.reduced_log_23_proof_count
    }
}

pub open spec fn main_proofs(m: ProofMetadata, p: ProofList) -> Seq<Vec<u32>> {
    if m.basic_proof_count > 0 {
        p.basic_proofs@
    } else if m.reduced_proof_count > 0 {
        p.reduced_proofs@
    } else {
        p.reduced_log_23_proofs@
    }
}

pub open spec fn allowed_delegations(m: ProofMetadata) -> Seq<u32> {
    if m.basic_proof_count > 0 {
        full_machine_delegations()
    } else {
        reduced_machine_delegations()
    }
}

/// What a metadata record and proof list must satisfy to be encoded.
pub open spec fn oracle_input_ok(m: ProofMetadata, p: ProofList) -> bool {
    &&& m.register_values@.len() == 32
    &&& main_proof_count(m) > 0
    &&& m.basic_proof_count > 0 ==> m.reduced_proof_count == 0
    &&& main_proof_count(m) <= u32::MAX
    &&& main_proof_count(m) <= main_proofs(m, p).len()
    &&& forall|i: int|
        0 <= i < m.delegation_proof_count@.len() ==> allowed_delegations(m).contains(
            #[trigger] m.delegation_proof_count@[i].0,
        )
}

/// The oracle stream without its prefix word.
pub open spec fn oracle_words(m: ProofMetadata, p: ProofList) -> Seq<u32> {
    let tail = match m.prev_end_params_output {
        Some(params) => params@,
        None => Seq::empty(),
    };
    register_words(m.register_values@) + seq![main_proof_count(m) as u32] + concat_proofs(
        main_proofs(m, p).take(main_proof_count(m) as int),
    ) + delegation_words(allowed_delegations(m), p.delegation_proofs@) + tail
}

fn append_proofs(out: &mut Vec<u32>, proofs: &Vec<Vec<u32>>, count: usize)
    requires
        count <= proofs@.len(),
    ensures
        final(out)@ == old(out)@ + concat_proofs(proofs@.take(count as int)),
{
    let mut i: usize = 0;
    while i < count
        invariant
            count <= proofs@.len(),
            0 <= i <= count,
            out@ == old(out)@ + concat_proofs(proofs@.take(i as int)),
        decreases count - i,
    {
        let ghost before = out@;
        let mut k: usize = 0;
        while k < proofs[i].len()
            invariant
                i < proofs@.len(),
                0 <= k <= proofs@[i as int]@.len(),
                out@ == before + proofs@[i as int]@.take(k as int),
            decreases proofs@[i as int]@.len() - k,
        {
            out.push(proofs[i][k]);
            assert(out@ =~= before + proofs@[i as int]@.take(k as int + 1));
            k += 1;
        }
        assert(proofs@.take(i as int + 1).drop_last() =~= proofs@.take(i as int));
        assert(proofs@[i as int]@.take(k as int) =~= proofs@[i as int]@);
        assert(out@ =~= old(out)@ + concat_proofs(proofs@.take(i as int + 1)));
        i += 1;
    }
}

fn find_delegation_proofs(list: &Vec<(u32, Vec<Vec<u32>>)>, t: u32) -> (r: Option<usize>)
    ensures
        match r {
            Some(i) => i < list@.len() && list@[i as int].0 == t && delegation_proofs_of(list@, t)
                == list@[i as int].1@,
            None => delegation_proofs_of(list@, t) == Seq::<Vec<u32>>::empty(),
        },
{
    let mut i: usize = 0;
    assert(list@.skip(0) =~= list@);
    while i < list.len()
        invariant
            0 <= i <= list@.len(),
            delegation_proofs_of(list@, t) == delegation_proofs_of(list@.skip(i as int), t),
        decreases list@.len() - i,
    {
        assert(list@.skip(i as int).drop_first() =~= list@.skip(i as int + 1));
        if list[i].0 == t {
            return Some(i);
        }
        i += 1;
    }
    None
}

/// The oracle stream of a metadata record and its proofs, without the prefix word.
pub fn generate_oracle_data_from_metadata_and_proof_list(
    metadata: &ProofMetadata,
    proofs: &ProofList,
) -> (r: Vec<u32>)
    requires
        oracle_input_ok(*metadata, *proofs),
    ensures
        r@ == oracle_words(*metadata, *proofs),
{
    let mut oracle_data: Vec<u32> = Vec::new();
    let mut i: usize = 0;
    while i < metadata.register_values.len()
        invariant
            0 <= i <= metadata.register_values@.len(),
            oracle_data@ == register_words(metadata.register_values@.take(i as int)),
        decreases metadata.register_values@.len() - i,
    {
        let register = metadata.register_values[i];
        oracle_data.push(register.value);
        let (low, high) = split_timestamp(register.last_access_timestamp);
        oracle_data.push(low);
        oracle_data.push(high);
        assert(oracle_data@ =~= register_words(metadata.register_values@.take(i as int + 1)));
        i += 1;
    }
    assert(metadata.register_values@.take(i as int) =~= metadata.register_values@);
    let delegations = if metadata.basic_proof_count > 0 {
        oracle_data.push(metadata.basic_proof_count as u32);
        append_proofs(&mut oracle_data, &proofs.basic_proofs, metadata.basic_proof_count);
        full_machine_allowed_delegation_types()
    } else if metadata.reduced_proof_count > 0 {
        oracle_data.push(metadata.reduced_proof_count as u32);
        append_proofs(&mut oracle_data, &proofs.reduced_proofs, metadata.reduced_proof_count);
        reduced_machine_allowed_delegation_types()
    } else {
        oracle_data.push(metadata.reduced_log_23_proof_count as u32);
        append_proofs(
            &mut oracle_data,
            &proofs.reduced_log_23_proofs,
            metadata.reduced_log_23_proof_count,
        );
        reduced_machine_allowed_delegation_types()
    };
    let ghost head = oracle_data@;
    let mut d: usize = 0;
    while d < delegations.len()
        invariant
            0 <= d <= delegations@.len(),
            oracle_data@ == head + delegation_words(
                delegations@.take(d as int),
                proofs.delegation_proofs@,
            ),
        decreases delegations@.len() - d,
    {
        let t = delegations[d];
        let found = find_delegation_proofs(&proofs.delegation_proofs, t);
        assert(delegations@.take(d as int + 1).drop_last() =~= delegations@.take(d as int));
        match found {
            Some(j) => {
                let list = &proofs.delegation_proofs[j].1;
                oracle_data.push(list.len() as u32);
                append_proofs(&mut oracle_data, list, list.len());
                assert(list@.take(list@.len() as int) =~= list@);
            },
            None => {
                oracle_data.push(0u32);
                assert(concat_proofs(Seq::<Vec<u32>>::empty()) =~= Seq::<u32>::empty());
            },
        }
        assert(oracle_data@ =~= head + delegation_words(
            delegations@.take(d as int + 1),
            proofs.delegation_proofs@,
        ));
        d += 1;
    }
    assert(delegations@.take(d as int) =~= delegations@);
    match metadata.prev_end_params_output {
        Some(prev_params) => {
            let ghost before = oracle_data@;
            let mut k: usize = 0;
            while k < 8
                invariant
                    0 <= k <= 8,
                    oracle_data@ == before + prev_params@.take(k as int),
                decreases 8 - k,
            {
                oracle_data.push(prev_params[k]);
                assert(oracle_data@ =~= before + prev_params@.take(k as int + 1));
                k += 1;
            }
            assert(prev_params@.take(8) =~= prev_params@);
        },
        None => {},
    }
    assert(oracle_data@ =~= oracle_words(*metadata, *proofs));
    oracle_data
}

/// The payload kind of a metadata record with some main proofs.
pub open spec fn layer_identifier(m: ProofMetadata) -> VerifierCircuitsIdentifiers {
    if m.basic_proof_count > 0 {
        VerifierCircuitsIdentifiers::BaseLayer
    } else if m.reduced_proof_count > 0 {
        VerifierCircuitsIdentifiers::RecursionLayer
    } else {
        VerifierCircuitsIdentifiers::RecursionLog23Layer
    }
}

/// The oracle stream for the universal verifier: one prefix word naming the
/// layer kind, then the stream of the metadata and proofs.
pub fn generate_oracle_data_for_universal_verifier(
    metadata: &ProofMetadata,
    proofs: &ProofList,
) -> (r: Vec<u32>)
    requires
        oracle_input_ok(*metadata, *proofs),
    ensures
        r@ == seq![identifier_word(layer_identifier(*metadata))] + oracle_words(*metadata, *proofs),
{
    let body = generate_oracle_data_from_metadata_and_proof_list(metadata, proofs);
    let id = if metadata.basic_proof_count > 0 {
        VerifierCircuitsIdentifiers::BaseLayer
    } else if metadata.reduced_proof_count > 0 {
        VerifierCircuitsIdentifiers::RecursionLayer
    } else {
        VerifierCircuitsIdentifiers::RecursionLog23Layer
    };
    let mut oracle: Vec<u32> = Vec::new();
    oracle.push(id.as_word());
    let mut k: usize = 0;
    while k < body.len()
        invariant
            0 <= k <= body@.len(),
            oracle@ == seq![identifier_word(id)] + body@.take(k as int),
        decreases body@.len() - k,
    {
        oracle.push(body[k]);
        assert(oracle@ =~= seq![identifier_word(id)] + body@.take(k as int + 1));
        k += 1;
    }
    assert(body@.take(k as int) =~= body@);
    oracle
}

} // verus!
