//! The circuits a chunk can be proven with: main RISC-V machines and
//! delegation co-processor circuits.

use vstd::prelude::*;
use crate::oracle::{BLAKE2_ROUND_FUNCTION_WITH_EXTENDED_CONTROL_ACCESS_ID, U256_OPS_WITH_CONTROL_ACCESS_ID};

verus! {

#[derive(Clone, Copy, Debug, PartialEq, Eq, Structural, Hash)]
pub enum MainCircuitType {
    FinalReducedRiscVMachine,
    MachineWithoutSignedMulDiv,
    ReducedRiscVLog23Machine,
    ReducedRiscVMachine,
    RiscVCycles,
}

impl MainCircuitType {
    /// Whether the circuit draws a challenge for delegation arguments.
    pub fn needs_delegation_challenge(&self) -> (r: bool)
        ensures
            r == (*self != MainCircuitType::FinalReducedRiscVMachine),
    {
        match self {
            MainCircuitType::FinalReducedRiscVMachine => false,
            MainCircuitType::MachineWithoutSignedMulDiv => true,
            MainCircuitType::ReducedRiscVLog23Machine => true,
            MainCircuitType::ReducedRiscVMachine => true,
            MainCircuitType::RiscVCycles => true,
        }
    }
}

#[derive(Clone, Copy, Debug, PartialEq, Eq, Structural, Hash, PartialOrd, Ord)]
pub enum DelegationCircuitType {
    BigIntWithControl,
    Blake2WithCompression,
}

pub open spec fn delegation_type_id(t: DelegationCircuitType) -> u16 {
    match t {
        DelegationCircuitType::BigIntWithControl => U256_OPS_WITH_CONTROL_ACCESS_ID as u16,
        DelegationCircuitType::Blake2WithCompression => BLAKE2_ROUND_FUNCTION_WITH_EXTENDED_CONTROL_ACCESS_ID as u16,
    }
}

/// The identifier names a known delegation circuit.
pub open spec fn is_delegation_type_id(id: u16) -> bool {
    id == U256_OPS_WITH_CONTROL_ACCESS_ID as u16 || id == BLAKE2_ROUND_FUNCTION_WITH_EXTENDED_CONTROL_ACCESS_ID as u16
}

impl DelegationCircuitType {
    /// The delegation CSR that selects this circuit.
    pub fn get_delegation_type_id(&self) -> (r: u16)
        ensures
            r == delegation_type_id(*self),
    {
        match self {
            DelegationCircuitType::BigIntWithControl => U256_OPS_WITH_CONTROL_ACCESS_ID as u16,
            DelegationCircuitType::Blake2WithCompression => BLAKE2_ROUND_FUNCTION_WITH_EXTENDED_CONTROL_ACCESS_ID as u16,
        }
    }

    /// The circuit selected by a delegation CSR.
    pub fn from_type_id(delegation_type: u16) -> (r: DelegationCircuitType)
        requires
            is_delegation_type_id(delegation_type),
        ensures
            delegation_type_id(r) == delegation_type,
    {
        if delegation_type == U256_OPS_WITH_CONTROL_ACCESS_ID as u16 {
            DelegationCircuitType::BigIntWithControl
        } else {
            DelegationCircuitType::Blake2WithCompression
        }
    }
}

#[derive(Clone, Copy, Debug, PartialEq, Eq, Structural, Hash)]
pub enum CircuitType {
    Main(MainCircuitType),
    Delegation(DelegationCircuitType),
}

impl CircuitType {
    pub fn from_delegation_type(delegation_type: u16) -> (r: CircuitType)
        requires
            is_delegation_type_id(delegation_type),
        ensures
            r matches CircuitType::Delegation(t) && delegation_type_id(t) == delegation_type,
    {
        CircuitType::Delegation(DelegationCircuitType::from_type_id(delegation_type))
    }

    pub fn as_main(&self) -> (r: Option<MainCircuitType>)
        ensures
            r == match *self {
                CircuitType::Main(t) => Some(t),
                CircuitType::Delegation(_) => None::<MainCircuitType>,
            },
    {
        match self {
            CircuitType::Main(circuit_type) => Some(*circuit_type),
            _ => None,
        }
    }

    pub fn as_delegation(&self) -> (r: Option<DelegationCircuitType>)
        ensures
            r == match *self {
                CircuitType::Delegation(t) => Some(t),
                CircuitType::Main(_) => None::<DelegationCircuitType>,
            },
    {
        match self {
            CircuitType::Delegation(circuit_type) => Some(*circuit_type),
            _ => None,
        }
    }
}

} // verus!
