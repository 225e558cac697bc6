//! Verified core of a proof production pipeline for RISC-V execution traces:
//! the quadratic constraint algebra, the recursion strategy planner, the
//! verifier oracle encoder and the decisions of the tracing workers.

pub mod chain;
pub mod chunker;
pub mod circuit_type;
pub mod constraint;
pub mod field;
pub mod oracle;
pub mod poly;
pub mod recursion;
pub mod stage_one;
pub mod term;
pub mod worker;
