//! Numeric gadgets for building rank-1 constraint systems (R1CS).
//!
//! A circuit author represents a prime-field value as a witness-carrying
//! handle (`AllocatedNum`) inside a constraint system, performs field
//! arithmetic on it, and thereby emits the constraints that bind the
//! arithmetic to the circuit. A deferred accumulator (`Num`) collects
//! weighted contributions without allocating intermediate witnesses.

pub mod field;
pub mod cs;
pub mod boolean;
pub mod num;
pub mod bits;
pub mod laws;
