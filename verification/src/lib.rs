//! Pedersen commitments over the Pallas curve, with the windowed scalar
//! decomposition and lookup range checks that the commitment circuit relies on
//! stated and proved as plain arithmetic.

pub mod commit;
pub mod constants;
pub mod decompose;
pub mod range_check;
pub mod scalar;
