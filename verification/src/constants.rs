//! Protocol constants: window geometry for fixed-base scalar multiplication
//! and the domain-separation tags under which the two commitment generators
//! are derived.

use vstd::prelude::*;

verus! {

/// Width in bits of one window of a decomposed scalar.
pub const FIXED_BASE_WINDOW_SIZE: usize = 3;

/// Number of 3-bit windows needed for a 255-bit scalar.
pub const NUM_WINDOWS: usize = 85;

/// Width in bits of the shared lookup table used for range checks.
pub const LOOKUP_BITS: usize = 10;

/// Number of rows of the shared lookup table: `2^LOOKUP_BITS`.
pub const LOOKUP_ROWS: usize = 1024;

/// Personalization byte under which the value generator `V` is derived
/// (the ASCII byte `v`).
pub const BOARD_COMMITMENT_V_BYTE: u8 = 118;

/// Personalization byte under which the trapdoor generator `R` is derived
/// (the ASCII byte `r`).
pub const BOARD_COMMITMENT_R_BYTE: u8 = 114;

/// The modulus `p` of the Pallas base field: point coordinates and committed
/// values are integers below `p`.
pub open spec fn pallas_base_modulus() -> nat {
    0x40000000000000000000000000000000224698fc094cf91b992d30ed00000001nat
}

/// The modulus `q` of the Pallas scalar field (the group order): scalars,
/// in particular blinding trapdoors, are integers below `q`.
pub open spec fn pallas_scalar_modulus() -> nat {
    0x40000000000000000000000000000000224698fc0994a8dd8c46eb2100000001nat
}

} // verus!
