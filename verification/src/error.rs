//! What a caller-supplied cryptographic operation can hand back that the
//! decomposition cannot work with.

use vstd::prelude::*;

verus! {

/// Why a bootstrap or a decomposition stopped.
#[derive(Clone, Copy, Debug, PartialEq, Eq, Structural)]
pub enum DecompositionError {
    /// The keyswitch returned an LWE ciphertext that does not have the number
    /// of coefficients that the bootstrap key expects.
    SwitchedSizeMismatch,
    /// The blind rotation returned an accumulator whose polynomial size or
    /// number of polynomials differs from those of the output ciphertexts.
    RotatedShapeMismatch,
}

} // verus!
