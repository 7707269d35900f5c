use vstd::prelude::*;

pub mod bigops;
pub mod digits;
pub mod fixed;
pub mod gcd;
pub mod symbol;
pub mod variants;

pub use digits::SignedInt;
pub use fixed::{jacobi_fixed, jacobi_taiko, select_width, FixedInt};
pub use variants::{jacobi_base, jacobi_new, jacobi_num_bigint_dig};

verus! {

/// Reason a Jacobi-symbol computation rejects its inputs.
#[derive(Clone, Copy, PartialEq, Eq, Structural, Debug)]
pub enum JacobiError {
    /// The modulus was not a strictly positive odd integer.
    InvalidModulus,
    /// An operand does not fit in the fixed width that was selected.
    CapacityExceeded,
}

} // verus!
