use vstd::prelude::*;

verus! {

/// The kinds of failure shared by both pool models.
#[derive(Debug, Clone, Copy, PartialEq, Eq, Structural)]
pub enum SwapError {
    /// Bad or equal token indices, or a degenerate amplification.
    InvalidIndex,
    /// A zero input amount.
    ZeroAmount,
    /// An overflow, underflow or division by zero in a checked step.
    MathOverflow,
    /// A zero reserve, or an output that would exceed the available balance.
    InsufficientLiquidity,
    /// The invariant solver ended at zero.
    ConvergenceFailed,
    /// Fewer than two reserve slots.
    PoolSizeTooSmall,
}

} // verus!
