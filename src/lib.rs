//! Swap pricing for automated-market-maker pools: a constant-product pool and
//! a StableSwap pool, both on checked 128-bit unsigned integer arithmetic.

mod bps;
mod constant_product;
mod error;
mod stable_swap;

pub use bps::{apply_fee, fee_applied, round_half_away, slippage_bps, slippage_of, BPS_SCALE};
pub use constant_product::{
    cp_gross, cp_quote, indices_valid, lemma_cp_marginal_rate, lemma_cp_marginal_rate_with_fee,
    lemma_cp_within_reserve,
    quote_arguments_valid, ConstantProductPool,
};
pub use error::SwapError;
pub use stable_swap::{
    invariant_d, invariant_settles, invariant_update, lemma_invariant_settled,
    lemma_stable_reproducible, lemma_stable_within_reserve, stable_quote, StableSwapPool,
    MAX_ITERATIONS,
};
