use crate::bps::{apply_fee, fee_applied, lemma_fee_not_above, slippage_bps, slippage_of};
use crate::error::SwapError;
use vstd::arithmetic::div_mod::{lemma_div_is_ordered, lemma_fundamental_div_mod};
use vstd::arithmetic::mul::lemma_mul_strict_inequality_converse;
use vstd::prelude::*;

verus! {

/// A pool priced on the constant-product curve `x * y = k`.
pub struct ConstantProductPool {
    pub reserves: Vec<u128>,
    pub fee_bps: u16,
}

/// Output before fee for `dx` of input against reserves `x` (in) and `y`
/// (out): `floor(y * dx / (x + dx))`.
pub open spec fn cp_gross(x: int, y: int, dx: int) -> int {
    y * dx / (x + dx)
}

/// Net output of a constant-product swap of `dx` of token `i` for token `j`.
pub open spec fn cp_quote(reserves: Seq<u128>, fee_bps: int, i: int, j: int, dx: int) -> Result<
    u128,
    SwapError,
> {
    if !indices_valid(reserves, i, j) {
        Err(SwapError::InvalidIndex)
    } else if dx == 0 {
        Err(SwapError::ZeroAmount)
    } else if reserves[i] + dx > u128::MAX || reserves[j] * dx > u128::MAX {
        Err(SwapError::MathOverflow)
    } else {
        fee_applied(cp_gross(reserves[i] as int, reserves[j] as int, dx), fee_bps)
    }
}

/// Whether `i` and `j` are distinct slots of `reserves`.
pub open spec fn indices_valid(reserves: Seq<u128>, i: int, j: int) -> bool {
    i != j && 0 <= i < reserves.len() && 0 <= j < reserves.len()
}

/// Whether slippage is defined for the indices and amount: distinct valid
/// indices and a positive amount.
pub open spec fn quote_arguments_valid(reserves: Seq<u128>, i: int, j: int, dx: int) -> bool {
    indices_valid(reserves, i, j) && dx > 0
}

/// The output before fee never exceeds the output reserve.
proof fn lemma_gross_within(x: int, y: int, dx: int)
    requires
        x >= 0,
        y >= 0,
        dx > 0,
    ensures
        0 <= cp_gross(x, y, dx) <= y,
{
    assert(0 <= y * dx <= y * (x + dx)) by (nonlinear_arith)
        requires
            x >= 0,
            y >= 0,
            dx > 0,
    ;
    lemma_div_is_ordered(y * dx, y * (x + dx), x + dx);
    assert(y * (x + dx) / (x + dx) == y) by (nonlinear_arith)
        requires
            x + dx > 0,
    ;
    assert(0 <= y * dx / (x + dx)) by (nonlinear_arith)
        requires
            y * dx >= 0,
            x + dx > 0,
    ;
}

/// A constant-product quote that succeeds never pays out more than the
/// pre-trade reserve of the output token, before or after the fee.
pub proof fn lemma_cp_within_reserve(reserves: Seq<u128>, fee_bps: int, i: int, j: int, dx: int)
    requires
        fee_bps >= 0,
        dx >= 0,
    ensures
        cp_quote(reserves, fee_bps, i, j, dx) matches Ok(v) ==> 0 <= j < reserves.len() && v
            <= reserves[j],
{
    if quote_arguments_valid(reserves, i, j, dx) {
        lemma_gross_within(reserves[i] as int, reserves[j] as int, dx);
        let g = cp_gross(reserves[i] as int, reserves[j] as int, dx);
        lemma_fee_not_above(g, fee_bps);
    }
}

/// Before fee, `dy(b) * a < (dy(a) + 1) * b` for `0 < a <= b`.
proof fn lemma_gross_rate(x: int, y: int, a: int, b: int)
    requires
        x >= 0,
        y >= 0,
        0 < a <= b,
    ensures
        cp_gross(x, y, b) * a < (cp_gross(x, y, a) + 1) * b,
{
    let ga = cp_gross(x, y, a);
    let gb = cp_gross(x, y, b);
    lemma_gross_within(x, y, a);
    lemma_gross_within(x, y, b);
    lemma_fundamental_div_mod(y * a, x + a);
    lemma_fundamental_div_mod(y * b, x + b);
    let ra = (y * a) % (x + a);
    let rb = (y * b) % (x + b);
    assert(gb * (x + b) * a <= y * b * a) by (nonlinear_arith)
        requires
            y * b == (x + b) * gb + rb,
            rb >= 0,
            a > 0,
    ;
    assert(y * a * b < (ga + 1) * (x + a) * b) by (nonlinear_arith)
        requires
            y * a == (x + a) * ga + ra,
            ra < x + a,
            b > 0,
    ;
    assert((ga + 1) * (x + a) * b <= (ga + 1) * (x + b) * b) by (nonlinear_arith)
        requires
            ga >= 0,
            x >= 0,
            0 < a <= b,
    ;
    assert(y * b * a == y * a * b) by (nonlinear_arith);
    assert((x + b) * (gb * a) < (x + b) * ((ga + 1) * b)) by (nonlinear_arith)
        requires
            gb * (x + b) * a < (ga + 1) * (x + b) * b,
    ;
    lemma_mul_strict_inequality_converse(gb * a, (ga + 1) * b, x + b);
}

/// The rate of a constant-product swap weakens as the trade grows: for inputs
/// `a <= b` that both succeed without fee, `dy(b) / b < (dy(a) + 1) / a`, that
/// is `dy(b) / b <= dy(a) / a` up to one unit of rounding in `dy(a)`.
pub proof fn lemma_cp_marginal_rate(reserves: Seq<u128>, i: int, j: int, a: int, b: int)
    requires
        0 < a <= b,
    ensures
        cp_quote(reserves, 0, i, j, a) matches Ok(va) ==> cp_quote(reserves, 0, i, j, b) matches Ok(
            vb,
        ) ==> vb * a < (va + 1) * b,
{
    if quote_arguments_valid(reserves, i, j, a) {
        let x = reserves[i] as int;
        let y = reserves[j] as int;
        lemma_gross_rate(x, y, a, b);
        let ga = cp_gross(x, y, a);
        let gb = cp_gross(x, y, b);
        assert(ga * 10_000 / 10_000 == ga) by (nonlinear_arith);
        assert(gb * 10_000 / 10_000 == gb) by (nonlinear_arith);
    }
}

/// With any fee the rate still weakens as the trade grows, up to two units
/// of rounding: for inputs `a <= b` that both succeed,
/// `dy(b) * a < (dy(a) + 2) * b`.
pub proof fn lemma_cp_marginal_rate_with_fee(
    reserves: Seq<u128>,
    fee_bps: int,
    i: int,
    j: int,
    a: int,
    b: int,
)
    requires
        fee_bps >= 0,
        0 < a <= b,
    ensures
        cp_quote(reserves, fee_bps, i, j, a) matches Ok(va) ==> cp_quote(
            reserves,
            fee_bps,
            i,
            j,
            b,
        ) matches Ok(vb) ==> vb * a < (va + 2) * b,
{
    if quote_arguments_valid(reserves, i, j, a) && cp_quote(reserves, fee_bps, i, j, a) is Ok
        && cp_quote(reserves, fee_bps, i, j, b) is Ok {
        let x = reserves[i] as int;
        let y = reserves[j] as int;
        lemma_gross_rate(x, y, a, b);
        lemma_gross_within(x, y, a);
        lemma_gross_within(x, y, b);
        let ga = cp_gross(x, y, a);
        let gb = cp_gross(x, y, b);
        let f = 10_000 - fee_bps;
        let va = ga * f / 10_000;
        let vb = gb * f / 10_000;
        lemma_fundamental_div_mod(ga * f, 10_000);
        lemma_fundamental_div_mod(gb * f, 10_000);
        assert(vb * a < (va + 2) * b) by (nonlinear_arith)
            requires
                0 <= f <= 10_000,
                0 < a <= b,
                ga >= 0,
                gb >= 0,
                gb * a < (ga + 1) * b,
                ga * f == 10_000 * va + (ga * f) % 10_000,
                (ga * f) % 10_000 < 10_000,
                gb * f == 10_000 * vb + (gb * f) % 10_000,
                (gb * f) % 10_000 >= 0,
        ;
    }
}

impl ConstantProductPool {
    /// Whether the pool has at least two reserve slots.
    pub open spec fn well_formed(&self) -> bool {
        self.reserves@.len() >= 2
    }

    /// A pool over `reserves` charging `fee_bps`; fewer than two reserve slots
    /// are refused.
    pub fn new(reserves: Vec<u128>, fee_bps: u16) -> (r: Result<Self, SwapError>)
        ensures
            reserves@.len() < 2 <==> r == Err::<Self, SwapError>(SwapError::PoolSizeTooSmall),
            reserves@.len() >= 2 ==> r is Ok,
            r matches Ok(p) ==> p.reserves@ == reserves@ && p.fee_bps == fee_bps
                && p.well_formed(),
    {
        if reserves.len() < 2 {
            return Err(SwapError::PoolSizeTooSmall);
        }
        Ok(Self { reserves, fee_bps })
    }

    /// Net output for `dx` of token `i` paid in, in token `j`, after the
    /// pool's fee.
    pub fn get_dy(&self, i: usize, j: usize, dx: u128) -> (r: Result<u128, SwapError>)
        ensures
            r == cp_quote(self.reserves@, self.fee_bps as int, i as int, j as int, dx as int),
            i == j ==> r == Err::<u128, SwapError>(SwapError::InvalidIndex),
            indices_valid(self.reserves@, i as int, j as int) && dx == 0 ==> r == Err::<
                u128,
                SwapError,
            >(SwapError::ZeroAmount),
            r matches Ok(v) ==> v <= self.reserves@[j as int],
    {
        proof {
            lemma_cp_within_reserve(self.reserves@, self.fee_bps as int, i as int, j as int, dx as int);
        }
        if i == j || i >= self.reserves.len() || j >= self.reserves.len() {
            return Err(SwapError::InvalidIndex);
        }
        if dx == 0 {
            return Err(SwapError::ZeroAmount);
        }
        let x = self.reserves[i];
        let y = self.reserves[j];
        let new_x = match x.checked_add(dx) {
            Some(v) => v,
            None => return Err(SwapError::MathOverflow),
        };
        let prod = match y.checked_mul(dx) {
            Some(v) => v,
            None => return Err(SwapError::MathOverflow),
        };
        let dy = prod / new_x;
        apply_fee(dy, self.fee_bps)
    }

    /// Deviation in basis points of the fee-inclusive output from a 1:1
    /// exchange of `dx`; zero for invalid indices, a zero amount, or a quote
    /// that fails is taken as an output of zero.
    pub fn calculate_slippage_bps(&self, i: usize, j: usize, dx: u128) -> (r: i32)
        ensures
            i == j ==> r == 0,
            r == if quote_arguments_valid(self.reserves@, i as int, j as int, dx as int) {
                slippage_of(
                    dx as int,
                    match cp_quote(self.reserves@, self.fee_bps as int, i as int, j as int, dx as int) {
                        Ok(v) => v as int,
                        Err(_) => 0,
                    },
                )
            } else {
                0
            },
    {
        if i == j || i >= self.reserves.len() || j >= self.reserves.len() || dx == 0 {
            return 0;
        }
        let actual = match self.get_dy(i, j, dx) {
            Ok(v) => v,
            Err(_) => 0,
        };
        slippage_bps(dx, actual)
    }
}

} // verus!
