use crate::bps::{apply_fee, fee_applied, lemma_fee_not_above, slippage_bps, slippage_of};
use crate::constant_product::{indices_valid, quote_arguments_valid};
use crate::error::SwapError;
use vstd::prelude::*;

verus! {

/// A pool priced on the StableSwap curve with amplification `A`.
pub struct StableSwapPool {
    pub reserves: Vec<u128>,
    pub amplification_coefficient: u128,
    pub fee_bps: u16,
}

/// Number of Newton steps each solver may take.
pub const MAX_ITERATIONS: u32 = 255;

/// `b` to the power `e`.
pub open spec fn power(b: int, e: nat) -> int
    decreases e,
{
    if e == 0 {
        1
    } else {
        b * power(b, (e - 1) as nat)
    }
}

/// `A * n^n` for a pool of `n` tokens, or `None` where it does not fit in
/// 128 bits.
pub open spec fn amp_factor(a: int, n: nat) -> Option<int> {
    if power(n as int, n) > u128::MAX || a * power(n as int, n) > u128::MAX {
        None
    } else {
        Some(a * power(n as int, n))
    }
}

/// Sum of the first `k` reserves.
pub open spec fn sum_prefix(rs: Seq<u128>, k: int) -> int
    decreases k,
{
    if k <= 0 || k > rs.len() {
        0
    } else {
        sum_prefix(rs, k - 1) + rs[k - 1]
    }
}

/// Whether every reserve is positive.
pub open spec fn all_positive(rs: Seq<u128>) -> bool {
    forall|k: int| 0 <= k < rs.len() ==> rs[k] > 0
}

/// Whether two values differ by at most one.
pub open spec fn close(a: int, b: int) -> bool {
    a - b <= 1 && b - a <= 1
}

/// The product term `D^(k+1) / (n^k * r_0 * ... * r_(k-1))` over the first
/// `k` reserves, built one reserve at a time as `P <- P * D / r / n`; `None`
/// where a product does not fit in 128 bits.
pub open spec fn d_product(rs: Seq<u128>, d: int, n: int, k: nat) -> Option<int>
    decreases k,
{
    if k == 0 {
        Some(d)
    } else {
        match d_product(rs, d, n, (k - 1) as nat) {
            None => None,
            Some(p) => if p * d > u128::MAX {
                None
            } else {
                Some(p * d / (rs[k - 1] as int) / n)
            },
        }
    }
}

/// One Newton update of the invariant:
/// `D' = (Ann*S + n*P) * D / ((Ann - 1) * D + (n + 1) * P)`; `None` where a
/// step does not fit in 128 bits or the denominator is zero.
pub open spec fn d_step(rs: Seq<u128>, ann: int, s: int, d: int) -> Option<int> {
    let n = rs.len() as int;
    match d_product(rs, d, n, rs.len()) {
        None => None,
        Some(p) => if ann * s + n * p > u128::MAX || (ann * s + n * p) * d > u128::MAX || (ann
            - 1) * d + (n + 1) * p > u128::MAX || (ann - 1) * d + (n + 1) * p == 0 {
            None
        } else {
            Some((ann * s + n * p) * d / ((ann - 1) * d + (n + 1) * p))
        },
    }
}

/// Newton's method for the invariant from `d`, with at most `fuel` steps,
/// stopping at the first step that moves by at most one.
pub open spec fn d_solve(rs: Seq<u128>, ann: int, s: int, d: int, fuel: nat) -> Option<int>
    decreases fuel,
{
    if fuel == 0 {
        Some(d)
    } else {
        match d_step(rs, ann, s, d) {
            None => None,
            Some(next) => if close(next, d) {
                Some(next)
            } else {
                d_solve(rs, ann, s, next, (fuel - 1) as nat)
            },
        }
    }
}

/// The StableSwap invariant `D` of reserves `rs` under amplification `a`.
pub open spec fn invariant_d(rs: Seq<u128>, a: int) -> Result<u128, SwapError> {
    let s = sum_prefix(rs, rs.len() as int);
    match amp_factor(a, rs.len()) {
        None => Err(SwapError::MathOverflow),
        Some(ann) => if s > u128::MAX {
            Err(SwapError::MathOverflow)
        } else if !all_positive(rs) {
            Err(SwapError::InsufficientLiquidity)
        } else if ann <= 1 {
            Err(SwapError::InvalidIndex)
        } else {
            match d_solve(rs, ann, s, s, MAX_ITERATIONS as nat) {
                None => Err(SwapError::MathOverflow),
                Some(d) => if d == 0 {
                    Err(SwapError::ConvergenceFailed)
                } else {
                    Ok(d as u128)
                },
            }
        },
    }
}

/// The sum `S'` of the post-trade balances other than token `j` (token `i`
/// raised by `dx`) and the term `c`, both over the first `k` slots; `c` starts
/// at `d` and takes `c <- c * d / (x * n)` for each balance `x` counted.
/// `None` where a step does not fit in 128 bits or divides by zero.
pub open spec fn c_fold(rs: Seq<u128>, i: int, j: int, dx: int, d: int, k: nat) -> Option<
    (int, int),
>
    decreases k,
{
    if k == 0 {
        Some((0int, d))
    } else {
        match c_fold(rs, i, j, dx, d, (k - 1) as nat) {
            None => None,
            Some(acc) => {
                let m = k - 1;
                let n = rs.len() as int;
                if m == j {
                    Some(acc)
                } else {
                    let x = if m == i {
                        rs[m] + dx
                    } else {
                        rs[m] as int
                    };
                    if x > u128::MAX || acc.0 + x > u128::MAX || acc.1 * d > u128::MAX || x * n
                        > u128::MAX || x * n == 0 {
                        None
                    } else {
                        Some((acc.0 + x, acc.1 * d / (x * n)))
                    }
                }
            },
        }
    }
}

/// One Newton update of the output balance: `y' = (y^2 + c) / (2y + b - D)`;
/// `None` where a step does not fit in 128 bits or the denominator is not
/// positive.
pub open spec fn y_step(c: int, b: int, d: int, y: int) -> Option<int> {
    if y * y + c > u128::MAX || 2 * y + b > u128::MAX || 2 * y + b - d <= 0 {
        None
    } else {
        Some((y * y + c) / (2 * y + b - d))
    }
}

/// Newton's method for the output balance from `y`, with at most `fuel`
/// steps, stopping at the first step that moves by at most one.
pub open spec fn y_solve(c: int, b: int, d: int, y: int, fuel: nat) -> Option<int>
    decreases fuel,
{
    if fuel == 0 {
        Some(y)
    } else {
        match y_step(c, b, d, y) {
            None => None,
            Some(next) => if close(next, y) {
                Some(next)
            } else {
                y_solve(c, b, d, next, (fuel - 1) as nat)
            },
        }
    }
}

/// Net output of a StableSwap trade of `dx` of token `i` for token `j` in a
/// pool of reserves `rs` and amplification `a`, after a fee of `fee_bps`.
pub open spec fn stable_quote(rs: Seq<u128>, a: int, fee_bps: int, i: int, j: int, dx: int) -> Result<
    u128,
    SwapError,
> {
    let n = rs.len() as int;
    if !indices_valid(rs, i, j) {
        Err(SwapError::InvalidIndex)
    } else if dx == 0 {
        Err(SwapError::ZeroAmount)
    } else {
        match amp_factor(a, rs.len()) {
            None => Err(SwapError::MathOverflow),
            Some(ann) => match invariant_d(rs, a) {
                Err(e) => Err(e),
                Ok(dv) => match c_fold(rs, i, j, dx, dv as int, rs.len()) {
                    None => Err(SwapError::MathOverflow),
                    Some(acc) => {
                        let d = dv as int;
                        let c = acc.1 * d / ann / n;
                        let b = acc.0 + d / ann;
                        if acc.1 * d > u128::MAX || b > u128::MAX {
                            Err(SwapError::MathOverflow)
                        } else {
                            match y_solve(c, b, d, d, MAX_ITERATIONS as nat) {
                                None => Err(SwapError::MathOverflow),
                                Some(y) => if y > rs[j] {
                                    Err(SwapError::InsufficientLiquidity)
                                } else {
                                    fee_applied(rs[j] - y, fee_bps)
                                },
                            }
                        }
                    },
                },
            },
        }
    }
}

proof fn lemma_power_grows(b: int, e1: nat, e2: nat)
    requires
        b >= 1,
        e1 <= e2,
    ensures
        1 <= power(b, e1) <= power(b, e2),
    decreases e2,
{
    if e2 > 0 {
        let e0 = if e1 == e2 {
            (e2 - 1) as nat
        } else {
            e1
        };
        lemma_power_grows(b, e0, (e2 - 1) as nat);
        assert(power(b, (e2 - 1) as nat) <= b * power(b, (e2 - 1) as nat)) by (nonlinear_arith)
            requires
                b >= 1,
                power(b, (e2 - 1) as nat) >= 1,
        ;
    }
}

/// Once a product term overflows, it stays overflowed for longer prefixes.
proof fn lemma_d_product_stays_none(rs: Seq<u128>, d: int, n: int, k: nat, m: nat)
    requires
        k <= m,
        d_product(rs, d, n, k) is None,
    ensures
        d_product(rs, d, n, m) is None,
    decreases m,
{
    if m > k {
        lemma_d_product_stays_none(rs, d, n, k, (m - 1) as nat);
    }
}

/// Sums of longer prefixes are no smaller.
proof fn lemma_sum_prefix_grows(rs: Seq<u128>, k: int, m: int)
    requires
        0 <= k <= m <= rs.len(),
    ensures
        sum_prefix(rs, k) <= sum_prefix(rs, m),
    decreases m,
{
    if m > k {
        lemma_sum_prefix_grows(rs, k, m - 1);
    }
}

/// Once the fold overflows, it stays overflowed for longer prefixes.
proof fn lemma_c_fold_stays_none(rs: Seq<u128>, i: int, j: int, dx: int, d: int, k: nat, m: nat)
    requires
        k <= m,
        c_fold(rs, i, j, dx, d, k) is None,
    ensures
        c_fold(rs, i, j, dx, d, m) is None,
    decreases m,
{
    if m > k {
        lemma_c_fold_stays_none(rs, i, j, dx, d, k, (m - 1) as nat);
    }
}

/// One Newton update of the output balance, checked.
fn y_update(c: u128, b: u128, d: u128, y: u128) -> (r: Option<u128>)
    ensures
        r matches Some(v) ==> y_step(c as int, b as int, d as int, y as int) == Some(v as int),
        r is None ==> y_step(c as int, b as int, d as int, y as int) is None,
{
    let numerator = match y.checked_mul(y) {
        Some(sq) => match sq.checked_add(c) {
            Some(v) => v,
            None => return None,
        },
        None => return None,
    };
    let denom_left = match y.checked_mul(2) {
        Some(twice) => match twice.checked_add(b) {
            Some(v) => v,
            None => return None,
        },
        None => return None,
    };
    if denom_left <= d {
        return None;
    }
    let denominator = denom_left - d;
    proof {
        assert(numerator as int / denominator as int <= numerator) by (nonlinear_arith)
            requires
                numerator >= 0,
                denominator > 0,
        ;
    }
    Some(numerator / denominator)
}

/// `A * n^n`, checked.
fn amp_times_n_pow_n(a: u128, n: u128) -> (r: Option<u128>)
    ensures
        r matches Some(v) ==> amp_factor(a as int, n as nat) == Some(v as int),
        r is None ==> amp_factor(a as int, n as nat) is None,
{
    let mut p: u128 = 1;
    let mut k: u128 = 0;
    while k < n
        invariant
            k <= n,
            p == power(n as int, k as nat),
        decreases n - k,
    {
        proof {
            assert(power(n as int, (k + 1) as nat) == n * power(n as int, k as nat));
            assert(p * n == n * p) by (nonlinear_arith);
        }
        match p.checked_mul(n) {
            Some(v) => p = v,
            None => {
                proof {
                    lemma_power_grows(n as int, (k + 1) as nat, n as nat);
                }
                return None;
            },
        }
        k = k + 1;
    }
    match a.checked_mul(p) {
        Some(v) => Some(v),
        None => None,
    }
}

impl StableSwapPool {
    /// Whether the pool has at least two reserve slots.
    pub open spec fn well_formed(&self) -> bool {
        self.reserves@.len() >= 2
    }

    /// A pool over `reserves` with amplification `amplification_coefficient`
    /// charging `fee_bps`; fewer than two reserve slots are refused.
    pub fn new(reserves: Vec<u128>, amplification_coefficient: u128, fee_bps: u16) -> (r: Result<
        Self,
        SwapError,
    >)
        ensures
            reserves@.len() < 2 <==> r == Err::<Self, SwapError>(SwapError::PoolSizeTooSmall),
            reserves@.len() >= 2 ==> r is Ok,
            r matches Ok(p) ==> p.reserves@ == reserves@ && p.amplification_coefficient
                == amplification_coefficient && p.fee_bps == fee_bps && p.well_formed(),
    {
        if reserves.len() < 2 {
            return Err(SwapError::PoolSizeTooSmall);
        }
        Ok(Self { reserves, amplification_coefficient, fee_bps })
    }

    /// The product term for a guess `d`, over all reserves.
    fn product_term(&self, d: u128, n: u128) -> (r: Option<u128>)
        requires
            all_positive(self.reserves@),
            n == self.reserves@.len(),
        ensures
            r matches Some(v) ==> d_product(self.reserves@, d as int, n as int, self.reserves@.len())
                == Some(v as int),
            r is None ==> d_product(self.reserves@, d as int, n as int, self.reserves@.len()) is None,
    {
        let mut p: u128 = d;
        let mut k: usize = 0;
        while k < self.reserves.len()
            invariant
                all_positive(self.reserves@),
                n == self.reserves@.len(),
                k <= self.reserves@.len(),
                d_product(self.reserves@, d as int, n as int, k as nat) == Some(p as int),
            decreases self.reserves@.len() - k,
        {
            let r = self.reserves[k];
            match p.checked_mul(d) {
                Some(v) => {
                    p = v / r / n;
                },
                None => {
                    proof {
                        lemma_d_product_stays_none(
                            self.reserves@,
                            d as int,
                            n as int,
                            (k + 1) as nat,
                            self.reserves@.len(),
                        );
                    }
                    return None;
                },
            }
            k = k + 1;
        }
        Some(p)
    }

    /// One Newton update of the invariant from `d`, given `ann = A * n^n`
    /// and the sum `s` of the reserves.
    fn d_update(&self, ann: u128, s: u128, d: u128) -> (r: Option<u128>)
        requires
            all_positive(self.reserves@),
            ann > 1,
        ensures
            r matches Some(v) ==> d_step(self.reserves@, ann as int, s as int, d as int) == Some(
                v as int,
            ),
            r is None ==> d_step(self.reserves@, ann as int, s as int, d as int) is None,
    {
        let n = self.reserves.len() as u128;
        let p = match self.product_term(d, n) {
            Some(v) => v,
            None => return None,
        };
        let term1 = match ann.checked_mul(s) {
            Some(v) => v,
            None => return None,
        };
        let term2 = match n.checked_mul(p) {
            Some(v) => v,
            None => return None,
        };
        let sum_terms = match term1.checked_add(term2) {
            Some(v) => v,
            None => return None,
        };
        let numerator = match sum_terms.checked_mul(d) {
            Some(v) => v,
            None => return None,
        };
        let term_a = match (ann - 1).checked_mul(d) {
            Some(v) => v,
            None => return None,
        };
        let term_b = match n.checked_add(1) {
            Some(n1) => match n1.checked_mul(p) {
                Some(v) => v,
                None => return None,
            },
            None => return None,
        };
        let denominator = match term_a.checked_add(term_b) {
            Some(v) => v,
            None => return None,
        };
        if denominator == 0 {
            return None;
        }
        proof {
            assert(numerator as int / denominator as int <= numerator) by (nonlinear_arith)
                requires
                    numerator >= 0,
                    denominator > 0,
            ;
        }
        Some(numerator / denominator)
    }

    /// The sum of the reserves, or `None` where it does not fit in 128 bits.
    fn reserve_sum(&self) -> (r: Option<u128>)
        ensures
            r matches Some(v) ==> sum_prefix(self.reserves@, self.reserves@.len() as int) == v,
            r is None ==> sum_prefix(self.reserves@, self.reserves@.len() as int) > u128::MAX,
    {
        let mut total: u128 = 0;
        let mut k: usize = 0;
        while k < self.reserves.len()
            invariant
                k <= self.reserves@.len(),
                total == sum_prefix(self.reserves@, k as int),
            decreases self.reserves@.len() - k,
        {
            match total.checked_add(self.reserves[k]) {
                Some(v) => total = v,
                None => {
                    proof {
                        lemma_sum_prefix_grows(
                            self.reserves@,
                            k + 1,
                            self.reserves@.len() as int,
                        );
                    }
                    return None;
                },
            }
            k = k + 1;
        }
        Some(total)
    }

    /// Whether every reserve is positive.
    fn reserves_positive(&self) -> (r: bool)
        ensures
            r == all_positive(self.reserves@),
    {
        let mut k: usize = 0;
        while k < self.reserves.len()
            invariant
                k <= self.reserves@.len(),
                forall|m: int| 0 <= m < k ==> self.reserves@[m] > 0,
            decreases self.reserves@.len() - k,
        {
            if self.reserves[k] == 0 {
                return false;
            }
            k = k + 1;
        }
        true
    }

    /// The invariant `D` of the pool's reserves, by Newton's method from the
    /// sum of the reserves, with at most 255 steps and stopping at the first
    /// step that moves by at most one.
    pub fn get_d(&self) -> (r: Result<u128, SwapError>)
        ensures
            r == invariant_d(self.reserves@, self.amplification_coefficient as int),
    {
        let n = self.reserves.len() as u128;
        let ann = match amp_times_n_pow_n(self.amplification_coefficient, n) {
            Some(v) => v,
            None => return Err(SwapError::MathOverflow),
        };
        let s = match self.reserve_sum() {
            Some(v) => v,
            None => return Err(SwapError::MathOverflow),
        };
        if !self.reserves_positive() {
            return Err(SwapError::InsufficientLiquidity);
        }
        if ann <= 1 {
            return Err(SwapError::InvalidIndex);
        }
        let ghost rs = self.reserves@;
        let ghost target = d_solve(rs, ann as int, s as int, s as int, MAX_ITERATIONS as nat);
        let mut d: u128 = s;
        let mut it: u32 = 0;
        let mut done = false;
        while !done && it < MAX_ITERATIONS
            invariant
                rs == self.reserves@,
                all_positive(rs),
                ann > 1,
                amp_factor(self.amplification_coefficient as int, rs.len()) == Some(ann as int),
                sum_prefix(rs, rs.len() as int) == s,
                target == d_solve(rs, ann as int, s as int, s as int, MAX_ITERATIONS as nat),
                it <= MAX_ITERATIONS,
                done ==> target == Some(d as int),
                !done ==> target == d_solve(
                    rs,
                    ann as int,
                    s as int,
                    d as int,
                    (MAX_ITERATIONS - it) as nat,
                ),
            decreases MAX_ITERATIONS - it,
        {
            let next = match self.d_update(ann, s, d) {
                Some(v) => v,
                None => {
                    proof {
                        let fuel = (MAX_ITERATIONS - it) as nat;
                        assert(fuel > 0);
                        assert(d_solve(rs, ann as int, s as int, d as int, fuel) is None);
                    }
                    return Err(SwapError::MathOverflow);
                },
            };
            if (next >= d && next - d <= 1) || (next < d && d - next <= 1) {
                done = true;
            }
            d = next;
            it = it + 1;
        }
        if d == 0 {
            return Err(SwapError::ConvergenceFailed);
        }
        Ok(d)
    }

    /// Output for `dx` of token `i` paid in, in token `j`, after a fee of
    /// `fee_bps` basis points (pass zero for the output before fee): the
    /// post-trade balance `y` of token `j` solves `y^2 + c = y * (2y + b - D)`
    /// by Newton's method from `D`, and the output is the old balance less `y`.
    pub fn get_dy(&self, i: usize, j: usize, dx: u128, fee_bps: u16) -> (r: Result<u128, SwapError>)
        ensures
            r == stable_quote(
                self.reserves@,
                self.amplification_coefficient as int,
                fee_bps as int,
                i as int,
                j as int,
                dx as int,
            ),
            i == j ==> r == Err::<u128, SwapError>(SwapError::InvalidIndex),
            indices_valid(self.reserves@, i as int, j as int) && dx == 0 ==> r == Err::<
                u128,
                SwapError,
            >(SwapError::ZeroAmount),
            r matches Ok(v) ==> v <= self.reserves@[j as int],
    {
        if i == j || i >= self.reserves.len() || j >= self.reserves.len() {
            return Err(SwapError::InvalidIndex);
        }
        if dx == 0 {
            return Err(SwapError::ZeroAmount);
        }
        let ghost rs = self.reserves@;
        let n = self.reserves.len() as u128;
        let ann = match amp_times_n_pow_n(self.amplification_coefficient, n) {
            Some(v) => v,
            None => return Err(SwapError::MathOverflow),
        };
        let d = match self.get_d() {
            Ok(v) => v,
            Err(e) => return Err(e),
        };
        let mut sum_excluding_j: u128 = 0;
        let mut c: u128 = d;
        let mut k: usize = 0;
        while k < self.reserves.len()
            invariant
                rs == self.reserves@,
                n == rs.len(),
                k <= rs.len(),
                indices_valid(rs, i as int, j as int),
                dx > 0,
                amp_factor(self.amplification_coefficient as int, rs.len()) == Some(ann as int),
                invariant_d(rs, self.amplification_coefficient as int) == Ok::<u128, SwapError>(d),
                c_fold(rs, i as int, j as int, dx as int, d as int, k as nat) == Some(
                    (sum_excluding_j as int, c as int),
                ),
            decreases rs.len() - k,
        {
            if k != j {
                let x = if k == i {
                    self.reserves[k].checked_add(dx)
                } else {
                    Some(self.reserves[k])
                };
                let next = match x {
                    Some(x) => match (sum_excluding_j.checked_add(x), c.checked_mul(d), x.checked_mul(n)) {
                        (Some(sv), Some(nv), Some(dv)) => if dv == 0 {
                            None
                        } else {
                            Some((sv, nv / dv))
                        },
                        _ => None,
                    },
                    None => None,
                };
                match next {
                    Some((sv, cv)) => {
                        sum_excluding_j = sv;
                        c = cv;
                    },
                    None => {
                        proof {
                            let (ii, jj, a) = (i as int, j as int, dx as int);
                            lemma_c_fold_stays_none(rs, ii, jj, a, d as int, (k + 1) as nat, rs.len());
                        }
                        return Err(SwapError::MathOverflow);
                    },
                }
            }
            k = k + 1;
        }
        let c_full = match c.checked_mul(d) {
            Some(v) => v / ann / n,
            None => return Err(SwapError::MathOverflow),
        };
        let b = match sum_excluding_j.checked_add(d / ann) {
            Some(v) => v,
            None => return Err(SwapError::MathOverflow),
        };
        let ghost target = y_solve(
            c_full as int,
            b as int,
            d as int,
            d as int,
            MAX_ITERATIONS as nat,
        );
        let mut y: u128 = d;
        let mut it: u32 = 0;
        let mut done = false;
        while !done && it < MAX_ITERATIONS
            invariant
                rs == self.reserves@,
                n == rs.len(),
                indices_valid(rs, i as int, j as int),
                dx > 0,
                amp_factor(self.amplification_coefficient as int, rs.len()) == Some(ann as int),
                invariant_d(rs, self.amplification_coefficient as int) == Ok::<u128, SwapError>(d),
                c_fold(rs, i as int, j as int, dx as int, d as int, rs.len()) == Some(
                    (sum_excluding_j as int, c as int),
                ),
                c * d <= u128::MAX,
                c_full == (c as int) * (d as int) / (ann as int) / (n as int),
                b == sum_excluding_j + (d as int) / (ann as int),
                it <= MAX_ITERATIONS,
                target == y_solve(c_full as int, b as int, d as int, d as int, MAX_ITERATIONS as nat),
                done ==> target == Some(y as int),
                !done ==> target == y_solve(
                    c_full as int,
                    b as int,
                    d as int,
                    y as int,
                    (MAX_ITERATIONS - it) as nat,
                ),
            decreases MAX_ITERATIONS - it,
        {
            let next = match y_update(c_full, b, d, y) {
                Some(v) => v,
                None => {
                    proof {
                        assert((MAX_ITERATIONS - it) as nat > 0);
                    }
                    return Err(SwapError::MathOverflow);
                },
            };
            if (next >= y && next - y <= 1) || (next < y && y - next <= 1) {
                done = true;
            }
            y = next;
            it = it + 1;
        }
        let old_y = self.reserves[j];
        if y > old_y {
            return Err(SwapError::InsufficientLiquidity);
        }
        apply_fee(old_y - y, fee_bps)
    }

    /// Deviation in basis points of the output before fee from a 1:1
    /// exchange of `dx`; zero for invalid indices, a zero amount, or a quote
    /// that fails.
    pub fn calculate_slippage_bps(&self, i: usize, j: usize, dx: u128) -> (r: i32)
        ensures
            i == j ==> r == 0,
            r == if quote_arguments_valid(self.reserves@, i as int, j as int, dx as int) {
                match stable_quote(
                    self.reserves@,
                    self.amplification_coefficient as int,
                    0,
                    i as int,
                    j as int,
                    dx as int,
                ) {
                    Ok(v) => slippage_of(dx as int, v as int),
                    Err(_) => 0,
                }
            } else {
                0
            },
    {
        if i == j || i >= self.reserves.len() || j >= self.reserves.len() || dx == 0 {
            return 0;
        }
        match self.get_dy(i, j, dx, 0) {
            Ok(actual) => slippage_bps(dx, actual),
            Err(_) => 0,
        }
    }
}

/// Whether Newton's method for the invariant, from `d`, reaches a step that
/// moves by at most one within `fuel` steps.
pub open spec fn d_converges(rs: Seq<u128>, ann: int, s: int, d: int, fuel: nat) -> bool
    decreases fuel,
{
    if fuel == 0 {
        false
    } else {
        match d_step(rs, ann, s, d) {
            None => false,
            Some(next) => close(next, d) || d_converges(rs, ann, s, next, (fuel - 1) as nat),
        }
    }
}

/// One Newton update of the invariant of reserves `rs` under amplification
/// `a`, from `d`.
pub open spec fn invariant_update(rs: Seq<u128>, a: int, d: int) -> Option<int> {
    match amp_factor(a, rs.len()) {
        None => None,
        Some(ann) => d_step(rs, ann, sum_prefix(rs, rs.len() as int), d),
    }
}

/// Whether the solve for the invariant of `rs` under amplification `a`
/// settles within its step limit.
pub open spec fn invariant_settles(rs: Seq<u128>, a: int) -> bool {
    match amp_factor(a, rs.len()) {
        None => false,
        Some(ann) => {
            let s = sum_prefix(rs, rs.len() as int);
            d_converges(rs, ann, s, s, MAX_ITERATIONS as nat)
        },
    }
}

proof fn lemma_d_solve_settles(rs: Seq<u128>, ann: int, s: int, d: int, fuel: nat)
    requires
        d_converges(rs, ann, s, d, fuel),
    ensures
        d_solve(rs, ann, s, d, fuel) matches Some(r) ==> exists|p: int|
            d_step(rs, ann, s, p) == Some(r) && close(r, p),
    decreases fuel,
{
    let next = d_step(rs, ann, s, d)->Some_0;
    if close(next, d) {
        assert(d_step(rs, ann, s, d) == Some(next) && close(next, d));
    } else {
        lemma_d_solve_settles(rs, ann, s, next, (fuel - 1) as nat);
    }
}

proof fn lemma_d_product_nonneg(rs: Seq<u128>, d: int, n: int, k: nat)
    requires
        all_positive(rs),
        d >= 0,
        n > 0 || k == 0,
        k <= rs.len(),
    ensures
        d_product(rs, d, n, k) matches Some(p) ==> p >= 0,
    decreases k,
{
    if k > 0 {
        lemma_d_product_nonneg(rs, d, n, (k - 1) as nat);
        if let Some(p) = d_product(rs, d, n, (k - 1) as nat) {
            let r = rs[k - 1] as int;
            assert(p * d / r / n >= 0) by (nonlinear_arith)
                requires
                    p >= 0,
                    d >= 0,
                    r > 0,
                    n > 0,
            ;
        }
    }
}

proof fn lemma_d_solve_bounded(rs: Seq<u128>, ann: int, s: int, d: int, fuel: nat)
    requires
        all_positive(rs),
        ann >= 1,
        s >= 0,
        0 <= d <= u128::MAX,
    ensures
        d_solve(rs, ann, s, d, fuel) matches Some(r) ==> 0 <= r <= u128::MAX,
    decreases fuel,
{
    if fuel > 0 {
        let n = rs.len() as int;
        lemma_d_product_nonneg(rs, d, n, rs.len());
        if let Some(next) = d_step(rs, ann, s, d) {
            let p = d_product(rs, d, n, rs.len())->Some_0;
            let num = (ann * s + n * p) * d;
            let den = (ann - 1) * d + (n + 1) * p;
            assert(den >= 0) by (nonlinear_arith)
                requires
                    ann >= 1,
                    d >= 0,
                    n >= 0,
                    p >= 0,
                    den == (ann - 1) * d + (n + 1) * p,
            ;
            assert(0 <= num / den <= num) by (nonlinear_arith)
                requires
                    ann >= 0,
                    s >= 0,
                    n >= 0,
                    p >= 0,
                    d >= 0,
                    num == (ann * s + n * p) * d,
                    den > 0,
            ;
            lemma_d_solve_bounded(rs, ann, s, next, (fuel - 1) as nat);
        }
    }
}

/// Where the invariant solve settles within its step limit, the invariant it
/// returns is the result of an update that moved by at most one.
pub proof fn lemma_invariant_settled(rs: Seq<u128>, a: int)
    requires
        invariant_settles(rs, a),
    ensures
        invariant_d(rs, a) matches Ok(d) ==> exists|p: int| #[trigger]
            invariant_update(rs, a, p) == Some(d as int) && close(d as int, p),
{
    let s = sum_prefix(rs, rs.len() as int);
    let ann = amp_factor(a, rs.len())->Some_0;
    lemma_d_solve_settles(rs, ann, s, s, MAX_ITERATIONS as nat);
    if invariant_d(rs, a) is Ok {
        lemma_sum_prefix_grows(rs, 0, rs.len() as int);
        lemma_d_solve_bounded(rs, ann, s, s, MAX_ITERATIONS as nat);
        let r = d_solve(rs, ann, s, s, MAX_ITERATIONS as nat)->Some_0;
        let p = choose|p: int| d_step(rs, ann, s, p) == Some(r) && close(r, p);
        assert(invariant_update(rs, a, p) == Some(r) && close(r, p));
        assert(exists|p0: int| #[trigger]
            invariant_update(rs, a, p0) == Some((r as u128) as int) && close((r as u128) as int, p0));
    }
}

/// A StableSwap quote that succeeds never pays out more than the pre-trade
/// reserve of the output token, whatever the fee.
pub proof fn lemma_stable_within_reserve(
    rs: Seq<u128>,
    a: int,
    fee_bps: int,
    i: int,
    j: int,
    dx: int,
)
    requires
        fee_bps >= 0,
        dx >= 0,
    ensures
        stable_quote(rs, a, fee_bps, i, j, dx) matches Ok(v) ==> 0 <= j < rs.len() && v <= rs[j],
{
    if indices_valid(rs, i, j) && dx != 0 && stable_quote(rs, a, fee_bps, i, j, dx) is Ok {
        let ann = amp_factor(a, rs.len())->Some_0;
        let d = invariant_d(rs, a)->Ok_0 as int;
        let acc = c_fold(rs, i, j, dx, d, rs.len())->Some_0;
        let n = rs.len() as int;
        lemma_c_fold_nonneg(rs, i, j, dx, d, rs.len());
        assert(acc.1 * d >= 0) by (nonlinear_arith)
            requires
                acc.1 >= 0,
                d >= 0,
        ;
        assert(acc.1 * d / ann / n >= 0) by (nonlinear_arith)
            requires
                acc.1 * d >= 0,
                ann > 0,
                n > 0,
        ;
        let c = acc.1 * d / ann / n;
        let bb = acc.0 + d / ann;
        lemma_y_solve_nonneg(c, bb, d, d, MAX_ITERATIONS as nat);
        let y = y_solve(c, bb, d, d, MAX_ITERATIONS as nat)->Some_0;
        lemma_fee_not_above(rs[j] - y, fee_bps);
    }
}

proof fn lemma_c_fold_nonneg(rs: Seq<u128>, i: int, j: int, dx: int, d: int, k: nat)
    requires
        d >= 0,
        dx >= 0,
        k <= rs.len(),
    ensures
        c_fold(rs, i, j, dx, d, k) matches Some(acc) ==> acc.0 >= 0 && acc.1 >= 0,
    decreases k,
{
    if k > 0 {
        lemma_c_fold_nonneg(rs, i, j, dx, d, (k - 1) as nat);
        if let Some(acc) = c_fold(rs, i, j, dx, d, (k - 1) as nat) {
            let m = k - 1;
            let n = rs.len() as int;
            let x = if m == i {
                rs[m] + dx
            } else {
                rs[m] as int
            };
            if x * n > 0 {
                assert(acc.1 * d / (x * n) >= 0) by (nonlinear_arith)
                    requires
                        acc.1 >= 0,
                        d >= 0,
                        x * n > 0,
                ;
            }
        }
    }
}

proof fn lemma_y_solve_nonneg(c: int, b: int, d: int, y: int, fuel: nat)
    requires
        c >= 0,
        y >= 0,
    ensures
        y_solve(c, b, d, y, fuel) matches Some(r) ==> r >= 0,
    decreases fuel,
{
    if fuel > 0 {
        if let Some(next) = y_step(c, b, d, y) {
            assert((y * y + c) / (2 * y + b - d) >= 0) by (nonlinear_arith)
                requires
                    c >= 0,
                    2 * y + b - d > 0,
            ;
            lemma_y_solve_nonneg(c, b, d, next, (fuel - 1) as nat);
        }
    }
}

/// Two pools with the same reserves and amplification give the same
/// invariant, the same quote and the same slippage for the same trade.
pub proof fn lemma_stable_reproducible(
    p: StableSwapPool,
    q: StableSwapPool,
    fee_bps: int,
    i: int,
    j: int,
    dx: int,
)
    requires
        p.reserves@ == q.reserves@,
        p.amplification_coefficient == q.amplification_coefficient,
    ensures
        invariant_d(p.reserves@, p.amplification_coefficient as int) == invariant_d(
            q.reserves@,
            q.amplification_coefficient as int,
        ),
        stable_quote(p.reserves@, p.amplification_coefficient as int, fee_bps, i, j, dx)
            == stable_quote(q.reserves@, q.amplification_coefficient as int, fee_bps, i, j, dx),
{
}

} // verus!
