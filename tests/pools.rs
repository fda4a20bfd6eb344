use stable_swaplib::{apply_fee, slippage_bps, ConstantProductPool, StableSwapPool, SwapError};

fn stable(reserves: Vec<u128>, amp: u128, fee: u16) -> StableSwapPool {
    StableSwapPool::new(reserves, amp, fee).unwrap()
}

fn product(reserves: Vec<u128>, fee: u16) -> ConstantProductPool {
    ConstantProductPool::new(reserves, fee).unwrap()
}

/// One Newton update of the invariant for a two-token pool, written out.
fn two_token_update(r: [u128; 2], amp: u128, d: u128) -> u128 {
    let n: u128 = 2;
    let ann = amp * 4;
    let s = r[0] + r[1];
    let mut p = d;
    for x in r {
        p = p * d / x / n;
    }
    (ann * s + n * p) * d / ((ann - 1) * d + (n + 1) * p)
}

#[test]
fn too_few_reserves_are_refused() {
    assert_eq!(ConstantProductPool::new(vec![], 6).err(), Some(SwapError::PoolSizeTooSmall));
    assert_eq!(ConstantProductPool::new(vec![7], 6).err(), Some(SwapError::PoolSizeTooSmall));
    assert_eq!(StableSwapPool::new(vec![], 85, 6).err(), Some(SwapError::PoolSizeTooSmall));
    assert_eq!(StableSwapPool::new(vec![7], 85, 6).err(), Some(SwapError::PoolSizeTooSmall));
    assert!(ConstantProductPool::new(vec![1, 2], 6).is_ok());
    assert!(StableSwapPool::new(vec![1, 2], 85, 6).is_ok());
}

#[test]
fn equal_indices_are_refused() {
    let cp = product(vec![300, 1000], 6);
    let ss = stable(vec![300, 1000], 85, 6);
    assert_eq!(cp.get_dy(1, 1, 400), Err(SwapError::InvalidIndex));
    assert_eq!(ss.get_dy(0, 0, 400, 6), Err(SwapError::InvalidIndex));
    assert_eq!(cp.calculate_slippage_bps(1, 1, 400), 0);
    assert_eq!(ss.calculate_slippage_bps(0, 0, 400), 0);
}

#[test]
fn out_of_range_indices_are_refused() {
    let cp = product(vec![300, 1000], 6);
    let ss = stable(vec![300, 1000], 85, 6);
    assert_eq!(cp.get_dy(0, 2, 400), Err(SwapError::InvalidIndex));
    assert_eq!(ss.get_dy(5, 1, 400, 0), Err(SwapError::InvalidIndex));
    assert_eq!(cp.calculate_slippage_bps(2, 0, 400), 0);
    assert_eq!(ss.calculate_slippage_bps(0, 9, 400), 0);
}

#[test]
fn zero_amount_is_refused() {
    let cp = product(vec![300, 1000], 6);
    let ss = stable(vec![300, 1000], 85, 6);
    assert_eq!(cp.get_dy(0, 1, 0), Err(SwapError::ZeroAmount));
    assert_eq!(ss.get_dy(0, 1, 0, 6), Err(SwapError::ZeroAmount));
    assert_eq!(cp.calculate_slippage_bps(0, 1, 0), 0);
    assert_eq!(ss.calculate_slippage_bps(0, 1, 0), 0);
}

#[test]
fn constant_product_with_fee() {
    let cp = product(vec![300, 1000], 6);
    assert_eq!(cp.get_dy(0, 1, 400), Ok(570));
    assert_eq!(cp.calculate_slippage_bps(0, 1, 400), -4250);
}

#[test]
fn constant_product_without_fee() {
    let cp = product(vec![300, 1000], 0);
    assert_eq!(cp.get_dy(0, 1, 400), Ok(571));
}

#[test]
fn constant_product_sample_pools() {
    assert_eq!(product(vec![500_000, 500_000], 10).get_dy(0, 1, 10_000), Ok(9793));
    assert_eq!(product(vec![500_000, 500_000], 10).calculate_slippage_bps(0, 1, 10_000), 207);
    assert_eq!(product(vec![1_000_000, 200_000], 4).get_dy(0, 1, 50_000), Ok(9519));
    assert_eq!(product(vec![1_000_000, 200_000], 4).calculate_slippage_bps(0, 1, 50_000), 8096);
    let three = product(vec![800_000, 1_200_000, 1_000_000], 8);
    assert_eq!(three.get_dy(0, 2, 25_000), Ok(30278));
    assert_eq!(three.calculate_slippage_bps(0, 2, 25_000), -2111);
}

#[test]
fn stable_small_unbalanced_pool() {
    let ss = stable(vec![300, 1000], 85, 6);
    assert_eq!(ss.get_d(), Ok(1298));
    assert_eq!(ss.get_dy(0, 1, 400, 6), Ok(401));
    assert_eq!(ss.get_dy(0, 1, 400, 0), Ok(402));
    assert_eq!(ss.calculate_slippage_bps(0, 1, 400), -50);
}

#[test]
fn stable_balanced_pool() {
    let ss = stable(vec![500_000, 500_000], 100, 10);
    assert_eq!(ss.get_d(), Ok(1_000_000));
    assert_eq!(ss.get_dy(0, 1, 10_000, 10), Ok(9990));
    assert_eq!(ss.get_dy(0, 1, 10_000, 0), Ok(10_000));
    assert_eq!(ss.calculate_slippage_bps(0, 1, 10_000), 0);
}

#[test]
fn stable_skewed_pool() {
    let ss = stable(vec![1_000_000, 200_000], 50, 4);
    assert_eq!(ss.get_d(), Ok(1_195_302));
    assert_eq!(ss.get_dy(0, 1, 50_000, 4), Ok(47_337));
    assert_eq!(ss.calculate_slippage_bps(0, 1, 50_000), 529);
}

#[test]
fn stable_three_token_pool() {
    let ss = stable(vec![800_000, 1_200_000, 1_000_000], 200, 8);
    assert_eq!(ss.get_d(), Ok(2_999_976));
    assert_eq!(ss.get_dy(0, 2, 25_000, 8), Ok(24_983));
    assert_eq!(ss.calculate_slippage_bps(0, 2, 25_000), -2);
}

#[test]
fn stable_slippage_ignores_the_pool_fee() {
    let with_fee = stable(vec![300, 1000], 85, 6);
    let without_fee = stable(vec![300, 1000], 85, 0);
    assert_eq!(with_fee.calculate_slippage_bps(0, 1, 400), without_fee.calculate_slippage_bps(0, 1, 400));
}

#[test]
fn invariant_is_settled() {
    for (r, amp) in [([300u128, 1000u128], 85u128), ([500_000, 500_000], 100), ([1_000_000, 200_000], 50)] {
        let d = stable(r.to_vec(), amp, 0).get_d().unwrap();
        let next = two_token_update(r, amp, d);
        assert!(next.abs_diff(d) <= 1);
    }
}

#[test]
fn invariant_of_equal_reserves_is_their_sum() {
    assert_eq!(stable(vec![500_000, 500_000], 100, 10).get_d(), Ok(1_000_000));
    assert_eq!(stable(vec![7, 7, 7], 3, 0).get_d(), Ok(21));
}

#[test]
fn quotes_are_reproducible() {
    let a = stable(vec![1_000_000, 200_000], 50, 4);
    let b = stable(vec![1_000_000, 200_000], 50, 4);
    assert_eq!(a.get_dy(0, 1, 50_000, 4), a.get_dy(0, 1, 50_000, 4));
    assert_eq!(a.get_dy(0, 1, 50_000, 4), b.get_dy(0, 1, 50_000, 4));
    assert_eq!(a.calculate_slippage_bps(0, 1, 50_000), b.calculate_slippage_bps(0, 1, 50_000));
    assert_eq!(a.get_d(), b.get_d());
}

#[test]
fn rate_weakens_as_trade_grows() {
    let ss = stable(vec![500_000, 500_000], 100, 0);
    let cp = product(vec![500_000, 500_000], 0);
    let sizes: [u128; 4] = [100, 1000, 10_000, 100_000];
    let ss_out = [100u128, 1000, 10_000, 99_897];
    let cp_out = [99u128, 998, 9803, 83_333];
    for k in 0..sizes.len() {
        assert_eq!(ss.get_dy(0, 1, sizes[k], 0), Ok(ss_out[k]));
        assert_eq!(cp.get_dy(0, 1, sizes[k]), Ok(cp_out[k]));
    }
    // 99 for 100 against 998 for 1000: the floor lets the rate rise by less
    // than one unit of output.
    assert!(cp_out[1] * sizes[0] > cp_out[0] * sizes[1]);
    for k in 1..sizes.len() {
        assert!(ss_out[k] * sizes[k - 1] <= ss_out[k - 1] * sizes[k]);
        assert!(cp_out[k] * sizes[k - 1] < (cp_out[k - 1] + 1) * sizes[k]);
    }
}

#[test]
fn output_stays_within_reserve() {
    let ss = stable(vec![1000, 1000], 100, 0);
    assert_eq!(ss.get_dy(0, 1, 1_000_000, 0), Ok(1000));
    let cp = product(vec![1000, 1000], 0);
    assert_eq!(cp.get_dy(0, 1, 1_000_000_000), Ok(999));
}

#[test]
fn overflow_is_reported() {
    let max = u128::MAX;
    assert_eq!(stable(vec![max, max], 85, 0).get_dy(0, 1, 1, 0), Err(SwapError::MathOverflow));
    assert_eq!(stable(vec![max, 5], 85, 0).get_d(), Err(SwapError::MathOverflow));
    assert_eq!(product(vec![max, max], 0).get_dy(0, 1, 2), Err(SwapError::MathOverflow));
    assert_eq!(product(vec![max, 1], 0).get_dy(0, 1, 1), Err(SwapError::MathOverflow));
    assert_eq!(stable(vec![1, 1], max, 0).get_d(), Err(SwapError::MathOverflow));
    assert_eq!(stable(vec![max, max], 85, 0).calculate_slippage_bps(0, 1, 1), 0);
    assert_eq!(product(vec![max, max], 0).calculate_slippage_bps(0, 1, 2), 10_000);
}

#[test]
fn fee_above_one_whole_overflows() {
    assert_eq!(product(vec![300, 1000], 10_001).get_dy(0, 1, 400), Err(SwapError::MathOverflow));
    assert_eq!(stable(vec![300, 1000], 85, 0).get_dy(0, 1, 400, 10_001), Err(SwapError::MathOverflow));
    assert_eq!(product(vec![300, 1000], 10_000).get_dy(0, 1, 400), Ok(0));
}

#[test]
fn zero_reserve_is_insufficient_liquidity() {
    assert_eq!(stable(vec![100, 0], 85, 0).get_d(), Err(SwapError::InsufficientLiquidity));
    assert_eq!(stable(vec![100, 0], 85, 0).get_dy(0, 1, 5, 0), Err(SwapError::InsufficientLiquidity));
}

#[test]
fn zero_amplification_is_refused() {
    assert_eq!(stable(vec![100, 100], 0, 0).get_d(), Err(SwapError::InvalidIndex));
    assert_eq!(stable(vec![100, 100], 0, 0).get_dy(0, 1, 5, 0), Err(SwapError::InvalidIndex));
}

#[test]
fn fee_is_charged_by_floor() {
    assert_eq!(apply_fee(571, 6), Ok(570));
    assert_eq!(apply_fee(10_000, 10), Ok(9990));
    assert_eq!(apply_fee(5, 0), Ok(5));
    assert_eq!(apply_fee(u128::MAX, 1), Err(SwapError::MathOverflow));
}

#[test]
fn slippage_rounds_half_away_from_zero() {
    assert_eq!(slippage_bps(100, 150), -5000);
    assert_eq!(slippage_bps(3, 2), 3333);
    assert_eq!(slippage_bps(2, 1), 5000);
    assert_eq!(slippage_bps(20_000, 19_999), 1);
    assert_eq!(slippage_bps(20_000, 19_989), 6);
    assert_eq!(slippage_bps(20_000, 20_001), -1);
    assert_eq!(slippage_bps(20_000, 20_011), -6);
    assert_eq!(slippage_bps(400, 400), 0);
    assert_eq!(slippage_bps(7, 0), 10_000);
}

#[test]
fn slippage_is_clamped() {
    assert_eq!(slippage_bps(1, 5_000_000), i32::MIN);
    assert_eq!(slippage_bps(1, u128::MAX), i32::MIN);
    assert_eq!(slippage_bps(u128::MAX, 0), 10_000);
    assert_eq!(product(vec![10, 1_000_000_000_000], 0).calculate_slippage_bps(0, 1, 1), i32::MIN);
}

#[test]
fn rate_with_fee_weakens_within_two_units() {
    let cp = product(vec![500_000, 500_000], 10);
    let sizes: [u128; 4] = [100, 1000, 10_000, 100_000];
    let out = [98u128, 997, 9793, 83_249];
    for k in 0..sizes.len() {
        assert_eq!(cp.get_dy(0, 1, sizes[k]), Ok(out[k]));
    }
    for k in 1..sizes.len() {
        assert!(out[k] * sizes[k - 1] < (out[k - 1] + 2) * sizes[k]);
    }
}

#[test]
fn constructors_keep_their_fields() {
    let cp = ConstantProductPool::new(vec![300, 1000, 5], 10_001).unwrap();
    assert_eq!(cp.reserves, vec![300, 1000, 5]);
    assert_eq!(cp.fee_bps, 10_001);
    let ss = StableSwapPool::new(vec![0, 1000], 0, 6).unwrap();
    assert_eq!(ss.reserves, vec![0, 1000]);
    assert_eq!(ss.amplification_coefficient, 0);
    assert_eq!(ss.fee_bps, 6);
}
