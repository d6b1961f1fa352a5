use pallet_swap::{Direction, Error, LiquidityPosition, Pool, Pools, U256};

fn n(v: u128) -> U256 {
    U256::from_u128(v)
}

fn pool(token_id: u128, tokens: u128, currency: u128, shares: u128) -> Pool {
    Pool {
        token_id,
        token_reserve: n(tokens),
        currency_reserve: n(currency),
        total_shares: n(shares),
    }
}

#[test]
fn new_pools_are_empty() {
    let pools = Pools::new();
    assert_eq!(pools.pool(7), pool(7, 0, 0, 0));
    assert_eq!(pools.position(7, 1), n(0));
}

#[test]
fn first_deposit_sets_the_reserves_and_mints_the_token_amount() {
    let mut pools = Pools::new();
    assert_eq!(pools.add_liquidity(1, 7, n(1000), n(400)), Ok((n(400), n(1000))));
    assert_eq!(pools.pool(7), pool(7, 1000, 400, 1000));
    assert_eq!(pools.position(7, 1), n(1000));
    assert_eq!(pools.position(7, 2), n(0));
    assert_eq!(pools.pool(8), pool(8, 0, 0, 0));
}

#[test]
fn later_deposit_takes_currency_in_proportion() {
    let mut pools = Pools::new();
    assert_eq!(pools.add_liquidity(1, 7, n(1000), n(400)), Ok((n(400), n(1000))));
    // 250 * 400 / 1000 = 100 currency, 1000 * 250 / 1000 = 250 shares.
    assert_eq!(pools.add_liquidity(2, 7, n(250), n(500)), Ok((n(100), n(250))));
    assert_eq!(pools.pool(7), pool(7, 1250, 500, 1250));
    assert_eq!(pools.position(7, 1), n(1000));
    assert_eq!(pools.position(7, 2), n(250));
    // 3 * 500 / 1250 = 1 currency, 1250 * 3 / 1250 = 3 shares.
    assert_eq!(pools.add_liquidity(2, 7, n(3), n(1)), Ok((n(1), n(3))));
    assert_eq!(pools.pool(7), pool(7, 1253, 501, 1253));
    assert_eq!(pools.position(7, 2), n(253));
}

#[test]
fn deposit_rejects_zero_amounts() {
    let mut pools = Pools::new();
    assert_eq!(pools.add_liquidity(1, 7, n(0), n(400)), Err(Error::ZeroTokens));
    assert_eq!(pools.add_liquidity(1, 7, n(1000), n(0)), Err(Error::ZeroAmount));
    assert_eq!(pools.add_liquidity(1, 7, n(0), n(0)), Err(Error::ZeroTokens));
    assert_eq!(pools.pool(7), pool(7, 0, 0, 0));
}

#[test]
fn deposit_rejects_too_little_currency() {
    let mut pools = Pools::new();
    assert_eq!(pools.add_liquidity(1, 7, n(1000), n(400)), Ok((n(400), n(1000))));
    assert_eq!(pools.add_liquidity(2, 7, n(250), n(99)), Err(Error::NotEnoughCurrency));
    assert_eq!(pools.add_liquidity(2, 7, n(250), n(100)), Ok((n(100), n(250))));
}

#[test]
fn deposit_rejects_what_would_mint_nothing() {
    let grown = pool(7, 1100, 910, 1000);
    // 1 * 910 / 1100 = 0 currency, 1000 * 1 / 1100 = 0 shares.
    assert_eq!(grown.deposit_terms(n(1), n(1)), Err(Error::RequestedZeroLiquidity));
    // 2 * 910 / 1100 = 1 currency, 1000 * 2 / 1100 = 1 share.
    assert_eq!(grown.deposit_terms(n(2), n(1)), Ok((n(1), n(1))));
}

#[test]
fn deposit_rejects_too_many_tokens() {
    let half = U256 { w0: 0, w1: 0, w2: 0, w3: 1 << 63 };
    let big = Pool { token_id: 7, token_reserve: half, currency_reserve: n(1), total_shares: n(1) };
    assert_eq!(big.deposit_terms(half, n(1)), Err(Error::TooManyTokens));
    let rich = Pool {
        token_id: 7,
        token_reserve: n(1),
        currency_reserve: U256::max_value(),
        total_shares: n(1),
    };
    assert_eq!(rich.deposit_terms(n(1), U256::max_value()), Err(Error::StorageOverflow));
    assert_eq!(rich.deposit_terms(n(2), U256::max_value()), Err(Error::StorageOverflow));
}

#[test]
fn withdrawal_pays_the_burnt_part() {
    let mut pools = Pools::new();
    assert_eq!(pools.add_liquidity(1, 7, n(1000), n(400)), Ok((n(400), n(1000))));
    assert_eq!(pools.add_liquidity(2, 7, n(250), n(500)), Ok((n(100), n(250))));
    // 1250 * 100 / 1250 = 100 tokens, 500 * 100 / 1250 = 40 currency.
    assert_eq!(pools.remove_liquidity(2, 7, n(100)), Ok((n(100), n(40))));
    assert_eq!(pools.pool(7), pool(7, 1150, 460, 1150));
    assert_eq!(pools.position(7, 2), n(150));
    // 1150 * 7 / 1150 = 7 tokens, 460 * 7 / 1150 = 2 currency, rounded down.
    assert_eq!(pools.remove_liquidity(2, 7, n(7)), Ok((n(7), n(2))));
    assert_eq!(pools.pool(7), pool(7, 1143, 458, 1143));
}

#[test]
fn withdrawal_of_all_shares_empties_the_pool() {
    let mut pools = Pools::new();
    assert_eq!(pools.add_liquidity(1, 7, n(1000), n(400)), Ok((n(400), n(1000))));
    assert_eq!(pools.swap(7, Direction::TokenIn, n(100), None, None), Ok(n(36)));
    assert_eq!(pools.pool(7), pool(7, 1100, 364, 1000));
    assert_eq!(pools.remove_liquidity(1, 7, n(1000)), Ok((n(1100), n(364))));
    assert_eq!(pools.pool(7), pool(7, 0, 0, 0));
    assert_eq!(pools.position(7, 1), n(0));
    // The pool can be started anew.
    assert_eq!(pools.add_liquidity(2, 7, n(5), n(9)), Ok((n(9), n(5))));
    assert_eq!(pools.pool(7), pool(7, 5, 9, 5));
}

#[test]
fn withdrawal_rejects_zero_shares_and_missing_liquidity() {
    let mut pools = Pools::new();
    assert_eq!(pools.remove_liquidity(1, 7, n(0)), Err(Error::BurnZeroShares));
    assert_eq!(pools.remove_liquidity(1, 7, n(1)), Err(Error::NoLiquidity));
    assert_eq!(pools.add_liquidity(1, 7, n(1000), n(400)), Ok((n(400), n(1000))));
    assert_eq!(pools.remove_liquidity(1, 7, n(0)), Err(Error::BurnZeroShares));
    assert_eq!(pools.remove_liquidity(1, 7, n(1001)), Err(Error::NoLiquidity));
    assert_eq!(pools.remove_liquidity(2, 7, n(1)), Err(Error::NoLiquidity));
    assert_eq!(pools.remove_liquidity(1, 8, n(1)), Err(Error::NoLiquidity));
    assert_eq!(pools.pool(7), pool(7, 1000, 400, 1000));
    assert_eq!(pools.position(7, 1), n(1000));
}

#[test]
fn swap_moves_the_reserves() {
    let mut pools = Pools::new();
    assert_eq!(pools.add_liquidity(1, 7, n(1000), n(1000)), Ok((n(1000), n(1000))));
    assert_eq!(pools.swap(7, Direction::TokenIn, n(100), None, None), Ok(n(90)));
    assert_eq!(pools.pool(7), pool(7, 1100, 910, 1000));
    // 200 in, 199 after the fee; 1100 * 199 / 1109 = 197.
    assert_eq!(pools.swap(7, Direction::CurrencyIn, n(200), None, None), Ok(n(197)));
    assert_eq!(pools.pool(7), pool(7, 903, 1110, 1000));
    assert_eq!(pools.position(7, 1), n(1000));
}

#[test]
fn swap_of_nothing_changes_nothing() {
    let mut pools = Pools::new();
    assert_eq!(pools.add_liquidity(1, 7, n(1000), n(1000)), Ok((n(1000), n(1000))));
    assert_eq!(pools.swap(7, Direction::TokenIn, n(0), None, None), Ok(n(0)));
    assert_eq!(pools.pool(7), pool(7, 1000, 1000, 1000));
}

#[test]
fn swap_fails_on_an_empty_pool() {
    let mut pools = Pools::new();
    assert_eq!(
        pools.swap(7, Direction::TokenIn, n(100), None, None),
        Err(Error::TooLowLiquidity)
    );
    assert_eq!(
        pools.swap(7, Direction::CurrencyIn, n(100), Some(n(1)), Some(n(1000))),
        Err(Error::TooLowLiquidity)
    );
}

#[test]
fn swap_keeps_within_its_bounds() {
    let mut pools = Pools::new();
    assert_eq!(pools.add_liquidity(1, 7, n(1000), n(1000)), Ok((n(1000), n(1000))));
    assert_eq!(
        pools.swap(7, Direction::TokenIn, n(100), None, Some(n(91))),
        Err(Error::TooExpensiveTokens)
    );
    assert_eq!(
        pools.swap(7, Direction::TokenIn, n(100), Some(n(99)), None),
        Err(Error::TooExpensiveTokens)
    );
    assert_eq!(
        pools.swap(7, Direction::CurrencyIn, n(100), None, Some(n(91))),
        Err(Error::TooExpensiveCurrency)
    );
    assert_eq!(
        pools.swap(7, Direction::CurrencyIn, n(100), Some(n(99)), None),
        Err(Error::TooExpensiveCurrency)
    );
    assert_eq!(pools.pool(7), pool(7, 1000, 1000, 1000));
    assert_eq!(
        pools.swap(7, Direction::CurrencyIn, n(100), Some(n(100)), Some(n(90))),
        Ok(n(90))
    );
    assert_eq!(pools.pool(7), pool(7, 910, 1100, 1000));
}

#[test]
fn swap_fails_where_a_reserve_would_overflow() {
    let big = Pool {
        token_id: 7,
        token_reserve: U256::max_value(),
        currency_reserve: n(1000),
        total_shares: n(10),
    };
    assert_eq!(
        big.swap_terms(Direction::TokenIn, n(1), None, None),
        Err(Error::StorageOverflow)
    );
    assert_eq!(
        big.swap_terms(Direction::TokenIn, n(2), None, None),
        Err(Error::StorageOverflow)
    );
    assert_eq!(big.swap_terms(Direction::TokenIn, n(0), None, None), Ok(n(0)));
}

#[test]
fn product_of_the_reserves_never_falls_over_swaps() {
    let mut pools = Pools::new();
    assert_eq!(pools.add_liquidity(1, 7, n(1000), n(3000)), Ok((n(3000), n(1000))));
    let amounts: [u128; 8] = [1, 2, 10, 999, 100, 5000, 3, 70];
    let mut last: u128 = 1000 * 3000;
    let mut i = 0;
    while i < amounts.len() {
        let direction = if i % 2 == 0 { Direction::TokenIn } else { Direction::CurrencyIn };
        assert!(pools.swap(7, direction, n(amounts[i]), None, None).is_ok());
        let p = pools.pool(7);
        let product = p.token_reserve.to_u128().unwrap() * p.currency_reserve.to_u128().unwrap();
        assert!(product >= last);
        assert!(p.token_reserve.to_u128().unwrap() > 0);
        assert!(p.currency_reserve.to_u128().unwrap() > 0);
        assert_eq!(p.total_shares, n(1000));
        last = product;
        i += 1;
    }
    assert!(last > 1000 * 3000);
}

#[test]
fn reserves_of_a_pool_go_by_direction() {
    let p = pool(7, 11, 22, 33);
    assert_eq!(p.reserve_in(Direction::TokenIn), n(11));
    assert_eq!(p.reserve_out(Direction::TokenIn), n(22));
    assert_eq!(p.reserve_in(Direction::CurrencyIn), n(22));
    assert_eq!(p.reserve_out(Direction::CurrencyIn), n(11));
    assert_eq!(Direction::TokenIn.too_expensive(), Error::TooExpensiveTokens);
    assert_eq!(Direction::CurrencyIn.too_expensive(), Error::TooExpensiveCurrency);
    assert_eq!(Pool::empty(9), pool(9, 0, 0, 0));
}

fn position(token_id: u128, account: u64, shares: u128) -> LiquidityPosition {
    LiquidityPosition { token_id, account, shares: n(shares) }
}

#[test]
fn pools_and_positions_list_the_store_and_restore_takes_them_back() {
    let mut pools = Pools::new();
    assert_eq!(pools.add_liquidity(1, 7, n(1000), n(400)), Ok((n(400), n(1000))));
    assert_eq!(pools.add_liquidity(2, 7, n(250), n(500)), Ok((n(100), n(250))));
    assert_eq!(pools.add_liquidity(2, 8, n(5), n(6)), Ok((n(6), n(5))));
    assert_eq!(pools.pools(), vec![pool(7, 1250, 500, 1250), pool(8, 5, 6, 5)]);
    assert_eq!(
        pools.positions(),
        vec![position(7, 1, 1000), position(7, 2, 250), position(8, 2, 5)]
    );
    let again = Pools::restore(pools.pools(), pools.positions()).unwrap();
    assert_eq!(again.pool(7), pool(7, 1250, 500, 1250));
    assert_eq!(again.pool(8), pool(8, 5, 6, 5));
    assert_eq!(again.pool(9), pool(9, 0, 0, 0));
    assert_eq!(again.position(7, 1), n(1000));
    assert_eq!(again.position(7, 2), n(250));
    assert_eq!(again.position(8, 2), n(5));
    assert_eq!(again.position(8, 1), n(0));
}

#[test]
fn restore_refuses_what_are_no_pools() {
    assert!(Pools::restore(vec![], vec![]).is_some());
    assert!(Pools::restore(vec![pool(7, 10, 20, 30)], vec![position(7, 1, 30)]).is_some());
    assert!(Pools::restore(
        vec![pool(7, 10, 20, 30)],
        vec![position(7, 1, 10), position(7, 2, 20), position(8, 1, 0)]
    )
    .is_some());
    assert!(Pools::restore(vec![pool(7, 0, 0, 0)], vec![]).is_some());
    // Two pools of one token, or two positions of one account in one pool.
    assert!(Pools::restore(vec![pool(7, 0, 0, 0), pool(7, 0, 0, 0)], vec![]).is_none());
    assert!(Pools::restore(
        vec![pool(7, 10, 20, 30)],
        vec![position(7, 1, 10), position(7, 1, 20)]
    )
    .is_none());
    // A pool with shares and without a reserve, or the other way round.
    assert!(Pools::restore(vec![pool(7, 0, 20, 30)], vec![position(7, 1, 30)]).is_none());
    assert!(Pools::restore(vec![pool(7, 10, 0, 30)], vec![position(7, 1, 30)]).is_none());
    assert!(Pools::restore(vec![pool(7, 10, 20, 0)], vec![]).is_none());
    // Shares that do not sum to those of the pool.
    assert!(Pools::restore(vec![pool(7, 10, 20, 30)], vec![position(7, 1, 29)]).is_none());
    assert!(Pools::restore(vec![pool(7, 10, 20, 30)], vec![]).is_none());
    assert!(Pools::restore(vec![], vec![position(7, 1, 1)]).is_none());
    assert!(Pools::restore(
        vec![pool(7, 10, 20, 30)],
        vec![position(7, 1, 30), position(8, 1, 1)]
    )
    .is_none());
    let most = LiquidityPosition { token_id: 7, account: 1, shares: U256::max_value() };
    assert!(Pools::restore(vec![pool(7, 10, 20, 30)], vec![most, position(7, 2, 31)]).is_none());
}
