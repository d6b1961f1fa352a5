use pallet_swap::pallet::{pays_in, pays_out};
use pallet_swap::{
    Asset, Config, Direction, Error, Event, MemoryLedger, Order, Pallet, Pool, U256,
};

fn n(v: u128) -> U256 {
    U256::from_u128(v)
}

fn pool(token_id: u128, tokens: u128, currency: u128, shares: u128) -> Pool {
    Pool {
        token_id,
        token_reserve: n(tokens),
        currency_reserve: n(currency),
        total_shares: n(shares),
    }
}

/// An exchange on which each listed account holds the given tokens and
/// currency.
fn exchange(token_id: u128, funds: &[(u64, u128, u128)]) -> Pallet<MemoryLedger> {
    let mut ledger = MemoryLedger::new();
    for (who, tokens, currency) in funds {
        assert_eq!(ledger.credit(*who, Asset::Token(token_id), n(*tokens)), Ok(()));
        assert_eq!(ledger.credit(*who, Asset::Currency, n(*currency)), Ok(()));
    }
    Pallet::new(ledger)
}

fn tokens(x: &Pallet<MemoryLedger>, who: u64, token_id: u128) -> U256 {
    x.balance(who, Asset::Token(token_id))
}

fn currency(x: &Pallet<MemoryLedger>, who: u64) -> U256 {
    x.balance(who, Asset::Currency)
}

#[test]
fn create_sell_order_rejects_zero_volume_and_zero_price() {
    let mut x = exchange(5, &[(1, 100, 0)]);
    assert_eq!(x.create_sell_order(1, 5, n(0), n(100)), Err(Error::ZeroTokens));
    assert_eq!(x.create_sell_order(1, 5, n(10), n(0)), Err(Error::ZeroAmount));
    assert_eq!(x.book().next_id(), 1);
    assert_eq!(tokens(&x, 1, 5), n(100));
}

#[test]
fn create_sell_order_opens_an_order_and_moves_nothing() {
    let mut x = exchange(5, &[(1, 100, 7)]);
    assert_eq!(
        x.create_sell_order(1, 5, n(10), n(100)),
        Ok(Event::SellOrderCreated(5, n(10), n(100), 1))
    );
    assert_eq!(tokens(&x, 1, 5), n(100));
    assert_eq!(currency(&x, 1), n(7));
    assert_eq!(x.book().open_orders(5), vec![1]);
    assert_eq!(
        x.book().get(1),
        Some(Order { id: 1, token_id: 5, seller: 1, volume: n(10), price: n(100) })
    );
    assert_eq!(x.book().next_id(), 2);
}

#[test]
fn create_sell_order_does_not_look_at_what_the_seller_holds() {
    let mut x = exchange(5, &[(1, 9, 0)]);
    assert_eq!(
        x.create_sell_order(1, 5, n(10), n(100)),
        Ok(Event::SellOrderCreated(5, n(10), n(100), 1))
    );
    assert_eq!(
        x.create_sell_order(2, 5, n(1), n(100)),
        Ok(Event::SellOrderCreated(5, n(1), n(100), 2))
    );
    assert_eq!(
        x.create_sell_order(1, 6, U256::max_value(), n(1)),
        Ok(Event::SellOrderCreated(6, U256::max_value(), n(1), 1))
    );
    assert_eq!(tokens(&x, 1, 5), n(9));
    assert_eq!(tokens(&x, 2, 5), n(0));
    assert_eq!(x.book().next_id(), 4);
    assert_eq!(
        x.book().get(3),
        Some(Order { id: 3, token_id: 6, seller: 1, volume: U256::max_value(), price: n(1) })
    );
}

#[test]
fn create_sell_order_rejects_the_same_open_offer() {
    let mut x = exchange(5, &[(1, 100, 0)]);
    assert!(x.create_sell_order(1, 5, n(10), n(100)).is_ok());
    assert_eq!(x.create_sell_order(1, 5, n(10), n(100)), Err(Error::SwapAlreadyExists));
    assert_eq!(x.book().next_id(), 2);
    // Another price or volume makes another offer, which stands beside it.
    assert_eq!(
        x.create_sell_order(1, 5, n(10), n(101)),
        Ok(Event::SellOrderCreated(5, n(10), n(101), 1))
    );
    assert_eq!(
        x.create_sell_order(1, 5, n(200), n(100)),
        Ok(Event::SellOrderCreated(5, n(200), n(100), 1))
    );
    assert_eq!(x.book().open_orders(5), vec![1, 2, 3]);
    assert_eq!(
        x.book().get(1),
        Some(Order { id: 1, token_id: 5, seller: 1, volume: n(10), price: n(100) })
    );
    assert_eq!(
        x.book().get(2),
        Some(Order { id: 2, token_id: 5, seller: 1, volume: n(10), price: n(101) })
    );
    assert_eq!(tokens(&x, 1, 5), n(100));
}

#[test]
fn cancel_sell_order_is_for_the_owner_only() {
    let mut x = exchange(5, &[(1, 100, 0), (2, 0, 0)]);
    assert!(x.create_sell_order(1, 5, n(10), n(100)).is_ok());
    assert_eq!(x.cancel_sell_order(2, 1), Err(Error::Unauthorized));
    assert_eq!(
        x.book().get(1),
        Some(Order { id: 1, token_id: 5, seller: 1, volume: n(10), price: n(100) })
    );
    assert_eq!(tokens(&x, 1, 5), n(100));
    assert_eq!(tokens(&x, 2, 5), n(0));
    assert_eq!(x.cancel_sell_order(1, 1), Ok(Event::SellOrderCancelled(1, true)));
    assert_eq!(x.book().get(1), None);
    assert_eq!(tokens(&x, 1, 5), n(100));
    assert_eq!(x.cancel_sell_order(1, 1), Err(Error::NoSwapExists));
    assert_eq!(x.cancel_sell_order(2, 1), Err(Error::NoSwapExists));
    assert_eq!(tokens(&x, 1, 5), n(100));
}

#[test]
fn cancel_sell_order_fails_for_an_unknown_order() {
    let mut x = exchange(5, &[(1, 100, 0)]);
    assert_eq!(x.cancel_sell_order(1, 0), Err(Error::NoSwapExists));
    assert_eq!(x.cancel_sell_order(1, 1), Err(Error::NoSwapExists));
}

#[test]
fn cancel_takes_a_partly_filled_order_off_the_book() {
    let mut x = exchange(5, &[(1, 100, 0), (2, 0, 1000)]);
    assert!(x.create_sell_order(1, 5, n(10), n(7)).is_ok());
    assert_eq!(x.buy_order(2, 5, n(7), n(4)), Ok(Event::BuyOrderFilled(1, n(4), n(28), 1, 2)));
    assert_eq!(
        x.book().get(1),
        Some(Order { id: 1, token_id: 5, seller: 1, volume: n(6), price: n(7) })
    );
    assert_eq!(x.cancel_sell_order(1, 1), Ok(Event::SellOrderCancelled(1, true)));
    assert_eq!(x.book().get(1), None);
    assert_eq!(x.buy_order(2, 5, n(7), n(1)), Err(Error::TooLowLiquidity));
    assert_eq!(currency(&x, 1), n(28));
    assert_eq!(currency(&x, 2), n(972));
    assert_eq!(tokens(&x, 1, 5), n(100));
    assert_eq!(tokens(&x, 2, 5), n(0));
}

#[test]
fn cancel_by_the_seller_succeeds_whatever_the_seller_holds() {
    let mut ledger = MemoryLedger::new();
    assert_eq!(ledger.credit(1, Asset::Token(5), U256::max_value()), Ok(()));
    let mut x = Pallet::new(ledger);
    assert!(x.create_sell_order(1, 5, n(10), n(7)).is_ok());
    assert_eq!(x.cancel_sell_order(1, 1), Ok(Event::SellOrderCancelled(1, true)));
    assert_eq!(tokens(&x, 1, 5), U256::max_value());
    assert_eq!(x.book().get(1), None);
    assert_eq!(x.book().next_id(), 2);
}

#[test]
fn buy_order_matches_the_cheaper_of_two_orders() {
    let mut x = exchange(5, &[(1, 100, 0), (2, 0, 1000)]);
    assert!(x.create_sell_order(1, 5, n(10), n(10)).is_ok());
    assert!(x.create_sell_order(1, 5, n(10), n(12)).is_ok());
    assert!(x.add_liquidity(1, 5, n(50), n(0)).is_err());
    assert_eq!(x.buy_order(2, 5, n(12), n(10)), Ok(Event::BuyOrderFilled(1, n(10), n(100), 1, 2)));
    assert_eq!(x.book().get(1), None);
    assert_eq!(
        x.book().get(2),
        Some(Order { id: 2, token_id: 5, seller: 1, volume: n(10), price: n(12) })
    );
    // The order-book route moves currency, from the buyer to the seller.
    assert_eq!(currency(&x, 2), n(900));
    assert_eq!(currency(&x, 1), n(100));
    assert_eq!(tokens(&x, 2, 5), n(0));
    assert_eq!(tokens(&x, 1, 5), n(100));
}

#[test]
fn buy_order_prefers_the_book_to_the_pool() {
    let mut x = exchange(5, &[(1, 2000, 2000), (2, 0, 1000)]);
    assert_eq!(x.add_liquidity(1, 5, n(1000), n(1000)), Ok((n(1000), n(1000))));
    assert!(x.create_sell_order(1, 5, n(10), n(12)).is_ok());
    assert!(x.create_sell_order(1, 5, n(10), n(10)).is_ok());
    // The pool would sell five tokens for six; the order at ten is matched.
    assert_eq!(x.buy_order(2, 5, n(12), n(5)), Ok(Event::BuyOrderFilled(2, n(5), n(50), 1, 2)));
    assert_eq!(x.pools().pool(5), pool(5, 1000, 1000, 1000));
    assert_eq!(
        x.book().get(2),
        Some(Order { id: 2, token_id: 5, seller: 1, volume: n(5), price: n(10) })
    );
    assert_eq!(
        x.book().get(1),
        Some(Order { id: 1, token_id: 5, seller: 1, volume: n(10), price: n(12) })
    );
}

#[test]
fn buy_order_matches_the_earlier_of_two_equally_cheap_orders() {
    let mut x = exchange(5, &[(1, 100, 0), (3, 100, 0), (2, 0, 1000)]);
    assert!(x.create_sell_order(3, 5, n(10), n(10)).is_ok());
    assert!(x.create_sell_order(1, 5, n(10), n(10)).is_ok());
    assert_eq!(x.buy_order(2, 5, n(10), n(3)), Ok(Event::BuyOrderFilled(1, n(3), n(30), 3, 2)));
    assert_eq!(currency(&x, 3), n(30));
    assert_eq!(currency(&x, 1), n(0));
}

#[test]
fn buy_order_does_not_fill_in_part() {
    let mut x = exchange(5, &[(1, 100, 0), (2, 0, 1000)]);
    assert!(x.create_sell_order(1, 5, n(10), n(10)).is_ok());
    // No order offers eleven tokens, and there is no pool to fall back on.
    assert_eq!(x.buy_order(2, 5, n(10), n(11)), Err(Error::TooLowLiquidity));
    assert_eq!(
        x.book().get(1),
        Some(Order { id: 1, token_id: 5, seller: 1, volume: n(10), price: n(10) })
    );
    assert_eq!(currency(&x, 2), n(1000));
}

#[test]
fn buy_order_skips_orders_that_are_too_dear() {
    let mut x = exchange(5, &[(1, 100, 0), (2, 0, 1000)]);
    assert!(x.create_sell_order(1, 5, n(10), n(10)).is_ok());
    assert_eq!(x.buy_order(2, 5, n(9), n(1)), Err(Error::TooLowLiquidity));
    assert_eq!(x.buy_order(2, 6, n(10), n(1)), Err(Error::TooLowLiquidity));
}

#[test]
fn buy_order_rejects_zero_volume_and_zero_price() {
    let mut x = exchange(5, &[(1, 100, 0), (2, 0, 1000)]);
    assert!(x.create_sell_order(1, 5, n(10), n(10)).is_ok());
    assert_eq!(x.buy_order(2, 5, n(10), n(0)), Err(Error::NoTokensSwapped));
    assert_eq!(x.buy_order(2, 5, n(0), n(1)), Err(Error::NoCurrencySwapped));
    assert_eq!(x.buy_order(2, 5, n(0), n(0)), Err(Error::NoTokensSwapped));
}

#[test]
fn buy_order_needs_the_currency() {
    let mut x = exchange(5, &[(1, 100, 0), (2, 0, 49)]);
    assert!(x.create_sell_order(1, 5, n(10), n(10)).is_ok());
    assert_eq!(x.buy_order(2, 5, n(10), n(5)), Err(Error::NotEnoughCurrency));
    assert_eq!(currency(&x, 2), n(49));
    assert_eq!(tokens(&x, 2, 5), n(0));
    assert_eq!(
        x.book().get(1),
        Some(Order { id: 1, token_id: 5, seller: 1, volume: n(10), price: n(10) })
    );
    assert_eq!(x.buy_order(2, 5, n(10), n(4)), Ok(Event::BuyOrderFilled(1, n(4), n(40), 1, 2)));
}

#[test]
fn buy_order_fails_where_a_balance_would_overflow() {
    let mut ledger = MemoryLedger::new();
    assert_eq!(ledger.credit(1, Asset::Currency, U256::max_value()), Ok(()));
    assert_eq!(ledger.credit(2, Asset::Token(5), U256::max_value()), Ok(()));
    assert_eq!(ledger.credit(2, Asset::Currency, n(1000)), Ok(()));
    let mut x = Pallet::new(ledger);
    assert!(x.create_sell_order(1, 5, n(10), n(10)).is_ok());
    assert!(x.create_sell_order(3, 6, n(10), n(10)).is_ok());
    // The seller's balance cannot take the cost.
    assert_eq!(x.buy_order(2, 5, n(10), n(1)), Err(Error::StorageOverflow));
    assert_eq!(currency(&x, 2), n(1000));
    assert_eq!(currency(&x, 1), U256::max_value());
    assert_eq!(
        x.book().get(1),
        Some(Order { id: 1, token_id: 5, seller: 1, volume: n(10), price: n(10) })
    );
    // What the buyer holds in tokens is not looked at.
    assert_eq!(x.buy_order(2, 6, n(10), n(1)), Ok(Event::BuyOrderFilled(2, n(1), n(10), 3, 2)));
    assert_eq!(tokens(&x, 2, 5), U256::max_value());
    assert_eq!(x.buy_order(2, 9, U256::max_value(), n(2)), Err(Error::TooLowLiquidity));
}

#[test]
fn buy_order_fails_where_the_cost_does_not_fit() {
    let mut x = exchange(5, &[(2, 0, 1000)]);
    assert!(x.create_sell_order(1, 5, n(10), U256::max_value()).is_ok());
    assert_eq!(x.buy_order(2, 5, U256::max_value(), n(2)), Err(Error::StorageOverflow));
    assert_eq!(x.buy_order(2, 5, U256::max_value(), n(1)), Err(Error::NotEnoughCurrency));
    assert_eq!(currency(&x, 2), n(1000));
}

#[test]
fn buy_order_of_ones_own_order_leaves_the_balance_as_it_is() {
    let mut x = exchange(5, &[(1, 100, 60)]);
    assert!(x.create_sell_order(1, 5, n(10), n(10)).is_ok());
    assert_eq!(x.buy_order(1, 5, n(10), n(7)), Err(Error::NotEnoughCurrency));
    assert_eq!(x.buy_order(1, 5, n(10), n(6)), Ok(Event::BuyOrderFilled(1, n(6), n(60), 1, 1)));
    assert_eq!(currency(&x, 1), n(60));
    assert_eq!(tokens(&x, 1, 5), n(100));
    assert_eq!(
        x.book().get(1),
        Some(Order { id: 1, token_id: 5, seller: 1, volume: n(4), price: n(10) })
    );
}

#[test]
fn buy_order_falls_back_to_the_pool() {
    let mut x = exchange(5, &[(1, 2000, 2000), (2, 0, 1000)]);
    assert_eq!(x.add_liquidity(1, 5, n(1000), n(1000)), Ok((n(1000), n(1000))));
    // The least that buys 90 tokens from the pool is 100.
    assert_eq!(x.buy_order(2, 5, n(2), n(90)), Ok(Event::BuyOrderFilled(0, n(90), n(100), 2, 2)));
    assert_eq!(x.pools().pool(5), pool(5, 910, 1100, 1000));
    assert_eq!(tokens(&x, 2, 5), n(90));
    assert_eq!(currency(&x, 2), n(900));
}

#[test]
fn buy_order_from_the_pool_keeps_to_the_price() {
    let mut x = exchange(5, &[(1, 2000, 2000), (2, 0, 1000)]);
    assert_eq!(x.add_liquidity(1, 5, n(1000), n(1000)), Ok((n(1000), n(1000))));
    // 90 tokens cost 100, which is more than 90 at a price of one.
    assert_eq!(x.buy_order(2, 5, n(1), n(90)), Err(Error::TooExpensiveCurrency));
    assert_eq!(x.buy_order(2, 5, n(2), n(1000)), Err(Error::TooLowLiquidity));
    assert_eq!(x.buy_order(2, 5, n(2), n(600)), Err(Error::TooExpensiveCurrency));
    assert_eq!(x.pools().pool(5), pool(5, 1000, 1000, 1000));
    assert_eq!(currency(&x, 2), n(1000));
    // 500 tokens cost 1004, which the buyer does not hold.
    assert_eq!(x.buy_order(2, 5, n(3), n(500)), Err(Error::NotEnoughCurrency));
}

#[test]
fn add_liquidity_then_remove_liquidity_gives_everything_back() {
    let mut x = exchange(7, &[(1, 1500, 1700)]);
    assert_eq!(x.add_liquidity(1, 7, n(1000), n(1200)), Ok((n(1200), n(1000))));
    assert_eq!(tokens(&x, 1, 7), n(500));
    assert_eq!(currency(&x, 1), n(500));
    assert_eq!(x.pools().pool(7), pool(7, 1000, 1200, 1000));
    assert_eq!(x.pools().position(7, 1), n(1000));
    assert_eq!(x.remove_liquidity(1, 7, n(1000)), Ok((n(1000), n(1200))));
    assert_eq!(tokens(&x, 1, 7), n(1500));
    assert_eq!(currency(&x, 1), n(1700));
    assert_eq!(x.pools().pool(7), pool(7, 0, 0, 0));
    assert_eq!(x.pools().position(7, 1), n(0));
}

#[test]
fn add_liquidity_needs_the_funds() {
    let mut x = exchange(7, &[(1, 1000, 1000), (2, 10, 3)]);
    assert_eq!(x.add_liquidity(2, 7, n(11), n(3)), Err(Error::NotEnoughTokens));
    assert_eq!(x.add_liquidity(2, 7, n(10), n(4)), Err(Error::NotEnoughCurrency));
    assert_eq!(x.add_liquidity(1, 7, n(0), n(4)), Err(Error::ZeroTokens));
    assert_eq!(x.add_liquidity(1, 7, n(4), n(0)), Err(Error::ZeroAmount));
    assert_eq!(x.add_liquidity(1, 7, n(1000), n(500)), Ok((n(500), n(1000))));
    // Ten tokens take five currency, of which the account holds three.
    assert_eq!(x.add_liquidity(2, 7, n(10), n(5)), Err(Error::NotEnoughCurrency));
    assert_eq!(x.add_liquidity(2, 7, n(10), n(4)), Err(Error::NotEnoughCurrency));
    assert_eq!(x.add_liquidity(2, 7, n(6), n(5)), Ok((n(3), n(6))));
    assert_eq!(tokens(&x, 2, 7), n(4));
    assert_eq!(currency(&x, 2), n(0));
    assert_eq!(x.pools().pool(7), pool(7, 1006, 503, 1006));
}

#[test]
fn remove_liquidity_rejects_zero_shares_and_missing_liquidity() {
    let mut x = exchange(7, &[(1, 1000, 1000)]);
    assert_eq!(x.remove_liquidity(1, 7, n(0)), Err(Error::BurnZeroShares));
    assert_eq!(x.remove_liquidity(1, 7, n(1)), Err(Error::NoLiquidity));
    assert_eq!(x.add_liquidity(1, 7, n(1000), n(500)), Ok((n(500), n(1000))));
    assert_eq!(x.remove_liquidity(2, 7, n(1)), Err(Error::NoLiquidity));
    assert_eq!(x.remove_liquidity(1, 7, n(1001)), Err(Error::NoLiquidity));
    assert_eq!(x.remove_liquidity(1, 7, n(500)), Ok((n(500), n(250))));
    assert_eq!(tokens(&x, 1, 7), n(500));
    assert_eq!(currency(&x, 1), n(750));
}

#[test]
fn swap_of_a_hundred_tokens_into_an_even_pool_pays_ninety() {
    let mut x = exchange(7, &[(1, 2000, 2000)]);
    assert_eq!(x.add_liquidity(1, 7, n(1000), n(1000)), Ok((n(1000), n(1000))));
    assert_eq!(x.pools().position(7, 1), n(1000));
    assert_eq!(x.pools().pool(7), pool(7, 1000, 1000, 1000));
    assert_eq!(x.swap(1, 7, Direction::TokenIn, n(100), None, None), Ok(n(90)));
    assert_eq!(x.pools().pool(7), pool(7, 1100, 910, 1000));
    assert_eq!(tokens(&x, 1, 7), n(900));
    assert_eq!(currency(&x, 1), n(1090));
}

#[test]
fn swap_needs_the_funds_and_a_pool() {
    let mut x = exchange(7, &[(1, 2000, 2000), (2, 50, 60)]);
    assert_eq!(x.swap(2, 7, Direction::TokenIn, n(10), None, None), Err(Error::TooLowLiquidity));
    assert_eq!(x.add_liquidity(1, 7, n(1000), n(1000)), Ok((n(1000), n(1000))));
    assert_eq!(x.swap(2, 7, Direction::TokenIn, n(51), None, None), Err(Error::NotEnoughTokens));
    assert_eq!(
        x.swap(2, 7, Direction::CurrencyIn, n(61), None, None),
        Err(Error::NotEnoughCurrency)
    );
    assert_eq!(
        x.swap(2, 7, Direction::CurrencyIn, n(60), Some(n(59)), None),
        Err(Error::TooExpensiveCurrency)
    );
    assert_eq!(
        x.swap(2, 7, Direction::TokenIn, n(50), None, Some(n(48))),
        Err(Error::TooExpensiveTokens)
    );
    assert_eq!(x.pools().pool(7), pool(7, 1000, 1000, 1000));
    // 50 in, 49 after the fee; 1000 * 49 / 1049 = 46.
    assert_eq!(x.swap(2, 7, Direction::TokenIn, n(50), Some(n(50)), Some(n(46))), Ok(n(46)));
    assert_eq!(tokens(&x, 2, 7), n(0));
    assert_eq!(currency(&x, 2), n(106));
    assert_eq!(x.pools().pool(7), pool(7, 1050, 954, 1000));
}

#[test]
fn swap_fails_where_the_payout_does_not_fit_the_balance() {
    let mut ledger = MemoryLedger::new();
    assert_eq!(ledger.credit(1, Asset::Token(7), n(2000)), Ok(()));
    assert_eq!(ledger.credit(1, Asset::Currency, n(2000)), Ok(()));
    assert_eq!(ledger.credit(2, Asset::Token(7), n(100)), Ok(()));
    assert_eq!(ledger.credit(2, Asset::Currency, U256::max_value()), Ok(()));
    let mut x = Pallet::new(ledger);
    assert_eq!(x.add_liquidity(1, 7, n(1000), n(1000)), Ok((n(1000), n(1000))));
    assert_eq!(x.swap(2, 7, Direction::TokenIn, n(100), None, None), Err(Error::StorageOverflow));
    assert_eq!(tokens(&x, 2, 7), n(100));
    assert_eq!(x.pools().pool(7), pool(7, 1000, 1000, 1000));
}

#[test]
fn ledger_of_the_exchange_shows_its_balances() {
    let x = exchange(7, &[(1, 11, 22)]);
    assert_eq!(x.ledger().balance(1, Asset::Token(7)), n(11));
    assert_eq!(x.ledger().balance(1, Asset::Currency), n(22));
    assert_eq!(x.ledger().balance(2, Asset::Currency), n(0));
}

#[test]
fn assets_of_a_swap_go_by_direction() {
    assert_eq!(pays_in(Direction::TokenIn, 7), Asset::Token(7));
    assert_eq!(pays_out(Direction::TokenIn, 7), Asset::Currency);
    assert_eq!(pays_in(Direction::CurrencyIn, 7), Asset::Currency);
    assert_eq!(pays_out(Direction::CurrencyIn, 7), Asset::Token(7));
}

#[test]
fn parts_of_an_exchange_make_it_again() {
    let mut x = exchange(7, &[(1, 2000, 2000), (2, 50, 60)]);
    assert_eq!(x.add_liquidity(1, 7, n(1000), n(1000)), Ok((n(1000), n(1000))));
    assert!(x.create_sell_order(2, 7, n(10), n(3)).is_ok());
    let (ledger, book, pools) = x.into_parts();
    assert_eq!(ledger.balance(2, Asset::Token(7)), n(50));
    assert_eq!(book.next_id(), 2);
    assert_eq!(pools.position(7, 1), n(1000));
    let mut again = Pallet::from_parts(ledger, book, pools);
    assert_eq!(
        again.buy_order(1, 7, n(3), n(10)),
        Ok(Event::BuyOrderFilled(1, n(10), n(30), 2, 1))
    );
    assert_eq!(currency(&again, 2), n(90));
    assert_eq!(again.pools().pool(7), pool(7, 1000, 1000, 1000));
}

#[test]
fn order_numbers_rise_whatever_happens_in_between() {
    let mut x = exchange(5, &[(1, 2000, 2000), (2, 0, 1000)]);
    assert_eq!(x.book().next_id(), 1);
    assert!(x.create_sell_order(1, 5, n(10), n(10)).is_ok());
    assert_eq!(x.book().next_id(), 2);
    // Actions that fail, and actions on the pools, leave the counter.
    assert_eq!(x.create_sell_order(1, 5, n(10), n(10)), Err(Error::SwapAlreadyExists));
    assert_eq!(x.cancel_sell_order(2, 1), Err(Error::Unauthorized));
    assert!(x.add_liquidity(1, 5, n(1000), n(1000)).is_ok());
    assert!(x.swap(1, 5, Direction::TokenIn, n(10), None, None).is_ok());
    assert_eq!(x.book().next_id(), 2);
    // A cancelled order and a filled order leave their numbers behind.
    assert!(x.cancel_sell_order(1, 1).is_ok());
    assert!(x.create_sell_order(1, 5, n(10), n(10)).is_ok());
    assert_eq!(x.book().open_orders(5), vec![2]);
    assert_eq!(x.buy_order(2, 5, n(10), n(10)), Ok(Event::BuyOrderFilled(2, n(10), n(100), 1, 2)));
    assert_eq!(x.book().open_orders(5), Vec::<u128>::new());
    assert_eq!(x.book().next_id(), 3);
    assert!(x.remove_liquidity(1, 5, n(1)).is_ok());
    assert!(x.create_sell_order(2, 5, n(10), n(10)).is_ok());
    assert!(x.create_sell_order(1, 5, n(10), n(10)).is_ok());
    assert_eq!(x.book().open_orders(5), vec![3, 4]);
    assert_eq!(x.book().next_id(), 5);
    assert_eq!(x.book().get(1), None);
    assert_eq!(x.book().get(2), None);
}
