//! The exchange itself: the actions that accounts take on it, each of which
//! takes effect as a whole or fails and changes nothing.

use vstd::prelude::*;
use crate::ledger::{shortage, shortage_of, Config};
use crate::math::{mul_result, quote_input, safe_add, safe_mul, swap_input_result};
use crate::orderbook::{
    after_insert, after_reduce, after_remove, best_match_of, insert_result, remove_result,
    BookState, Order, OrderBook,
};
use crate::pool::{bound_of, lemma_swap_keeps_wf, same_amounts, Direction};
use crate::pool::{deposit_result, swap_result, withdraw_result};
use crate::pools::{Pools, PoolsState};
use crate::types::{same_amount, AccountId, Asset, Error, Event};
use crate::u256::{u256_limit, U256};

verus! {

/// All balances, by account and asset.
pub type Balances = Map<(AccountId, Asset), nat>;

/// The balances after `amount` is taken from one of them.
pub open spec fn debited(
    balances: Balances,
    who: AccountId,
    asset: Asset,
    amount: nat,
) -> Balances {
    balances.insert((who, asset), (balances[(who, asset)] - amount) as nat)
}

/// The balances after `amount` is added to one of them.
pub open spec fn credited(
    balances: Balances,
    who: AccountId,
    asset: Asset,
    amount: nat,
) -> Balances {
    balances.insert((who, asset), balances[(who, asset)] + amount)
}

/// The asset that a swap for a token in the given direction is paid in.
pub open spec fn asset_in(direction: Direction, token_id: u128) -> Asset {
    match direction {
        Direction::TokenIn => Asset::Token(token_id),
        Direction::CurrencyIn => Asset::Currency,
    }
}

/// The asset that a swap for a token in the given direction pays out.
pub open spec fn asset_out(direction: Direction, token_id: u128) -> Asset {
    match direction {
        Direction::TokenIn => Asset::Currency,
        Direction::CurrencyIn => Asset::Token(token_id),
    }
}

/// How a purchase was filled.
pub struct Fill {
    /// The order that was matched, or zero for the pool.
    pub order_id: u128,
    /// The account that sold: the order's seller, or the buyer itself for
    /// the pool.
    pub seller: AccountId,
    /// The tokens sold: the volume filled from the order, or what the pool
    /// paid out.
    pub tokens: nat,
    /// The currency that the buyer paid.
    pub cost: nat,
}

/// The exchange as a value: every balance, the order book, and the pools.
pub struct State {
    pub balances: Balances,
    pub book: BookState,
    pub pools: PoolsState,
}

impl State {
    /// What holds of every state of the exchange.
    pub open spec fn wf(self) -> bool {
        &&& forall|k: (AccountId, Asset)| #[trigger] self.balances.dom().contains(k)
        &&& forall|k: (AccountId, Asset)| (#[trigger] self.balances[k]) < u256_limit()
        &&& self.book.wf()
        &&& self.pools.wf()
    }

    /// The balance of an account in an asset.
    pub open spec fn balance(self, who: AccountId, asset: Asset) -> nat {
        self.balances[(who, asset)]
    }

    /// The number of the order that `create_sell_order` opens, or why it
    /// fails: as the book takes or refuses the order.
    pub open spec fn create_outcome(
        self,
        who: AccountId,
        token_id: u128,
        volume: nat,
        price: nat,
    ) -> Result<u128, Error> {
        insert_result(self.book, token_id, who, volume, price)
    }

    /// The state after `create_sell_order`: the order is in the book, and
    /// nothing else has changed.
    pub open spec fn after_create(
        self,
        who: AccountId,
        token_id: u128,
        volume: nat,
        price: nat,
    ) -> State {
        State {
            balances: self.balances,
            book: after_insert(self.book, token_id, who, volume, price),
            pools: self.pools,
        }
    }

    /// The volume that `cancel_sell_order` frees, or why it fails: as the
    /// book removes the order or refuses to.
    pub open spec fn cancel_outcome(self, who: AccountId, order_id: u128) -> Result<nat, Error> {
        remove_result(self.book, order_id, who)
    }

    /// The state after `cancel_sell_order`: the order is gone, and nothing
    /// else has changed.
    pub open spec fn after_cancel(self, who: AccountId, order_id: u128) -> State {
        State {
            balances: self.balances,
            book: after_remove(self.book, order_id, who),
            pools: self.pools,
        }
    }

    /// What `swap` pays out, or why it fails: as the pool refuses the swap,
    /// because the account holds less than it pays in, or because its balance
    /// cannot take what is paid out.
    pub open spec fn swap_outcome(
        self,
        who: AccountId,
        token_id: u128,
        direction: Direction,
        amount_in: nat,
        max_input: Option<nat>,
        min_output: Option<nat>,
    ) -> Result<nat, Error> {
        match swap_result(self.pools.pools[token_id], direction, amount_in, max_input, min_output) {
            Err(e) => Err(e),
            Ok(out) => if self.balance(who, asset_in(direction, token_id)) < amount_in {
                Err(shortage_of(asset_in(direction, token_id)))
            } else if self.balance(who, asset_out(direction, token_id)) + out >= u256_limit() {
                Err(Error::StorageOverflow)
            } else {
                Ok(out)
            },
        }
    }

    /// The state after `swap`.
    pub open spec fn after_swap(
        self,
        who: AccountId,
        token_id: u128,
        direction: Direction,
        amount_in: nat,
        max_input: Option<nat>,
        min_output: Option<nat>,
    ) -> State {
        match self.swap_outcome(who, token_id, direction, amount_in, max_input, min_output) {
            Ok(out) => State {
                balances: credited(
                    debited(self.balances, who, asset_in(direction, token_id), amount_in),
                    who,
                    asset_out(direction, token_id),
                    out,
                ),
                book: self.book,
                pools: self.pools.after_swap(token_id, direction, amount_in, max_input, min_output),
            },
            Err(_) => self,
        }
    }

    /// What `add_liquidity` takes in currency and mints in shares, or why it
    /// fails: as the pool refuses the deposit, or because the account holds
    /// fewer tokens or less currency than the deposit takes.
    pub open spec fn deposit_outcome(
        self,
        who: AccountId,
        token_id: u128,
        token_amount: nat,
        currency_amount: nat,
    ) -> Result<(nat, nat), Error> {
        match deposit_result(self.pools.pools[token_id], token_amount, currency_amount) {
            Err(e) => Err(e),
            Ok((currency, minted)) => if self.balance(who, Asset::Token(token_id))
                < token_amount {
                Err(Error::NotEnoughTokens)
            } else if self.balance(who, Asset::Currency) < currency {
                Err(Error::NotEnoughCurrency)
            } else {
                Ok((currency, minted))
            },
        }
    }

    /// The state after `add_liquidity`.
    pub open spec fn after_add_liquidity(
        self,
        who: AccountId,
        token_id: u128,
        token_amount: nat,
        currency_amount: nat,
    ) -> State {
        match self.deposit_outcome(who, token_id, token_amount, currency_amount) {
            Ok((currency, minted)) => State {
                balances: debited(
                    debited(self.balances, who, Asset::Token(token_id), token_amount),
                    who,
                    Asset::Currency,
                    currency,
                ),
                book: self.book,
                pools: self.pools.after_deposit(who, token_id, token_amount, currency_amount),
            },
            Err(_) => self,
        }
    }

    /// What `remove_liquidity` pays out in tokens and in currency, or why it
    /// fails: as the pool refuses the withdrawal, or because the account's
    /// balances cannot take the payout.
    pub open spec fn withdraw_outcome(self, who: AccountId, token_id: u128, shares: nat) -> Result<
        (nat, nat),
        Error,
    > {
        match withdraw_result(
            self.pools.pools[token_id],
            self.pools.positions[(token_id, who)],
            shares,
        ) {
            Err(e) => Err(e),
            Ok((tokens, currency)) => if self.balance(who, Asset::Token(token_id)) + tokens
                >= u256_limit() || self.balance(who, Asset::Currency) + currency
                >= u256_limit() {
                Err(Error::StorageOverflow)
            } else {
                Ok((tokens, currency))
            },
        }
    }

    /// The state after `remove_liquidity`.
    pub open spec fn after_remove_liquidity(
        self,
        who: AccountId,
        token_id: u128,
        shares: nat,
    ) -> State {
        match self.withdraw_outcome(who, token_id, shares) {
            Ok((tokens, currency)) => State {
                balances: credited(
                    credited(self.balances, who, Asset::Token(token_id), tokens),
                    who,
                    Asset::Currency,
                    currency,
                ),
                book: self.book,
                pools: self.pools.after_withdraw(who, token_id, shares),
            },
            Err(_) => self,
        }
    }

    /// What filling `volume` tokens from the order at `order_id` costs the
    /// buyer, or why it fails: the cost leaves the 256-bit range, the buyer
    /// holds less currency than the cost, or the seller's balance cannot take
    /// the cost.
    pub open spec fn book_fill_outcome(
        self,
        buyer: AccountId,
        order_id: u128,
        volume: nat,
    ) -> Result<
        nat,
        Error,
    > {
        let order = self.book.orders[order_id];
        match mul_result(order.price, volume) {
            Err(e) => Err(e),
            Ok(cost) => if self.balance(buyer, Asset::Currency) < cost {
                Err(Error::NotEnoughCurrency)
            } else if order.seller != buyer && self.balance(order.seller, Asset::Currency) + cost
                >= u256_limit() {
                Err(Error::StorageOverflow)
            } else {
                Ok(cost)
            },
        }
    }

    /// The state after filling `volume` tokens from the order at `order_id`:
    /// the cost went from the buyer to the seller, and the order offers that
    /// much less.
    pub open spec fn after_book_fill(self, buyer: AccountId, order_id: u128, volume: nat) -> State {
        let order = self.book.orders[order_id];
        match self.book_fill_outcome(buyer, order_id, volume) {
            Ok(cost) => State {
                balances: credited(
                    debited(self.balances, buyer, Asset::Currency, cost),
                    order.seller,
                    Asset::Currency,
                    cost,
                ),
                book: after_reduce(self.book, order_id, volume),
                pools: self.pools,
            },
            Err(_) => self,
        }
    }

    /// The swap that buys `volume` tokens from the pool: the currency to pay
    /// in, which is the least that makes the pool pay out `volume`, and the
    /// most that the buyer is willing to pay, `max_price * volume`. It fails
    /// where the pool does not hold more than `volume` tokens, and where a
    /// step of the computation leaves the 256-bit range.
    pub open spec fn pool_fill_terms(self, token_id: u128, max_price: nat, volume: nat) -> Result<
        (nat, nat),
        Error,
    > {
        let pool = self.pools.pools[token_id];
        match swap_input_result(pool.currency_reserve, pool.token_reserve, volume) {
            Err(e) => Err(e),
            Ok(needed) => match mul_result(max_price, volume) {
                Err(e) => Err(e),
                Ok(budget) => Ok((needed, budget)),
            },
        }
    }

    /// How `buy_order` is filled, or why it fails.
    ///
    /// A purchase of no tokens fails with `NoTokensSwapped`, one at a price
    /// of zero with `NoCurrencySwapped`. Where an order can serve the whole
    /// volume at no more than `max_price`, the best such order is filled, at
    /// its own price, and the purchase fails if that fill fails. Otherwise the
    /// purchase is a swap of currency into the token's pool, which pays in
    /// the least that buys `volume`, bounded by `max_price * volume`.
    pub open spec fn buy_outcome(
        self,
        buyer: AccountId,
        token_id: u128,
        max_price: nat,
        volume: nat,
    ) -> Result<
        Fill,
        Error,
    > {
        if volume == 0 {
            Err(Error::NoTokensSwapped)
        } else if max_price == 0 {
            Err(Error::NoCurrencySwapped)
        } else {
            match best_match_of(self.book, token_id, max_price, volume) {
                Some(id) => match self.book_fill_outcome(buyer, id, volume) {
                    Err(e) => Err(e),
                    Ok(cost) => Ok(
                        Fill {
                            order_id: id,
                            seller: self.book.orders[id].seller,
                            tokens: volume,
                            cost,
                        },
                    ),
                },
                None => match self.pool_fill_terms(token_id, max_price, volume) {
                    Err(e) => Err(e),
                    Ok((needed, budget)) => match self.swap_outcome(
                        buyer,
                        token_id,
                        Direction::CurrencyIn,
                        needed,
                        Some(budget),
                        Some(volume),
                    ) {
                        Err(e) => Err(e),
                        Ok(out) => Ok(
                            Fill { order_id: 0, seller: buyer, tokens: out, cost: needed },
                        ),
                    },
                },
            }
        }
    }

    /// The state after `buy_order`.
    pub open spec fn after_buy(
        self,
        buyer: AccountId,
        token_id: u128,
        max_price: nat,
        volume: nat,
    ) -> State {
        if self.buy_outcome(buyer, token_id, max_price, volume) is Ok {
            match best_match_of(self.book, token_id, max_price, volume) {
                Some(id) => self.after_book_fill(buyer, id, volume),
                None => {
                    let (needed, budget) = self.pool_fill_terms(token_id, max_price, volume)->Ok_0;
                    self.after_swap(
                        buyer,
                        token_id,
                        Direction::CurrencyIn,
                        needed,
                        Some(budget),
                        Some(volume),
                    )
                },
            }
        } else {
            self
        }
    }
}

/// Whether a notification reports the given fill for the given buyer.
pub open spec fn reports_fill(event: Event, fill: Fill, buyer: AccountId) -> bool {
    match event {
        Event::BuyOrderFilled(order_id, tokens, cost, seller, to) => order_id == fill.order_id
            && tokens@ == fill.tokens && cost@ == fill.cost && seller == fill.seller && to
            == buyer,
        _ => false,
    }
}

/// The exchange: a ledger, the book of sell orders and the liquidity pools.
pub struct Pallet<T: Config> {
    ledger: T,
    book: OrderBook,
    pools: Pools,
}

impl<T: Config> View for Pallet<T> {
    type V = State;

    closed spec fn view(&self) -> State {
        State {
            balances: Map::total(|k: (AccountId, Asset)| self.ledger.balance_of(k.0, k.1)),
            book: self.book@,
            pools: self.pools@,
        }
    }
}

impl<T: Config> Pallet<T> {
    /// What holds of the exchange between calls.
    pub closed spec fn wf(&self) -> bool {
        &&& self.ledger.wf()
        &&& self.book.wf()
        &&& self.pools.wf()
    }

    /// A valid exchange is valid as a value.
    pub proof fn lemma_view_wf(&self)
        requires
            self.wf(),
        ensures
            self@.wf(),
    {
        self.book.lemma_view_wf();
        self.pools.lemma_view_wf();
        assert forall|k: (AccountId, Asset)| (#[trigger] self@.balances[k]) < u256_limit() by {
            self.ledger.lemma_balance_fits(k.0, k.1);
        }
    }

    /// An exchange on the given ledger, with no orders and no liquidity.
    pub fn new(ledger: T) -> (r: Pallet<T>)
        requires
            ledger.wf(),
        ensures
            r.wf(),
            r.ledger_view() == ledger,
            r@.book.orders == Map::<u128, crate::orderbook::OrderState>::empty(),
            r@.book.next_id == 1,
            forall|t: u128| #[trigger] r@.pools.pools[t] == crate::pool::PoolState::empty(),
            forall|t: u128, a: AccountId| #[trigger] r@.pools.positions[(t, a)] == 0,
            forall|w: AccountId, a: Asset| #[trigger]
                r@.balances[(w, a)] == ledger.balance_of(w, a),
    {
        Pallet { ledger, book: OrderBook::new(), pools: Pools::new() }
    }

    /// An exchange on the given ledger, with the given book and pools.
    pub fn from_parts(ledger: T, book: OrderBook, pools: Pools) -> (r: Pallet<T>)
        requires
            ledger.wf(),
            book.wf(),
            pools.wf(),
        ensures
            r.wf(),
            r.ledger_view() == ledger,
            r@.book == book@,
            r@.pools == pools@,
            forall|w: AccountId, a: Asset| #[trigger]
                r@.balances[(w, a)] == ledger.balance_of(w, a),
    {
        Pallet { ledger, book, pools }
    }

    /// The ledger, the book and the pools of the exchange.
    pub fn into_parts(self) -> (r: (T, OrderBook, Pools))
        requires
            self.wf(),
        ensures
            r.0 == self.ledger_view(),
            r.0.wf(),
            r.1.wf(),
            r.1@ == self@.book,
            r.2.wf(),
            r.2@ == self@.pools,
    {
        (self.ledger, self.book, self.pools)
    }

    /// The ledger that the exchange moves funds on.
    pub closed spec fn ledger_view(&self) -> T {
        self.ledger
    }

    /// The ledger that the exchange moves funds on.
    pub fn ledger(&self) -> (r: &T)
        requires
            self.wf(),
        ensures
            *r == self.ledger_view(),
            r.wf(),
            forall|w: AccountId, a: Asset| #[trigger]
                r.balance_of(w, a) == self@.balances[(w, a)],
    {
        &self.ledger
    }

    /// The book of open sell orders.
    pub fn book(&self) -> (r: &OrderBook)
        requires
            self.wf(),
        ensures
            r.wf(),
            r@ == self@.book,
    {
        &self.book
    }

    /// The liquidity pools.
    pub fn pools(&self) -> (r: &Pools)
        requires
            self.wf(),
        ensures
            r.wf(),
            r@ == self@.pools,
    {
        &self.pools
    }

    /// The balance of an account in an asset.
    pub fn balance(&self, who: AccountId, asset: Asset) -> (r: U256)
        requires
            self.wf(),
        ensures
            r@ == self@.balance(who, asset),
    {
        self.ledger.balance(who, asset)
    }

    /// Swaps `amount_in` of an account into a token's pool, within the bounds
    /// that are given, and gives what the pool pays out to the account: the
    /// amount after the fee times the reserve paid from, divided by the
    /// reserve paid into plus the amount after the fee, rounded down.
    ///
    /// Fails with `TooLowLiquidity` where the pool is empty, with
    /// `TooExpensiveTokens` or `TooExpensiveCurrency`, by what is paid in,
    /// where `amount_in` is more than `max_input` or the payout less than
    /// `min_output`, with `StorageOverflow` where a number leaves the 256-bit
    /// range, and with `NotEnoughTokens` or `NotEnoughCurrency` where the
    /// account holds less than `amount_in`.
    pub fn swap(
        &mut self,
        who: AccountId,
        token_id: u128,
        direction: Direction,
        amount_in: U256,
        max_input: Option<U256>,
        min_output: Option<U256>,
    ) -> (r: Result<U256, Error>)
        requires
            old(self).wf(),
        ensures
            final(self).wf(),
            same_amount(
                r,
                old(self)@.swap_outcome(
                    who,
                    token_id,
                    direction,
                    amount_in@,
                    bound_of(max_input),
                    bound_of(min_output),
                ),
            ),
            final(self)@ == old(self)@.after_swap(
                who,
                token_id,
                direction,
                amount_in@,
                bound_of(max_input),
                bound_of(min_output),
            ),
            r is Err ==> *final(self) == *old(self),
            final(self)@.pools.pools[token_id].product() >= old(
                self,
            )@.pools.pools[token_id].product(),
            r is Ok && amount_in@ > 0 ==> final(self)@.pools.pools[token_id].product() > old(
                self,
            )@.pools.pools[token_id].product(),
    {
        let pool = self.pools.pool(token_id);
        let out = match pool.swap_terms(direction, amount_in, max_input, min_output) {
            Ok(v) => v,
            Err(e) => {
                return Err(e);
            },
        };
        let paid_in = pays_in(direction, token_id);
        let paid_out = pays_out(direction, token_id);
        if self.ledger.balance(who, paid_in).lt(&amount_in) {
            return Err(shortage(paid_in));
        }
        if safe_add(self.ledger.balance(who, paid_out), out).is_err() {
            return Err(Error::StorageOverflow);
        }
        proof {
            self.pools.lemma_view_wf();
            assert(self.pools@.pools[token_id].wf());
            lemma_swap_keeps_wf(
                pool@,
                direction,
                amount_in@,
                bound_of(max_input),
                bound_of(min_output),
            );
        }
        // Nothing below can fail: what could is ruled out above.
        if let Err(e) = self.ledger.debit(who, paid_in, amount_in) {
            return Err(e);
        }
        if let Err(e) = self.ledger.credit(who, paid_out, out) {
            return Err(e);
        }
        if let Err(e) = self.pools.swap(token_id, direction, amount_in, max_input, min_output) {
            return Err(e);
        }
        proof {
            let expected = old(self)@.after_swap(
                who,
                token_id,
                direction,
                amount_in@,
                bound_of(max_input),
                bound_of(min_output),
            );
            assert(self@.balances =~= expected.balances);
        }
        Ok(out)
    }

    /// Deposits `token_amount` tokens of an account, with up to
    /// `currency_amount` of its currency, into a token's pool, and gives the
    /// currency taken and the shares minted to the account. An empty pool
    /// takes all of `currency_amount` and mints `token_amount` shares; any
    /// other pool takes `token_amount * currency_reserve / token_reserve`
    /// currency and mints `total_shares * token_amount / token_reserve`
    /// shares, both rounded down.
    ///
    /// Fails with `ZeroTokens` or `ZeroAmount` where an amount is zero, with
    /// `NotEnoughCurrency` where `currency_amount` is less than the pool
    /// takes or the account holds less than that, with
    /// `RequestedZeroLiquidity` where no share would be minted, with
    /// `TooManyTokens` where the token reserve would leave the 256-bit range,
    /// with `StorageOverflow` where another number would, and with
    /// `NotEnoughTokens` where the account holds less than `token_amount`.
    pub fn add_liquidity(
        &mut self,
        who: AccountId,
        token_id: u128,
        token_amount: U256,
        currency_amount: U256,
    ) -> (r: Result<(U256, U256), Error>)
        requires
            old(self).wf(),
        ensures
            final(self).wf(),
            same_amounts(
                r,
                old(self)@.deposit_outcome(who, token_id, token_amount@, currency_amount@),
            ),
            final(self)@ == old(self)@.after_add_liquidity(
                who,
                token_id,
                token_amount@,
                currency_amount@,
            ),
            r is Err ==> *final(self) == *old(self),
    {
        let pool = self.pools.pool(token_id);
        let (currency, minted) = match pool.deposit_terms(token_amount, currency_amount) {
            Ok(v) => v,
            Err(e) => {
                return Err(e);
            },
        };
        if self.ledger.balance(who, Asset::Token(token_id)).lt(&token_amount) {
            return Err(Error::NotEnoughTokens);
        }
        if self.ledger.balance(who, Asset::Currency).lt(&currency) {
            return Err(Error::NotEnoughCurrency);
        }
        // Nothing below can fail: what could is ruled out above.
        if let Err(e) = self.ledger.debit(who, Asset::Token(token_id), token_amount) {
            return Err(e);
        }
        if let Err(e) = self.ledger.debit(who, Asset::Currency, currency) {
            return Err(e);
        }
        if let Err(e) = self.pools.add_liquidity(who, token_id, token_amount, currency_amount) {
            return Err(e);
        }
        proof {
            let expected = old(self)@.after_add_liquidity(
                who,
                token_id,
                token_amount@,
                currency_amount@,
            );
            assert(self@.balances =~= expected.balances);
        }
        Ok((currency, minted))
    }

    /// Burns `shares` that an account holds of a token's pool, and pays the
    /// account `shares` parts in `total_shares` of the pool's tokens and of
    /// its currency, each rounded down, which it gives.
    ///
    /// Fails with `BurnZeroShares` where `shares` is zero, with `NoLiquidity`
    /// where the pool is empty or the account holds fewer shares, and with
    /// `StorageOverflow` where a number leaves the 256-bit range.
    pub fn remove_liquidity(&mut self, who: AccountId, token_id: u128, shares: U256) -> (r: Result<
        (U256, U256),
        Error,
    >)
        requires
            old(self).wf(),
        ensures
            final(self).wf(),
            same_amounts(r, old(self)@.withdraw_outcome(who, token_id, shares@)),
            final(self)@ == old(self)@.after_remove_liquidity(who, token_id, shares@),
            r is Err ==> *final(self) == *old(self),
    {
        let pool = self.pools.pool(token_id);
        let held = self.pools.position(token_id, who);
        let (tokens, currency) = match pool.withdraw_terms(held, shares) {
            Ok(v) => v,
            Err(e) => {
                return Err(e);
            },
        };
        if safe_add(self.ledger.balance(who, Asset::Token(token_id)), tokens).is_err() {
            return Err(Error::StorageOverflow);
        }
        if safe_add(self.ledger.balance(who, Asset::Currency), currency).is_err() {
            return Err(Error::StorageOverflow);
        }
        // Nothing below can fail: what could is ruled out above.
        if let Err(e) = self.ledger.credit(who, Asset::Token(token_id), tokens) {
            return Err(e);
        }
        if let Err(e) = self.ledger.credit(who, Asset::Currency, currency) {
            return Err(e);
        }
        if let Err(e) = self.pools.remove_liquidity(who, token_id, shares) {
            return Err(e);
        }
        proof {
            let expected = old(self)@.after_remove_liquidity(who, token_id, shares@);
            assert(self@.balances =~= expected.balances);
        }
        Ok((tokens, currency))
    }

    /// Opens a sell order of an account for `volume` tokens at `price` each,
    /// under the next order number. No balance is looked at or changed.
    ///
    /// Fails with `ZeroTokens` for a zero volume, with `ZeroAmount` for a zero
    /// price, with `SwapAlreadyExists` where the seller has the same offer
    /// open already, and with `StorageOverflow` where the order counter is
    /// used up.
    pub fn create_sell_order(
        &mut self,
        who: AccountId,
        token_id: u128,
        volume: U256,
        price: U256,
    ) -> (r: Result<Event, Error>)
        requires
            old(self).wf(),
        ensures
            final(self).wf(),
            match r {
                Ok(event) => old(self)@.create_outcome(who, token_id, volume@, price@) is Ok
                    && event == Event::SellOrderCreated(token_id, volume, price, who),
                Err(e) => old(self)@.create_outcome(who, token_id, volume@, price@) == Err::<
                    u128,
                    Error,
                >(e) && *final(self) == *old(self),
            },
            final(self)@ == old(self)@.after_create(who, token_id, volume@, price@),
    {
        match self.book.insert(token_id, who, volume, price) {
            Ok(_) => Ok(Event::SellOrderCreated(token_id, volume, price, who)),
            Err(e) => Err(e),
        }
    }

    /// Cancels a sell order for its seller: the order leaves the book. No
    /// balance is looked at or changed.
    ///
    /// Fails with `NoSwapExists` where no such order is open, and with
    /// `Unauthorized` where the caller is not its seller. The notification of
    /// a cancellation reports `true`: a failed action gives none.
    pub fn cancel_sell_order(&mut self, who: AccountId, order_id: u128) -> (r: Result<
        Event,
        Error,
    >)
        requires
            old(self).wf(),
        ensures
            final(self).wf(),
            match r {
                Ok(event) => old(self)@.cancel_outcome(who, order_id) is Ok && event
                    == Event::SellOrderCancelled(order_id, true),
                Err(e) => old(self)@.cancel_outcome(who, order_id) == Err::<nat, Error>(e)
                    && *final(self) == *old(self),
            },
            final(self)@ == old(self)@.after_cancel(who, order_id),
    {
        match self.book.remove(order_id, who) {
            Ok(_) => Ok(Event::SellOrderCancelled(order_id, true)),
            Err(e) => Err(e),
        }
    }

    /// Fills `volume` tokens from an open order that offers as much: the
    /// buyer pays the order's price for each token to the seller, and the
    /// order offers that much less.
    fn fill_from_book(&mut self, buyer: AccountId, order: Order, volume: U256) -> (r: Result<
        Event,
        Error,
    >)
        requires
            old(self).wf(),
            old(self)@.book.has(order.id),
            old(self)@.book.orders[order.id] == order@,
            volume@ <= order.volume@,
        ensures
            final(self).wf(),
            match r {
                Ok(event) => old(self)@.book_fill_outcome(buyer, order.id, volume@) is Ok
                    && reports_fill(
                    event,
                    Fill {
                        order_id: order.id,
                        seller: order.seller,
                        tokens: volume@,
                        cost: old(self)@.book_fill_outcome(buyer, order.id, volume@)->Ok_0,
                    },
                    buyer,
                ),
                Err(e) => old(self)@.book_fill_outcome(buyer, order.id, volume@) == Err::<
                    nat,
                    Error,
                >(e) && *final(self) == *old(self),
            },
            final(self)@ == old(self)@.after_book_fill(buyer, order.id, volume@),
    {
        let cost = match safe_mul(order.price, volume) {
            Ok(v) => v,
            Err(e) => {
                return Err(e);
            },
        };
        if self.ledger.balance(buyer, Asset::Currency).lt(&cost) {
            return Err(Error::NotEnoughCurrency);
        }
        if order.seller != buyer && safe_add(
            self.ledger.balance(order.seller, Asset::Currency),
            cost,
        ).is_err() {
            return Err(Error::StorageOverflow);
        }
        proof {
            self.ledger.lemma_balance_fits(buyer, Asset::Currency);
        }
        // Nothing below can fail: what could is ruled out above.
        if let Err(e) = self.ledger.debit(buyer, Asset::Currency, cost) {
            return Err(e);
        }
        if let Err(e) = self.ledger.credit(order.seller, Asset::Currency, cost) {
            return Err(e);
        }
        if let Err(e) = self.book.reduce(order.id, volume) {
            return Err(e);
        }
        proof {
            let expected = old(self)@.after_book_fill(buyer, order.id, volume@);
            assert(self@.balances =~= expected.balances);
        }
        Ok(Event::BuyOrderFilled(order.id, volume, cost, order.seller, buyer))
    }

    /// Buys `volume` tokens from the token's pool, for no more than
    /// `max_price` each.
    fn fill_from_pool(
        &mut self,
        buyer: AccountId,
        token_id: u128,
        max_price: U256,
        volume: U256,
    ) -> (r: Result<Event, Error>)
        requires
            old(self).wf(),
        ensures
            final(self).wf(),
            match old(self)@.pool_fill_terms(token_id, max_price@, volume@) {
                Err(e) => r == Err::<Event, Error>(e) && *final(self) == *old(self),
                Ok((needed, budget)) => {
                    let outcome = old(self)@.swap_outcome(
                        buyer,
                        token_id,
                        Direction::CurrencyIn,
                        needed,
                        Some(budget),
                        Some(volume@),
                    );
                    &&& final(self)@ == old(self)@.after_swap(
                        buyer,
                        token_id,
                        Direction::CurrencyIn,
                        needed,
                        Some(budget),
                        Some(volume@),
                    )
                    &&& match r {
                        Ok(event) => outcome is Ok && reports_fill(
                            event,
                            Fill {
                                order_id: 0,
                                seller: buyer,
                                tokens: outcome->Ok_0,
                                cost: needed,
                            },
                            buyer,
                        ),
                        Err(e) => outcome == Err::<nat, Error>(e) && *final(self) == *old(self),
                    }
                },
            },
    {
        let pool = self.pools.pool(token_id);
        let needed = match quote_input(pool.currency_reserve, pool.token_reserve, volume) {
            Ok(v) => v,
            Err(e) => {
                return Err(e);
            },
        };
        let budget = match safe_mul(max_price, volume) {
            Ok(v) => v,
            Err(e) => {
                return Err(e);
            },
        };
        match self.swap(
            buyer,
            token_id,
            Direction::CurrencyIn,
            needed,
            Some(budget),
            Some(volume),
        ) {
            Ok(out) => Ok(Event::BuyOrderFilled(0, out, needed, buyer, buyer)),
            Err(e) => Err(e),
        }
    }

    /// Buys `volume` tokens for an account at no more than `max_price` each.
    ///
    /// Where an open order for the token offers the whole volume at no more
    /// than `max_price`, the cheapest such order, and among equally cheap
    /// ones the earliest, is filled at its own price: the buyer pays the
    /// price for each token to the seller, and the order offers that much
    /// less. Otherwise the purchase is a swap of currency into the token's
    /// pool that pays in the least that buys the volume, and fails with
    /// `TooExpensiveCurrency` where that is more than `max_price * volume`.
    /// The notification names the order and its seller, or zero and the buyer
    /// for the pool, with the tokens sold and the currency paid.
    ///
    /// Fails with `NoTokensSwapped` for a zero volume and with
    /// `NoCurrencySwapped` for a zero price; else as the fill that was chosen
    /// fails.
    pub fn buy_order(
        &mut self,
        buyer: AccountId,
        token_id: u128,
        max_price: U256,
        volume: U256,
    ) -> (r: Result<Event, Error>)
        requires
            old(self).wf(),
        ensures
            final(self).wf(),
            match r {
                Ok(event) => old(self)@.buy_outcome(buyer, token_id, max_price@, volume@) is Ok
                    && reports_fill(
                    event,
                    old(self)@.buy_outcome(buyer, token_id, max_price@, volume@)->Ok_0,
                    buyer,
                ),
                Err(e) => old(self)@.buy_outcome(buyer, token_id, max_price@, volume@) == Err::<
                    Fill,
                    Error,
                >(e) && *final(self) == *old(self),
            },
            final(self)@ == old(self)@.after_buy(buyer, token_id, max_price@, volume@),
    {
        if volume.is_zero() {
            return Err(Error::NoTokensSwapped);
        }
        if max_price.is_zero() {
            return Err(Error::NoCurrencySwapped);
        }
        match self.book.best_match(token_id, max_price, volume) {
            Some(order) => self.fill_from_book(buyer, order, volume),
            None => self.fill_from_pool(buyer, token_id, max_price, volume),
        }
    }
}

/// The asset that a swap for a token in the given direction is paid in.
pub fn pays_in(direction: Direction, token_id: u128) -> (r: Asset)
    ensures
        r == asset_in(direction, token_id),
{
    match direction {
        Direction::TokenIn => Asset::Token(token_id),
        Direction::CurrencyIn => Asset::Currency,
    }
}

/// The asset that a swap for a token in the given direction pays out.
pub fn pays_out(direction: Direction, token_id: u128) -> (r: Asset)
    ensures
        r == asset_out(direction, token_id),
{
    match direction {
        Direction::TokenIn => Asset::Currency,
        Direction::CurrencyIn => Asset::Token(token_id),
    }
}

} // verus!
