//! What holds of the exchange whatever the state and the inputs: the laws
//! that relate its actions to each other.

use vstd::prelude::*;
use crate::math::{
    after_fee, lemma_after_fee_bounds, lemma_div_bounds, lemma_payout_reached,
    lemma_swap_input_least, swap_output,
};
use crate::orderbook::{
    best_match_of, goes_before, is_best_match, lemma_best_match_exists, offered, open_for,
    same_offer, serves, BookState, OrderState,
};
use crate::pallet::State;
use crate::pool::{
    lemma_deposit_keeps_wf, lemma_swap_keeps_wf, lemma_withdraw_keeps_wf, Direction, PoolState,
};
use crate::pools::{lemma_position_within_total, lemma_shares_of_all_replaced, shares_of_all};
use crate::types::{AccountId, Asset, Error};
use crate::u256::u256_limit;

verus! {

/// A sole provider gets back what it put in: where an account deposits into a
/// pool that is empty and then burns the shares that this minted, it is paid
/// exactly the tokens and the currency of the deposit, and the exchange is in
/// the state it was in before the deposit, with every balance as it was and
/// the pool's reserves and shares at zero.
///
/// The withdrawal multiplies a reserve by the shares before it divides, so
/// the law is stated for deposits whose amounts multiply within 256 bits.
pub proof fn lemma_deposit_then_withdraw_restores(
    s: State,
    who: AccountId,
    token_id: u128,
    token_amount: nat,
    currency_amount: nat,
)
    requires
        s.wf(),
        s.pools.pools[token_id].total_shares == 0,
        s.deposit_outcome(who, token_id, token_amount, currency_amount) is Ok,
        token_amount * token_amount < u256_limit(),
        currency_amount * token_amount < u256_limit(),
    ensures
        ({
            let (currency, minted) = s.deposit_outcome(
                who,
                token_id,
                token_amount,
                currency_amount,
            )->Ok_0;
            let mid = s.after_add_liquidity(who, token_id, token_amount, currency_amount);
            let end = mid.after_remove_liquidity(who, token_id, minted);
            &&& currency == currency_amount
            &&& minted == token_amount
            &&& mid.pools.positions[(token_id, who)] == mid.pools.pools[token_id].total_shares
            &&& mid.withdraw_outcome(who, token_id, minted) == Ok::<(nat, nat), Error>(
                (token_amount, currency_amount),
            )
            &&& end.pools.pools[token_id] == PoolState::empty()
            &&& end.balance(who, Asset::Token(token_id)) == s.balance(who, Asset::Token(token_id))
            &&& end.balance(who, Asset::Currency) == s.balance(who, Asset::Currency)
            &&& end == s
        }),
{
    let pool = s.pools.pools[token_id];
    assert(pool.wf());
    lemma_position_within_total(s.pools, token_id, who);
    let mid = s.after_add_liquidity(who, token_id, token_amount, currency_amount);
    let grown = mid.pools.pools[token_id];
    assert(grown.token_reserve == token_amount && grown.currency_reserve == currency_amount
        && grown.total_shares == token_amount);
    assert(mid.pools.positions[(token_id, who)] == token_amount);
    assert(s.balances[(who, Asset::Token(token_id))] < u256_limit());
    assert(s.balances[(who, Asset::Currency)] < u256_limit());
    assert(token_amount * token_amount / token_amount == token_amount) by (nonlinear_arith)
        requires
            token_amount > 0,
    ;
    assert(currency_amount * token_amount / token_amount == currency_amount)
        by (nonlinear_arith)
        requires
            token_amount > 0,
    ;
    let end = mid.after_remove_liquidity(who, token_id, token_amount);
    assert(end.balances =~= s.balances);
    assert(end.pools.pools =~= s.pools.pools);
    assert(end.pools.positions =~= s.pools.positions);
}

/// Burning all shares of a pool pays out all that it holds and leaves it
/// empty.
pub proof fn lemma_withdraw_all_empties_pool(s: State, who: AccountId, token_id: u128)
    requires
        s.wf(),
        s.pools.positions[(token_id, who)] == s.pools.pools[token_id].total_shares,
        s.withdraw_outcome(who, token_id, s.pools.pools[token_id].total_shares) is Ok,
    ensures
        ({
            let pool = s.pools.pools[token_id];
            let end = s.after_remove_liquidity(who, token_id, pool.total_shares);
            &&& s.withdraw_outcome(who, token_id, pool.total_shares) == Ok::<(nat, nat), Error>(
                (pool.token_reserve, pool.currency_reserve),
            )
            &&& end.pools.pools[token_id] == PoolState::empty()
            &&& end.pools.positions[(token_id, who)] == 0
        }),
{
    let pool = s.pools.pools[token_id];
    assert(pool.wf());
    lemma_withdraw_keeps_wf(pool, pool.total_shares, pool.total_shares);
}

/// A swap leaves a valid state, in which the product of the pool's reserves
/// is at least what it was, and more where the swap took effect and paid
/// anything in, and the pool has the shares that it had.
pub proof fn lemma_swap_keeps_invariants(
    s: State,
    who: AccountId,
    token_id: u128,
    direction: Direction,
    amount_in: nat,
    max_input: Option<nat>,
    min_output: Option<nat>,
)
    requires
        s.wf(),
    ensures
        ({
            let end = s.after_swap(who, token_id, direction, amount_in, max_input, min_output);
            &&& end.wf()
            &&& end.pools.pools[token_id].product() >= s.pools.pools[token_id].product()
            &&& amount_in > 0 && s.swap_outcome(
                who,
                token_id,
                direction,
                amount_in,
                max_input,
                min_output,
            ) is Ok ==> end.pools.pools[token_id].product() > s.pools.pools[token_id].product()
            &&& end.pools.pools[token_id].total_shares == s.pools.pools[token_id].total_shares
            &&& end.pools.positions == s.pools.positions
            &&& end.book == s.book
        }),
{
    let pool = s.pools.pools[token_id];
    assert(pool.wf());
    if s.swap_outcome(who, token_id, direction, amount_in, max_input, min_output) is Ok {
        lemma_swap_keeps_wf(pool, direction, amount_in, max_input, min_output);
        let end = s.after_swap(who, token_id, direction, amount_in, max_input, min_output);
        assert forall|k: (AccountId, Asset)| (#[trigger] end.balances[k]) < u256_limit() by {
            assert(s.balances[k] < u256_limit());
        }
        assert forall|t: u128| (#[trigger] end.pools.pools[t]).wf() by {
            assert(s.pools.pools[t].wf());
        }
        assert forall|t: u128| #[trigger]
            shares_of_all(end.pools.positions, t) == end.pools.pools[t].total_shares by {
            assert(shares_of_all(s.pools.positions, t) == s.pools.pools[t].total_shares);
        }
    }
}

/// Price before time, and the book before the pool: where an open order can
/// serve the whole volume of a purchase within its price, the purchase is
/// matched with an order that goes before it, which is no dearer and, if as
/// dear, no younger. A purchase that succeeds then fills that order, at that
/// order's price, and leaves the pools as they were.
pub proof fn lemma_buy_prefers_book(
    s: State,
    buyer: AccountId,
    token_id: u128,
    max_price: nat,
    volume: nat,
    id: u128,
)
    requires
        s.wf(),
        volume > 0,
        max_price > 0,
        s.book.has(id),
        serves(s.book.orders[id], token_id, max_price, volume),
    ensures
        best_match_of(s.book, token_id, max_price, volume) is Some,
        ({
            let matched = best_match_of(s.book, token_id, max_price, volume)->Some_0;
            &&& s.book.has(matched)
            &&& serves(s.book.orders[matched], token_id, max_price, volume)
            &&& goes_before(s.book.orders[matched], s.book.orders[id])
            &&& s.after_buy(buyer, token_id, max_price, volume).pools == s.pools
            &&& match s.buy_outcome(buyer, token_id, max_price, volume) {
                Ok(fill) => fill.order_id == matched && fill.order_id != 0 && fill.seller
                    == s.book.orders[matched].seller && fill.tokens == volume && fill.cost
                    == s.book.orders[matched].price * volume,
                Err(_) => true,
            }
        }),
{
    lemma_best_match_exists(s.book, id, token_id, max_price, volume);
    let matched = best_match_of(s.book, token_id, max_price, volume)->Some_0;
    assert(s.book.orders.dom().contains(id));
    assert(s.book.orders.dom().contains(matched));
}

/// Of two open orders that can both serve a purchase, the dearer one is not
/// matched, and of two that are as dear, the younger one is not.
pub proof fn lemma_later_order_waits(
    book: BookState,
    first: u128,
    second: u128,
    token_id: u128,
    max_price: nat,
    volume: nat,
)
    requires
        book.wf(),
        book.has(first),
        book.has(second),
        first != second,
        serves(book.orders[first], token_id, max_price, volume),
        goes_before(book.orders[first], book.orders[second]),
    ensures
        best_match_of(book, token_id, max_price, volume) != Some(second),
{
    lemma_best_match_exists(book, first, token_id, max_price, volume);
    let matched = best_match_of(book, token_id, max_price, volume)->Some_0;
    if matched == second {
        assert(book.orders.dom().contains(first));
        assert(book.orders.dom().contains(second));
        assert(goes_before(book.orders[second], book.orders[first]));
    }
}

/// A purchase never pays more than the price it allows for each token, and
/// never fills less than the volume asked for.
pub proof fn lemma_buy_within_bounds(
    s: State,
    buyer: AccountId,
    token_id: u128,
    max_price: nat,
    volume: nat,
)
    requires
        s.wf(),
        s.buy_outcome(buyer, token_id, max_price, volume) is Ok,
    ensures
        s.buy_outcome(buyer, token_id, max_price, volume)->Ok_0.tokens >= volume,
        s.buy_outcome(buyer, token_id, max_price, volume)->Ok_0.cost <= max_price * volume,
{
    match best_match_of(s.book, token_id, max_price, volume) {
        Some(id) => {
            let chosen = choose|id: u128| is_best_match(s.book, id, token_id, max_price, volume);
            assert(is_best_match(s.book, chosen, token_id, max_price, volume));
            let price = s.book.orders[id].price;
            assert(price * volume <= max_price * volume) by (nonlinear_arith)
                requires
                    price <= max_price,
            ;
        },
        None => {
            let pool = s.pools.pools[token_id];
            assert(pool.wf());
            let (needed, budget) = s.pool_fill_terms(token_id, max_price, volume)->Ok_0;
            lemma_swap_keeps_wf(pool, Direction::CurrencyIn, needed, Some(budget), Some(volume));
        },
    }
}

/// What a purchase from the pool pays in is the least amount of currency for
/// which the pool pays out the volume: any less would buy fewer tokens.
pub proof fn lemma_pool_purchase_is_cheapest(
    s: State,
    token_id: u128,
    max_price: nat,
    volume: nat,
    less: nat,
)
    requires
        s.wf(),
        s.pool_fill_terms(token_id, max_price, volume) is Ok,
        less < s.pool_fill_terms(token_id, max_price, volume)->Ok_0.0,
    ensures
        swap_output(
            s.pools.pools[token_id].currency_reserve,
            s.pools.pools[token_id].token_reserve,
            less,
        ) < volume,
        swap_output(
            s.pools.pools[token_id].currency_reserve,
            s.pools.pools[token_id].token_reserve,
            s.pool_fill_terms(token_id, max_price, volume)->Ok_0.0,
        ) >= volume,
{
    let pool = s.pools.pools[token_id];
    assert(pool.wf());
    let needed = s.pool_fill_terms(token_id, max_price, volume)->Ok_0.0;
    lemma_swap_input_least(pool.currency_reserve, pool.token_reserve, volume, less);
    lemma_swap_input_least(pool.currency_reserve, pool.token_reserve, volume, needed);
}

/// An account that is not the seller cannot cancel an order: the attempt
/// fails with `Unauthorized` and leaves everything as it was.
pub proof fn lemma_cancel_by_other_fails(s: State, who: AccountId, order_id: u128)
    requires
        s.book.has(order_id),
        s.book.orders[order_id].seller != who,
    ensures
        s.cancel_outcome(who, order_id) == Err::<nat, Error>(Error::Unauthorized),
        s.after_cancel(who, order_id) == s,
{
}

/// The seller can always cancel, and a cancelled order is gone: where the
/// caller is the seller of an open order, cancelling succeeds and frees what
/// the order still offered; after it the order is not in the book, every
/// balance and every pool is as it was, and cancelling it again fails with
/// `NoSwapExists`, whoever tries. Its number is not handed out again.
pub proof fn lemma_cancel_removes_order(
    s: State,
    who: AccountId,
    order_id: u128,
    again: AccountId,
)
    requires
        s.wf(),
        s.book.has(order_id),
        s.book.orders[order_id].seller == who,
    ensures
        ({
            let end = s.after_cancel(who, order_id);
            let order = s.book.orders[order_id];
            &&& s.cancel_outcome(who, order_id) == Ok::<nat, Error>(order.volume)
            &&& !end.book.has(order_id)
            &&& end.book.orders == s.book.orders.remove(order_id)
            &&& end.balances == s.balances
            &&& end.pools == s.pools
            &&& end.cancel_outcome(again, order_id) == Err::<nat, Error>(Error::NoSwapExists)
            &&& end.book.next_id == s.book.next_id
            &&& order_id < end.book.next_id
        }),
{
    assert(s.book.orders.dom().contains(order_id));
}

/// An order without volume or without a price is refused, whatever else
/// holds: a zero volume fails with `ZeroTokens`, and a zero price at a
/// volume that is not zero with `ZeroAmount`.
pub proof fn lemma_create_rejects_zero(
    s: State,
    who: AccountId,
    token_id: u128,
    volume: nat,
    price: nat,
)
    ensures
        volume == 0 ==> s.create_outcome(who, token_id, volume, price) == Err::<u128, Error>(
            Error::ZeroTokens,
        ),
        volume > 0 && price == 0 ==> s.create_outcome(who, token_id, volume, price) == Err::<
            u128,
            Error,
        >(Error::ZeroAmount),
        volume == 0 || price == 0 ==> s.after_create(who, token_id, volume, price) == s,
{
}

/// Every new offer is taken: with a volume and a price above zero, no open
/// order of the seller that is the same offer, and a counter that is not
/// used up, opening a sell order succeeds, whatever the seller holds.
pub proof fn lemma_create_takes_new_offer(
    s: State,
    who: AccountId,
    token_id: u128,
    volume: nat,
    price: nat,
)
    requires
        volume > 0,
        price > 0,
        !offered(s.book, token_id, who, volume, price),
        s.book.next_id < u128::MAX,
    ensures
        s.create_outcome(who, token_id, volume, price) == Ok::<u128, Error>(s.book.next_id),
{
}

/// The same offer is refused while it is open, and another offer stands
/// beside it: after a seller has opened an offer, opening it again fails with
/// `SwapAlreadyExists` and changes nothing, while an offer of the same seller
/// for the same token at another volume or price, which is not open yet, is
/// taken, and both orders are then open under different numbers.
pub proof fn lemma_offers_of_one_seller(
    s: State,
    who: AccountId,
    token_id: u128,
    volume: nat,
    price: nat,
    other_volume: nat,
    other_price: nat,
)
    requires
        s.wf(),
        s.create_outcome(who, token_id, volume, price) is Ok,
        other_volume > 0,
        other_price > 0,
        other_volume != volume || other_price != price,
        !offered(s.book, token_id, who, other_volume, other_price),
        s.book.next_id + 1 < u128::MAX,
    ensures
        ({
            let first = s.create_outcome(who, token_id, volume, price)->Ok_0;
            let mid = s.after_create(who, token_id, volume, price);
            let end = mid.after_create(who, token_id, other_volume, other_price);
            &&& mid.create_outcome(who, token_id, volume, price) == Err::<u128, Error>(
                Error::SwapAlreadyExists,
            )
            &&& mid.after_create(who, token_id, volume, price) == mid
            &&& mid.create_outcome(who, token_id, other_volume, other_price) == Ok::<
                u128,
                Error,
            >((first + 1) as u128)
            &&& end.book.has(first)
            &&& end.book.has((first + 1) as u128)
            &&& end.book.orders[first] == (OrderState {
                id: first,
                token_id,
                seller: who,
                volume,
                price,
            })
            &&& end.book.orders[(first + 1) as u128] == (OrderState {
                id: (first + 1) as u128,
                token_id,
                seller: who,
                volume: other_volume,
                price: other_price,
            })
        }),
{
    let first = s.book.next_id;
    let mid = s.after_create(who, token_id, volume, price);
    assert(mid.book.orders.dom().contains(first));
    assert(same_offer(mid.book.orders[first], token_id, who, volume, price));
    if offered(mid.book, token_id, who, other_volume, other_price) {
        let id = choose|id: u128| #[trigger]
            mid.book.orders.dom().contains(id) && same_offer(
                mid.book.orders[id],
                token_id,
                who,
                other_volume,
                other_price,
            );
        assert(id != first);
        assert(s.book.orders.dom().contains(id));
    }
}

/// No order number is handed out twice: whatever actions were attempted since
/// a state, an order that is opened then gets a number that is at least the
/// counter of that state, and so above every number handed out up to it.
pub proof fn lemma_order_numbers_are_not_reused(
    s: State,
    actions: Seq<Action>,
    who: AccountId,
    token_id: u128,
    volume: nat,
    price: nat,
    earlier: u128,
)
    requires
        s.wf(),
        earlier < s.book.next_id,
        run(s, actions).create_outcome(who, token_id, volume, price) is Ok,
    ensures
        run(s, actions).create_outcome(who, token_id, volume, price)->Ok_0 >= s.book.next_id,
        run(s, actions).create_outcome(who, token_id, volume, price)->Ok_0 > earlier,
        !run(s, actions).book.has(
            run(s, actions).create_outcome(who, token_id, volume, price)->Ok_0,
        ),
{
    lemma_run_keeps_invariants(s, actions, token_id);
    lemma_order_number_is_fresh(run(s, actions), who, token_id, volume, price);
}

/// A new order gets a number that no open order has and that was never
/// handed out, and the counter moves past it. The book gains that order and
/// no other, and every balance and every pool is as it was.
pub proof fn lemma_order_number_is_fresh(
    s: State,
    who: AccountId,
    token_id: u128,
    volume: nat,
    price: nat,
)
    requires
        s.wf(),
        s.create_outcome(who, token_id, volume, price) is Ok,
    ensures
        ({
            let id = s.create_outcome(who, token_id, volume, price)->Ok_0;
            let end = s.after_create(who, token_id, volume, price);
            &&& id == s.book.next_id
            &&& id >= 1
            &&& !s.book.has(id)
            &&& end.book.has(id)
            &&& end.book.next_id == id + 1
            &&& end.book.orders == s.book.orders.insert(
                id,
                OrderState { id, token_id, seller: who, volume, price },
            )
            &&& open_for(end.book, token_id, id)
            &&& end.balances == s.balances
            &&& end.pools == s.pools
        }),
{
    let id = s.book.next_id;
    if s.book.has(id) {
        assert(s.book.orders.dom().contains(id));
    }
}

/// Opening a sell order leaves a valid state, in which the order counter has
/// not fallen and the balances and the pools are as they were.
pub proof fn lemma_create_keeps_wf(
    s: State,
    who: AccountId,
    token_id: u128,
    volume: nat,
    price: nat,
)
    requires
        s.wf(),
    ensures
        s.after_create(who, token_id, volume, price).wf(),
        s.after_create(who, token_id, volume, price).book.next_id >= s.book.next_id,
        s.after_create(who, token_id, volume, price).balances == s.balances,
        s.after_create(who, token_id, volume, price).pools == s.pools,
{
    let end = s.after_create(who, token_id, volume, price);
    if s.create_outcome(who, token_id, volume, price) is Ok {
        assert forall|id: u128| #[trigger] end.book.orders.dom().contains(id) implies {
            &&& end.book.orders[id].id == id
            &&& 1 <= id < end.book.next_id
            &&& end.book.orders[id].volume > 0
            &&& end.book.orders[id].price > 0
        } by {
            if id != s.book.next_id {
                assert(s.book.orders.dom().contains(id));
            }
        }
    }
}

/// Cancelling a sell order leaves a valid state, in which the order counter,
/// the balances and the pools are as they were.
pub proof fn lemma_cancel_keeps_wf(s: State, who: AccountId, order_id: u128)
    requires
        s.wf(),
    ensures
        s.after_cancel(who, order_id).wf(),
        s.after_cancel(who, order_id).book.next_id == s.book.next_id,
        s.after_cancel(who, order_id).balances == s.balances,
        s.after_cancel(who, order_id).pools == s.pools,
{
    let end = s.after_cancel(who, order_id);
    if s.cancel_outcome(who, order_id) is Ok {
        assert forall|id: u128| #[trigger] end.book.orders.dom().contains(id) implies {
            &&& end.book.orders[id].id == id
            &&& 1 <= id < end.book.next_id
            &&& end.book.orders[id].volume > 0
            &&& end.book.orders[id].price > 0
        } by {
            assert(s.book.orders.dom().contains(id));
        }
    }
}

/// A purchase leaves a valid state, in which the order counter and every
/// account's shares of every pool are as they were.
pub proof fn lemma_buy_keeps_wf(
    s: State,
    buyer: AccountId,
    token_id: u128,
    max_price: nat,
    volume: nat,
)
    requires
        s.wf(),
    ensures
        s.after_buy(buyer, token_id, max_price, volume).wf(),
        s.after_buy(buyer, token_id, max_price, volume).book.next_id == s.book.next_id,
        s.after_buy(buyer, token_id, max_price, volume).pools.positions == s.pools.positions,
{
    let end = s.after_buy(buyer, token_id, max_price, volume);
    if s.buy_outcome(buyer, token_id, max_price, volume) is Ok {
        match best_match_of(s.book, token_id, max_price, volume) {
            Some(matched) => {
                let chosen = choose|id: u128|
                    is_best_match(s.book, id, token_id, max_price, volume);
                assert(is_best_match(s.book, chosen, token_id, max_price, volume));
                assert(s.book.orders.dom().contains(matched));
                let order = s.book.orders[matched];
                assert(s.balances[(buyer, Asset::Currency)] < u256_limit());
                assert forall|k: (AccountId, Asset)| (#[trigger] end.balances[k])
                    < u256_limit() by {
                    assert(s.balances[k] < u256_limit());
                }
                assert forall|id: u128| #[trigger] end.book.orders.dom().contains(id) implies {
                    &&& end.book.orders[id].id == id
                    &&& 1 <= id < end.book.next_id
                    &&& end.book.orders[id].volume > 0
                    &&& end.book.orders[id].price > 0
                } by {
                    assert(s.book.orders.dom().contains(id));
                }
            },
            None => {
                let (needed, budget) = s.pool_fill_terms(token_id, max_price, volume)->Ok_0;
                lemma_swap_keeps_invariants(
                    s,
                    buyer,
                    token_id,
                    Direction::CurrencyIn,
                    needed,
                    Some(budget),
                    Some(volume),
                );
            },
        }
    }
}

/// Adding liquidity leaves a valid state, in which the book is as it was.
pub proof fn lemma_add_liquidity_keeps_wf(
    s: State,
    who: AccountId,
    token_id: u128,
    token_amount: nat,
    currency_amount: nat,
)
    requires
        s.wf(),
    ensures
        s.after_add_liquidity(who, token_id, token_amount, currency_amount).wf(),
        s.after_add_liquidity(who, token_id, token_amount, currency_amount).book == s.book,
{
    let end = s.after_add_liquidity(who, token_id, token_amount, currency_amount);
    if s.deposit_outcome(who, token_id, token_amount, currency_amount) is Ok {
        let pool = s.pools.pools[token_id];
        assert(pool.wf());
        assert(s.balances[(who, Asset::Token(token_id))] < u256_limit());
        assert(s.balances[(who, Asset::Currency)] < u256_limit());
        lemma_deposit_keeps_wf(pool, token_amount, currency_amount);
        assert forall|k: (AccountId, Asset)| (#[trigger] end.balances[k]) < u256_limit() by {
            assert(s.balances[k] < u256_limit());
        }
        assert forall|t: u128| (#[trigger] end.pools.pools[t]).wf() by {
            assert(s.pools.pools[t].wf());
        }
        assert forall|t: u128| #[trigger]
            shares_of_all(end.pools.positions, t) == end.pools.pools[t].total_shares by {
            assert(shares_of_all(s.pools.positions, t) == s.pools.pools[t].total_shares);
            lemma_shares_of_all_replaced(
                s.pools.positions,
                token_id,
                who,
                end.pools.positions[(token_id, who)],
                t,
            );
            assert(end.pools.positions =~= s.pools.positions.insert(
                (token_id, who),
                end.pools.positions[(token_id, who)],
            ));
        }
    }
}

/// Removing liquidity leaves a valid state, in which the book is as it was.
pub proof fn lemma_remove_liquidity_keeps_wf(
    s: State,
    who: AccountId,
    token_id: u128,
    shares: nat,
)
    requires
        s.wf(),
    ensures
        s.after_remove_liquidity(who, token_id, shares).wf(),
        s.after_remove_liquidity(who, token_id, shares).book == s.book,
{
    let end = s.after_remove_liquidity(who, token_id, shares);
    if s.withdraw_outcome(who, token_id, shares) is Ok {
        let pool = s.pools.pools[token_id];
        assert(pool.wf());
        lemma_position_within_total(s.pools, token_id, who);
        lemma_withdraw_keeps_wf(pool, s.pools.positions[(token_id, who)], shares);
        assert forall|k: (AccountId, Asset)| (#[trigger] end.balances[k]) < u256_limit() by {
            assert(s.balances[k] < u256_limit());
        }
        assert forall|t: u128| (#[trigger] end.pools.pools[t]).wf() by {
            assert(s.pools.pools[t].wf());
        }
        assert forall|t: u128| #[trigger]
            shares_of_all(end.pools.positions, t) == end.pools.pools[t].total_shares by {
            assert(shares_of_all(s.pools.positions, t) == s.pools.pools[t].total_shares);
            lemma_shares_of_all_replaced(
                s.pools.positions,
                token_id,
                who,
                end.pools.positions[(token_id, who)],
                t,
            );
            assert(end.pools.positions =~= s.pools.positions.insert(
                (token_id, who),
                end.pools.positions[(token_id, who)],
            ));
        }
    }
}

/// One action on the exchange, with the account that takes it.
pub enum Action {
    CreateSellOrder { who: AccountId, token_id: u128, volume: nat, price: nat },
    CancelSellOrder { who: AccountId, order_id: u128 },
    BuyOrder { buyer: AccountId, token_id: u128, max_price: nat, volume: nat },
    AddLiquidity { who: AccountId, token_id: u128, token_amount: nat, currency_amount: nat },
    RemoveLiquidity { who: AccountId, token_id: u128, shares: nat },
    Swap {
        who: AccountId,
        token_id: u128,
        direction: Direction,
        amount_in: nat,
        max_input: Option<nat>,
        min_output: Option<nat>,
    },
}

impl Action {
    /// Whether the action adds liquidity to the token's pool or removes some
    /// from it.
    pub open spec fn moves_liquidity_of(self, token: u128) -> bool {
        match self {
            Action::AddLiquidity { token_id, .. } => token_id == token,
            Action::RemoveLiquidity { token_id, .. } => token_id == token,
            _ => false,
        }
    }
}

/// The state after an action was attempted: the state that the action leaves
/// where it takes effect, and the same state where it fails.
pub open spec fn step(s: State, action: Action) -> State {
    match action {
        Action::CreateSellOrder { who, token_id, volume, price } => s.after_create(
            who,
            token_id,
            volume,
            price,
        ),
        Action::CancelSellOrder { who, order_id } => s.after_cancel(who, order_id),
        Action::BuyOrder { buyer, token_id, max_price, volume } => s.after_buy(
            buyer,
            token_id,
            max_price,
            volume,
        ),
        Action::AddLiquidity { who, token_id, token_amount, currency_amount } => {
            s.after_add_liquidity(who, token_id, token_amount, currency_amount)
        },
        Action::RemoveLiquidity { who, token_id, shares } => s.after_remove_liquidity(
            who,
            token_id,
            shares,
        ),
        Action::Swap { who, token_id, direction, amount_in, max_input, min_output } => {
            s.after_swap(who, token_id, direction, amount_in, max_input, min_output)
        },
    }
}

/// The state after a series of actions was attempted, one after the other.
pub open spec fn run(s: State, actions: Seq<Action>) -> State
    decreases actions.len(),
{
    if actions.len() == 0 {
        s
    } else {
        step(run(s, actions.drop_last()), actions.last())
    }
}

/// Whatever action is attempted on a valid state, the state after it is
/// valid, the order counter has not fallen, and a pool that the action adds
/// no liquidity to and removes none from has the shares that it had and
/// reserves whose product is at least what it was.
pub proof fn lemma_step_keeps_invariants(s: State, action: Action, token: u128)
    requires
        s.wf(),
    ensures
        step(s, action).wf(),
        step(s, action).book.next_id >= s.book.next_id,
        !action.moves_liquidity_of(token) ==> step(s, action).pools.pools[token].product()
            >= s.pools.pools[token].product() && step(s, action).pools.pools[token].total_shares
            == s.pools.pools[token].total_shares,
{
    match action {
        Action::CreateSellOrder { who, token_id, volume, price } => {
            lemma_create_keeps_wf(s, who, token_id, volume, price);
        },
        Action::CancelSellOrder { who, order_id } => {
            lemma_cancel_keeps_wf(s, who, order_id);
        },
        Action::BuyOrder { buyer, token_id, max_price, volume } => {
            lemma_buy_keeps_wf(s, buyer, token_id, max_price, volume);
            if s.buy_outcome(buyer, token_id, max_price, volume) is Ok && best_match_of(
                s.book,
                token_id,
                max_price,
                volume,
            ) is None {
                let (needed, budget) = s.pool_fill_terms(token_id, max_price, volume)->Ok_0;
                lemma_swap_keeps_invariants(
                    s,
                    buyer,
                    token_id,
                    Direction::CurrencyIn,
                    needed,
                    Some(budget),
                    Some(volume),
                );
            }
        },
        Action::AddLiquidity { who, token_id, token_amount, currency_amount } => {
            lemma_add_liquidity_keeps_wf(s, who, token_id, token_amount, currency_amount);
        },
        Action::RemoveLiquidity { who, token_id, shares } => {
            lemma_remove_liquidity_keeps_wf(s, who, token_id, shares);
        },
        Action::Swap { who, token_id, direction, amount_in, max_input, min_output } => {
            lemma_swap_keeps_invariants(
                s,
                who,
                token_id,
                direction,
                amount_in,
                max_input,
                min_output,
            );
        },
    }
}

/// However many actions are attempted, and whichever of them fail, every
/// state on the way is valid, the order counter never falls, and the product
/// of a pool's reserves never falls while no liquidity is added to the pool
/// or removed from it.
pub proof fn lemma_run_keeps_invariants(s: State, actions: Seq<Action>, token: u128)
    requires
        s.wf(),
    ensures
        run(s, actions).wf(),
        run(s, actions).book.next_id >= s.book.next_id,
        (forall|i: int| 0 <= i < actions.len() ==> !(#[trigger] actions[i]).moves_liquidity_of(
            token,
        )) ==> run(s, actions).pools.pools[token].product() >= s.pools.pools[token].product()
            && run(s, actions).pools.pools[token].total_shares
            == s.pools.pools[token].total_shares,
    decreases actions.len(),
{
    if actions.len() > 0 {
        let before = actions.drop_last();
        lemma_run_keeps_invariants(s, before, token);
        lemma_step_keeps_invariants(run(s, before), actions.last(), token);
        if forall|i: int| 0 <= i < actions.len() ==> !(#[trigger] actions[i]).moves_liquidity_of(
            token,
        ) {
            assert forall|i: int| 0 <= i < before.len() implies !(#[trigger] before[i]).moves_liquidity_of(
                token,
            ) by {
                assert(before[i] == actions[i]);
            }
            assert(!actions[actions.len() - 1].moves_liquidity_of(token));
        }
    }
}

/// A pool pays out no less for a larger amount paid in.
pub proof fn lemma_swap_output_monotonic(reserve_in: nat, reserve_out: nat, a: nat, b: nat)
    requires
        reserve_in > 0,
        a <= b,
    ensures
        swap_output(reserve_in, reserve_out, a) <= swap_output(reserve_in, reserve_out, b),
{
    let fa = after_fee(a);
    let fb = after_fee(b);
    lemma_after_fee_bounds(a, b);
    let x = swap_output(reserve_in, reserve_out, a);
    let y = swap_output(reserve_in, reserve_out, b);
    lemma_payout_reached(reserve_in, reserve_out, fa, x);
    assert(fb * (reserve_out - x) >= fa * (reserve_out - x) || reserve_out < x)
        by (nonlinear_arith)
        requires
            fa <= fb,
    ;
    lemma_div_bounds(reserve_out * fa, reserve_in + fa);
    assert(x <= reserve_out) by (nonlinear_arith)
        requires
            x * (reserve_in + fa) <= reserve_out * fa,
            reserve_in > 0,
    ;
    lemma_payout_reached(reserve_in, reserve_out, fb, x);
}

} // verus!
