//! The constant-product liquidity pool of one token: what a deposit, a
//! withdrawal and a swap take and give.

use vstd::prelude::*;
use crate::math::{
    lemma_div_bounds, lemma_swap_keeps_product, minus, mul_div, mul_div_result, plus,
    quote_output, safe_add, swap_output, swap_output_result,
};
use crate::types::{same_amount, Error};
use crate::u256::{u256_limit, U256};

verus! {


/// Which side of a pool a swap pays into.
#[derive(Clone, Copy, Debug, PartialEq, Eq, Structural)]
pub enum Direction {
    /// Tokens are paid in and currency is paid out.
    TokenIn,
    /// Currency is paid in and tokens are paid out.
    CurrencyIn,
}

/// The pool of one token.
#[derive(Clone, Copy, Debug, PartialEq, Eq, Structural)]
pub struct Pool {
    /// The token that the pool trades against currency.
    pub token_id: u128,
    /// The tokens that the pool holds.
    pub token_reserve: U256,
    /// The currency that the pool holds.
    pub currency_reserve: U256,
    /// The shares that liquidity providers hold of the pool.
    pub total_shares: U256,
}

/// A pool with its amounts as numbers.
pub struct PoolState {
    pub token_reserve: nat,
    pub currency_reserve: nat,
    pub total_shares: nat,
}

impl View for Pool {
    type V = PoolState;

    open spec fn view(&self) -> PoolState {
        PoolState {
            token_reserve: self.token_reserve@,
            currency_reserve: self.currency_reserve@,
            total_shares: self.total_shares@,
        }
    }
}

impl PoolState {
    /// The pool that holds nothing.
    pub open spec fn empty() -> PoolState {
        PoolState { token_reserve: 0, currency_reserve: 0, total_shares: 0 }
    }

    /// What holds of every pool: it has shares exactly when it holds tokens,
    /// and exactly when it holds currency; and every amount fits in 256 bits.
    pub open spec fn wf(self) -> bool {
        &&& self.token_reserve < u256_limit()
        &&& self.currency_reserve < u256_limit()
        &&& self.total_shares < u256_limit()
        &&& (self.total_shares == 0 <==> self.token_reserve == 0)
        &&& (self.total_shares == 0 <==> self.currency_reserve == 0)
    }

    /// The product of the two reserves.
    pub open spec fn product(self) -> nat {
        self.token_reserve * self.currency_reserve
    }

    /// The reserve that a swap in the given direction pays into.
    pub open spec fn reserve_in(self, direction: Direction) -> nat {
        match direction {
            Direction::TokenIn => self.token_reserve,
            Direction::CurrencyIn => self.currency_reserve,
        }
    }

    /// The reserve that a swap in the given direction pays from.
    pub open spec fn reserve_out(self, direction: Direction) -> nat {
        match direction {
            Direction::TokenIn => self.currency_reserve,
            Direction::CurrencyIn => self.token_reserve,
        }
    }

    /// The pool after a swap that paid `amount_in` in and `amount_out` out.
    pub open spec fn swapped(
        self,
        direction: Direction,
        amount_in: nat,
        amount_out: nat,
    ) -> PoolState {
        match direction {
            Direction::TokenIn => PoolState {
                token_reserve: self.token_reserve + amount_in,
                currency_reserve: (self.currency_reserve - amount_out) as nat,
                total_shares: self.total_shares,
            },
            Direction::CurrencyIn => PoolState {
                token_reserve: (self.token_reserve - amount_out) as nat,
                currency_reserve: self.currency_reserve + amount_in,
                total_shares: self.total_shares,
            },
        }
    }
}

/// The error for a swap that would cost more of what is paid in than its
/// bounds allow.
pub open spec fn too_expensive(direction: Direction) -> Error {
    match direction {
        Direction::TokenIn => Error::TooExpensiveTokens,
        Direction::CurrencyIn => Error::TooExpensiveCurrency,
    }
}

/// A bound as a number, where one is given.
pub open spec fn bound_of(bound: Option<U256>) -> Option<nat> {
    match bound {
        Some(b) => Some(b@),
        None => None,
    }
}

/// Whether two computed amounts are the expected ones.
pub open spec fn same_amounts(
    r: Result<(U256, U256), Error>,
    expected: Result<(nat, nat), Error>,
) -> bool {
    match r {
        Ok(v) => expected == Ok::<(nat, nat), Error>((v.0@, v.1@)),
        Err(e) => expected == Err::<(nat, nat), Error>(e),
    }
}

/// What a deposit of `token_amount` tokens with up to `currency_amount`
/// currency takes and mints: the currency taken, then the shares minted.
///
/// An empty pool takes both amounts whole and mints as many shares as tokens.
/// Any other pool takes currency in the proportion of its reserves and mints
/// shares in the proportion of the tokens added, both rounded down.
pub open spec fn deposit_result(pool: PoolState, token_amount: nat, currency_amount: nat) -> Result<
    (nat, nat),
    Error,
> {
    if token_amount == 0 {
        Err(Error::ZeroTokens)
    } else if currency_amount == 0 {
        Err(Error::ZeroAmount)
    } else if pool.total_shares == 0 {
        Ok((currency_amount, token_amount))
    } else {
        match mul_div_result(token_amount, pool.currency_reserve, pool.token_reserve) {
            Err(e) => Err(e),
            Ok(required) => if currency_amount < required {
                Err(Error::NotEnoughCurrency)
            } else {
                match mul_div_result(pool.total_shares, token_amount, pool.token_reserve) {
                    Err(e) => Err(e),
                    Ok(minted) => if minted == 0 {
                        Err(Error::RequestedZeroLiquidity)
                    } else if pool.token_reserve + token_amount >= u256_limit() {
                        Err(Error::TooManyTokens)
                    } else if pool.currency_reserve + required >= u256_limit()
                        || pool.total_shares + minted >= u256_limit() {
                        Err(Error::StorageOverflow)
                    } else {
                        Ok((required, minted))
                    },
                }
            },
        }
    }
}

/// What burning `shares` of a pool pays out to an account that holds
/// `position` shares: the tokens, then the currency, each the burnt part of
/// the reserve, rounded down.
pub open spec fn withdraw_result(pool: PoolState, position: nat, shares: nat) -> Result<
    (nat, nat),
    Error,
> {
    if shares == 0 {
        Err(Error::BurnZeroShares)
    } else if pool.total_shares == 0 || position < shares {
        Err(Error::NoLiquidity)
    } else {
        match mul_div_result(pool.token_reserve, shares, pool.total_shares) {
            Err(e) => Err(e),
            Ok(tokens) => match mul_div_result(pool.currency_reserve, shares, pool.total_shares) {
                Err(e) => Err(e),
                Ok(currency) => Ok((tokens, currency)),
            },
        }
    }
}

/// What a swap of `amount_in` pays out. It fails where the pool is empty,
/// where `amount_in` is more than `max_input`, where a step of the computation
/// leaves the 256-bit range, where the payout is less than `min_output`, and
/// where the reserve paid into would leave the 256-bit range, in this order.
pub open spec fn swap_result(
    pool: PoolState,
    direction: Direction,
    amount_in: nat,
    max_input: Option<nat>,
    min_output: Option<nat>,
) -> Result<nat, Error> {
    if pool.total_shares == 0 {
        Err(Error::TooLowLiquidity)
    } else if max_input is Some && amount_in > max_input->Some_0 {
        Err(too_expensive(direction))
    } else {
        match swap_output_result(
            pool.reserve_in(direction),
            pool.reserve_out(direction),
            amount_in,
        ) {
            Err(e) => Err(e),
            Ok(out) => if min_output is Some && out < min_output->Some_0 {
                Err(too_expensive(direction))
            } else if pool.reserve_in(direction) + amount_in >= u256_limit() {
                Err(Error::StorageOverflow)
            } else {
                Ok(out)
            },
        }
    }
}

/// The part `shares` of `total` of a reserve, rounded down, is no more than
/// the reserve; it is the whole reserve for all shares, and less than a
/// reserve that is not empty for fewer.
pub proof fn lemma_part_of_reserve(reserve: nat, shares: nat, total: nat)
    requires
        0 < shares <= total,
    ensures
        reserve * shares / total <= reserve,
        shares == total ==> reserve * shares / total == reserve,
        shares < total && reserve > 0 ==> reserve * shares / total < reserve,
{
    let q = reserve * shares / total;
    lemma_div_bounds(reserve * shares, total);
    assert(reserve * shares <= reserve * total) by (nonlinear_arith)
        requires
            shares <= total,
    ;
    assert(q <= reserve) by (nonlinear_arith)
        requires
            q * total <= reserve * total,
            total > 0,
    ;
    if shares == total {
        assert(q == reserve) by (nonlinear_arith)
            requires
                q * total + (reserve * total) % total == reserve * total,
                (reserve * total) % total < total,
                q <= reserve,
                total > 0,
        ;
    } else if reserve > 0 {
        assert(reserve * shares < reserve * total) by (nonlinear_arith)
            requires
                shares < total,
                reserve > 0,
        ;
        assert(q < reserve) by (nonlinear_arith)
            requires
                q * total < reserve * total,
                total > 0,
        ;
    }
}

/// A deposit that is accepted leaves a valid pool with more of everything.
pub proof fn lemma_deposit_keeps_wf(pool: PoolState, token_amount: nat, currency_amount: nat)
    requires
        pool.wf(),
        token_amount < u256_limit(),
        deposit_result(pool, token_amount, currency_amount) is Ok,
        deposit_result(pool, token_amount, currency_amount)->Ok_0.0 < u256_limit(),
    ensures
        ({
            let (currency, minted) = deposit_result(pool, token_amount, currency_amount)->Ok_0;
            &&& 0 < minted
            &&& currency <= currency_amount
            &&& PoolState {
                token_reserve: pool.token_reserve + token_amount,
                currency_reserve: pool.currency_reserve + currency,
                total_shares: pool.total_shares + minted,
            }.wf()
        }),
{
}

/// A withdrawal that is accepted pays out no more than the pool holds, and
/// leaves a valid pool, which is empty when all shares were burnt.
pub proof fn lemma_withdraw_keeps_wf(pool: PoolState, position: nat, shares: nat)
    requires
        pool.wf(),
        position <= pool.total_shares,
        withdraw_result(pool, position, shares) is Ok,
    ensures
        ({
            let (tokens, currency) = withdraw_result(pool, position, shares)->Ok_0;
            &&& tokens <= pool.token_reserve
            &&& currency <= pool.currency_reserve
            &&& shares <= pool.total_shares
            &&& PoolState {
                token_reserve: (pool.token_reserve - tokens) as nat,
                currency_reserve: (pool.currency_reserve - currency) as nat,
                total_shares: (pool.total_shares - shares) as nat,
            }.wf()
            &&& shares == pool.total_shares ==> tokens == pool.token_reserve && currency
                == pool.currency_reserve
        }),
{
    lemma_part_of_reserve(pool.token_reserve, shares, pool.total_shares);
    lemma_part_of_reserve(pool.currency_reserve, shares, pool.total_shares);
}

/// A swap that is accepted leaves a valid pool whose reserves multiply to no
/// less than before, and to more where anything was paid in.
pub proof fn lemma_swap_keeps_wf(
    pool: PoolState,
    direction: Direction,
    amount_in: nat,
    max_input: Option<nat>,
    min_output: Option<nat>,
)
    requires
        pool.wf(),
        swap_result(pool, direction, amount_in, max_input, min_output) is Ok,
    ensures
        ({
            let out = swap_result(pool, direction, amount_in, max_input, min_output)->Ok_0;
            &&& out == swap_output(pool.reserve_in(direction), pool.reserve_out(direction), amount_in)
            &&& out < pool.reserve_out(direction)
            &&& max_input is Some ==> amount_in <= max_input->Some_0
            &&& min_output is Some ==> out >= min_output->Some_0
            &&& pool.swapped(direction, amount_in, out).wf()
            &&& pool.swapped(direction, amount_in, out).product() >= pool.product()
            &&& amount_in > 0 ==> pool.swapped(direction, amount_in, out).product()
                > pool.product()
        }),
{
    let rin = pool.reserve_in(direction);
    let rout = pool.reserve_out(direction);
    lemma_swap_keeps_product(rin, rout, amount_in);
    let out = swap_output(rin, rout, amount_in);
    assert((rin + amount_in) * (rout - out) == (rout - out) * (rin + amount_in))
        by (nonlinear_arith);
    assert(rin * rout == rout * rin) by (nonlinear_arith);
}

impl Direction {
    /// The error for a swap in this direction that would cost more of what is
    /// paid in than its bounds allow.
    pub fn too_expensive(&self) -> (r: Error)
        ensures
            r == too_expensive(*self),
    {
        match self {
            Direction::TokenIn => Error::TooExpensiveTokens,
            Direction::CurrencyIn => Error::TooExpensiveCurrency,
        }
    }
}

impl Pool {
    /// The pool of a token that holds nothing.
    pub fn empty(token_id: u128) -> (r: Pool)
        ensures
            r.token_id == token_id,
            r@ == PoolState::empty(),
    {
        Pool {
            token_id,
            token_reserve: U256::zero(),
            currency_reserve: U256::zero(),
            total_shares: U256::zero(),
        }
    }

    /// The reserve that a swap in the given direction pays into.
    pub fn reserve_in(&self, direction: Direction) -> (r: U256)
        ensures
            r@ == self@.reserve_in(direction),
    {
        match direction {
            Direction::TokenIn => self.token_reserve,
            Direction::CurrencyIn => self.currency_reserve,
        }
    }

    /// The reserve that a swap in the given direction pays from.
    pub fn reserve_out(&self, direction: Direction) -> (r: U256)
        ensures
            r@ == self@.reserve_out(direction),
    {
        match direction {
            Direction::TokenIn => self.currency_reserve,
            Direction::CurrencyIn => self.token_reserve,
        }
    }

    /// What a deposit into this pool takes and mints: the currency taken,
    /// then the shares minted.
    pub fn deposit_terms(&self, token_amount: U256, currency_amount: U256) -> (r: Result<
        (U256, U256),
        Error,
    >)
        ensures
            same_amounts(r, deposit_result(self@, token_amount@, currency_amount@)),
    {
        if token_amount.is_zero() {
            return Err(Error::ZeroTokens);
        }
        if currency_amount.is_zero() {
            return Err(Error::ZeroAmount);
        }
        if self.total_shares.is_zero() {
            return Ok((currency_amount, token_amount));
        }
        let required = match mul_div(token_amount, self.currency_reserve, self.token_reserve) {
            Ok(v) => v,
            Err(e) => {
                return Err(e);
            },
        };
        if currency_amount.lt(&required) {
            return Err(Error::NotEnoughCurrency);
        }
        let minted = match mul_div(self.total_shares, token_amount, self.token_reserve) {
            Ok(v) => v,
            Err(e) => {
                return Err(e);
            },
        };
        if minted.is_zero() {
            return Err(Error::RequestedZeroLiquidity);
        }
        if safe_add(self.token_reserve, token_amount).is_err() {
            return Err(Error::TooManyTokens);
        }
        if safe_add(self.currency_reserve, required).is_err() {
            return Err(Error::StorageOverflow);
        }
        if safe_add(self.total_shares, minted).is_err() {
            return Err(Error::StorageOverflow);
        }
        Ok((required, minted))
    }

    /// What burning `shares` of this pool pays out to an account that holds
    /// `position` shares of it: the tokens, then the currency.
    pub fn withdraw_terms(&self, position: U256, shares: U256) -> (r: Result<(U256, U256), Error>)
        ensures
            same_amounts(r, withdraw_result(self@, position@, shares@)),
    {
        if shares.is_zero() {
            return Err(Error::BurnZeroShares);
        }
        if self.total_shares.is_zero() || position.lt(&shares) {
            return Err(Error::NoLiquidity);
        }
        let tokens = match mul_div(self.token_reserve, shares, self.total_shares) {
            Ok(v) => v,
            Err(e) => {
                return Err(e);
            },
        };
        let currency = match mul_div(self.currency_reserve, shares, self.total_shares) {
            Ok(v) => v,
            Err(e) => {
                return Err(e);
            },
        };
        Ok((tokens, currency))
    }

    /// What a swap of `amount_in` into this pool pays out, within the bounds
    /// that are given.
    pub fn swap_terms(
        &self,
        direction: Direction,
        amount_in: U256,
        max_input: Option<U256>,
        min_output: Option<U256>,
    ) -> (r: Result<U256, Error>)
        ensures
            same_amount(
                r,
                swap_result(
                    self@,
                    direction,
                    amount_in@,
                    bound_of(max_input),
                    bound_of(min_output),
                ),
            ),
    {
        if self.total_shares.is_zero() {
            return Err(Error::TooLowLiquidity);
        }
        match max_input {
            Some(most) => {
                if most.lt(&amount_in) {
                    return Err(direction.too_expensive());
                }
            },
            None => {},
        }
        let out = match quote_output(
            self.reserve_in(direction),
            self.reserve_out(direction),
            amount_in,
        ) {
            Ok(v) => v,
            Err(e) => {
                return Err(e);
            },
        };
        match min_output {
            Some(least) => {
                if out.lt(&least) {
                    return Err(direction.too_expensive());
                }
            },
            None => {},
        }
        if safe_add(self.reserve_in(direction), amount_in).is_err() {
            return Err(Error::StorageOverflow);
        }
        Ok(out)
    }

    /// This pool after a swap that paid `amount_in` in and `amount_out` out.
    pub(crate) fn swapped(&self, direction: Direction, amount_in: U256, amount_out: U256) -> (r:
        Pool)
        requires
            self@.reserve_in(direction) + amount_in@ < u256_limit(),
            amount_out@ <= self@.reserve_out(direction),
        ensures
            r.token_id == self.token_id,
            r@ == self@.swapped(direction, amount_in@, amount_out@),
    {
        match direction {
            Direction::TokenIn => Pool {
                token_id: self.token_id,
                token_reserve: plus(self.token_reserve, amount_in),
                currency_reserve: minus(self.currency_reserve, amount_out),
                total_shares: self.total_shares,
            },
            Direction::CurrencyIn => Pool {
                token_id: self.token_id,
                token_reserve: minus(self.token_reserve, amount_out),
                currency_reserve: plus(self.currency_reserve, amount_in),
                total_shares: self.total_shares,
            },
        }
    }
}

} // verus!
