//! The vocabulary that every part of the exchange shares: accounts, assets,
//! the notifications an action gives and the errors it fails with.

use vstd::prelude::*;
use crate::u256::U256;

verus! {

/// An account, by its number.
pub type AccountId = u64;

/// What a balance is held in.
#[derive(Clone, Copy, Debug, PartialEq, Eq, Structural)]
pub enum Asset {
    /// The base currency that prices are quoted in.
    Currency,
    /// The token with the given identifier.
    Token(u128),
}

/// What an action reports when it has taken effect. A failed action reports
/// nothing.
#[derive(Clone, Copy, Debug, PartialEq, Eq, Structural)]
pub enum Event {
    /// A sell order was opened: token, volume, unit price, seller.
    SellOrderCreated(u128, U256, U256, AccountId),
    /// A sell order was cancelled: order, whether it was removed.
    SellOrderCancelled(u128, bool),
    /// A purchase was filled: order (zero for a pool), tokens sold, currency
    /// paid, seller, buyer.
    BuyOrderFilled(u128, U256, U256, AccountId, AccountId),
}

/// Why an action failed. A failed action changes nothing.
#[derive(Clone, Copy, Debug, PartialEq, Eq, Structural)]
pub enum Error {
    /// A value that was needed is absent. No action of the exchange fails
    /// with it.
    NoneValue,
    /// A number left the 256-bit range, or the order counter is used up.
    StorageOverflow,
    /// Deadline hit. No action of the exchange fails with it.
    Deadline,
    /// Zero tokens supplied.
    ZeroTokens,
    /// Zero reserve supplied.
    ZeroAmount,
    /// No order exists at this identifier.
    NoSwapExists,
    /// The same order is already open.
    SwapAlreadyExists,
    /// The deposit would mint no shares.
    RequestedZeroLiquidity,
    /// Would add too many tokens to liquidity.
    TooManyTokens,
    /// The pool is empty, or too small for the request.
    TooLowLiquidity,
    /// No currency is being swapped.
    NoCurrencySwapped,
    /// No tokens are being swapped.
    NoTokensSwapped,
    /// Trying to burn zero shares.
    BurnZeroShares,
    /// The caller holds too few shares of the pool.
    NoLiquidity,
    /// Not enough currency was supplied or is held.
    NotEnoughCurrency,
    /// Not enough tokens were supplied or are held.
    NotEnoughTokens,
    /// The swap would cost too much in currency.
    TooExpensiveCurrency,
    /// The swap would cost too much in tokens.
    TooExpensiveTokens,
    /// The caller does not own what it tried to change.
    Unauthorized,
}

/// Whether a computed result is the expected one, amounts compared as numbers.
pub open spec fn same_amount(r: Result<U256, Error>, expected: Result<nat, Error>) -> bool {
    match r {
        Ok(v) => expected == Ok::<nat, Error>(v@),
        Err(e) => expected == Err::<nat, Error>(e),
    }
}

} // verus!
