//! A token exchange: a book of sell orders matched by price and time, and
//! constant-product liquidity pools, over one ledger of balances.
//!
//! Every action either takes effect as a whole or fails with an error and
//! changes nothing. Amounts are unsigned 256-bit numbers, and no arithmetic
//! wraps: a result that does not fit is an error.

pub mod laws;
pub mod ledger;
pub mod math;
pub mod orderbook;
pub mod pallet;
pub mod pool;
pub mod pools;
pub mod types;
pub mod u256;

pub use crate::ledger::{Config, MemoryLedger};
pub use crate::orderbook::{Order, OrderBook};
pub use crate::pallet::Pallet;
pub use crate::pool::{Direction, Pool};
pub use crate::pools::{LiquidityPosition, Pools};
pub use crate::types::{AccountId, Asset, Error, Event};
pub use crate::u256::U256;
