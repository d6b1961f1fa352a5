use pallet_swap::ledger::{shortage, Holding};
use pallet_swap::{Asset, Config, Error, MemoryLedger, U256};

fn n(v: u128) -> U256 {
    U256::from_u128(v)
}

#[test]
fn new_ledger_holds_nothing() {
    let ledger = MemoryLedger::new();
    assert_eq!(ledger.balance(1, Asset::Currency), n(0));
    assert_eq!(ledger.balance(1, Asset::Token(5)), n(0));
}

#[test]
fn credit_adds_to_one_balance() {
    let mut ledger = MemoryLedger::new();
    assert_eq!(ledger.credit(1, Asset::Currency, n(100)), Ok(()));
    assert_eq!(ledger.credit(1, Asset::Token(5), n(7)), Ok(()));
    assert_eq!(ledger.credit(1, Asset::Currency, n(11)), Ok(()));
    assert_eq!(ledger.balance(1, Asset::Currency), n(111));
    assert_eq!(ledger.balance(1, Asset::Token(5)), n(7));
    assert_eq!(ledger.balance(1, Asset::Token(6)), n(0));
    assert_eq!(ledger.balance(2, Asset::Currency), n(0));
}

#[test]
fn credit_fails_on_overflow_and_changes_nothing() {
    let mut ledger = MemoryLedger::new();
    assert_eq!(ledger.credit(1, Asset::Currency, U256::max_value()), Ok(()));
    assert_eq!(ledger.credit(1, Asset::Currency, n(1)), Err(Error::StorageOverflow));
    assert_eq!(ledger.balance(1, Asset::Currency), U256::max_value());
    assert_eq!(ledger.credit(1, Asset::Currency, n(0)), Ok(()));
    assert_eq!(ledger.credit(2, Asset::Currency, U256::max_value()), Ok(()));
}

#[test]
fn debit_takes_from_one_balance() {
    let mut ledger = MemoryLedger::new();
    assert_eq!(ledger.credit(1, Asset::Currency, n(100)), Ok(()));
    assert_eq!(ledger.credit(2, Asset::Currency, n(50)), Ok(()));
    assert_eq!(ledger.debit(1, Asset::Currency, n(30)), Ok(()));
    assert_eq!(ledger.balance(1, Asset::Currency), n(70));
    assert_eq!(ledger.balance(2, Asset::Currency), n(50));
    assert_eq!(ledger.debit(1, Asset::Currency, n(70)), Ok(()));
    assert_eq!(ledger.balance(1, Asset::Currency), n(0));
}

#[test]
fn debit_fails_on_a_shortage_and_changes_nothing() {
    let mut ledger = MemoryLedger::new();
    assert_eq!(ledger.credit(1, Asset::Currency, n(100)), Ok(()));
    assert_eq!(ledger.credit(1, Asset::Token(5), n(10)), Ok(()));
    assert_eq!(ledger.debit(1, Asset::Currency, n(101)), Err(Error::NotEnoughCurrency));
    assert_eq!(ledger.debit(1, Asset::Token(5), n(11)), Err(Error::NotEnoughTokens));
    assert_eq!(ledger.debit(1, Asset::Token(6), n(1)), Err(Error::NotEnoughTokens));
    assert_eq!(ledger.debit(2, Asset::Currency, n(1)), Err(Error::NotEnoughCurrency));
    assert_eq!(ledger.debit(2, Asset::Currency, n(0)), Ok(()));
    assert_eq!(ledger.balance(1, Asset::Currency), n(100));
    assert_eq!(ledger.balance(1, Asset::Token(5)), n(10));
}

#[test]
fn shortage_names_the_asset() {
    assert_eq!(shortage(Asset::Currency), Error::NotEnoughCurrency);
    assert_eq!(shortage(Asset::Token(0)), Error::NotEnoughTokens);
}

#[test]
fn holdings_list_the_ledger_and_restore_takes_them_back() {
    let mut ledger = MemoryLedger::new();
    assert_eq!(ledger.credit(1, Asset::Currency, n(100)), Ok(()));
    assert_eq!(ledger.credit(2, Asset::Token(5), n(7)), Ok(()));
    assert_eq!(ledger.debit(1, Asset::Currency, n(1)), Ok(()));
    let holdings = ledger.holdings();
    assert_eq!(
        holdings,
        vec![
            Holding { who: 1, asset: Asset::Currency, amount: n(99) },
            Holding { who: 2, asset: Asset::Token(5), amount: n(7) },
        ]
    );
    let again = MemoryLedger::restore(holdings);
    assert_eq!(again.balance(1, Asset::Currency), n(99));
    assert_eq!(again.balance(2, Asset::Token(5)), n(7));
    assert_eq!(again.balance(2, Asset::Currency), n(0));
}

#[test]
fn restore_counts_the_first_holding_of_an_account_in_an_asset() {
    let ledger = MemoryLedger::restore(vec![
        Holding { who: 1, asset: Asset::Currency, amount: n(5) },
        Holding { who: 1, asset: Asset::Currency, amount: n(9) },
    ]);
    assert_eq!(ledger.balance(1, Asset::Currency), n(5));
}
