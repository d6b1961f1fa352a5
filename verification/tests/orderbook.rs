use pallet_swap::{Error, Order, OrderBook, U256};

fn n(v: u128) -> U256 {
    U256::from_u128(v)
}

fn order(id: u128, token_id: u128, seller: u64, volume: u128, price: u128) -> Order {
    Order { id, token_id, seller, volume: n(volume), price: n(price) }
}

#[test]
fn new_book_is_empty_and_starts_at_one() {
    let book = OrderBook::new();
    assert_eq!(book.next_id(), 1);
    assert_eq!(book.get(0), None);
    assert_eq!(book.get(1), None);
    assert_eq!(book.best_match(5, U256::max_value(), n(0)), None);
}

#[test]
fn insert_numbers_orders_in_sequence() {
    let mut book = OrderBook::new();
    assert_eq!(book.insert(5, 1, n(10), n(100)), Ok(1));
    assert_eq!(book.insert(5, 2, n(20), n(90)), Ok(2));
    assert_eq!(book.insert(6, 1, n(30), n(80)), Ok(3));
    assert_eq!(book.next_id(), 4);
    assert_eq!(book.get(1), Some(order(1, 5, 1, 10, 100)));
    assert_eq!(book.get(2), Some(order(2, 5, 2, 20, 90)));
    assert_eq!(book.get(3), Some(order(3, 6, 1, 30, 80)));
    assert_eq!(book.get(4), None);
}

#[test]
fn insert_rejects_zero_volume_and_zero_price() {
    let mut book = OrderBook::new();
    assert_eq!(book.insert(5, 1, n(0), n(100)), Err(Error::ZeroTokens));
    assert_eq!(book.insert(5, 1, n(10), n(0)), Err(Error::ZeroAmount));
    assert_eq!(book.insert(5, 1, n(0), n(0)), Err(Error::ZeroTokens));
    assert_eq!(book.next_id(), 1);
    assert_eq!(book.get(1), None);
}

#[test]
fn insert_rejects_the_same_open_offer() {
    let mut book = OrderBook::new();
    assert_eq!(book.insert(5, 1, n(10), n(100)), Ok(1));
    assert_eq!(book.check_insert(5, 1, n(10), n(100)), Err(Error::SwapAlreadyExists));
    assert_eq!(book.insert(5, 1, n(10), n(100)), Err(Error::SwapAlreadyExists));
    assert_eq!(book.next_id(), 2);
    // Another seller, token, volume or price makes another offer.
    assert_eq!(book.insert(5, 2, n(10), n(100)), Ok(2));
    assert_eq!(book.insert(6, 1, n(10), n(100)), Ok(3));
    assert_eq!(book.insert(5, 1, n(11), n(100)), Ok(4));
    assert_eq!(book.insert(5, 1, n(10), n(101)), Ok(5));
    // Once the offer has changed, the same one may be made again.
    assert_eq!(book.reduce(1, n(4)), Ok(()));
    assert_eq!(book.insert(5, 1, n(10), n(100)), Ok(6));
}

#[test]
fn remove_is_for_the_seller_only() {
    let mut book = OrderBook::new();
    assert_eq!(book.insert(5, 1, n(10), n(100)), Ok(1));
    assert_eq!(book.check_remove(1, 2), Err(Error::Unauthorized));
    assert_eq!(book.remove(1, 2), Err(Error::Unauthorized));
    assert_eq!(book.get(1), Some(order(1, 5, 1, 10, 100)));
    assert_eq!(book.check_remove(1, 1), Ok(n(10)));
    assert_eq!(book.remove(1, 1), Ok(n(10)));
    assert_eq!(book.get(1), None);
    assert_eq!(book.remove(1, 1), Err(Error::NoSwapExists));
    assert_eq!(book.remove(9, 1), Err(Error::NoSwapExists));
}

#[test]
fn numbers_are_not_used_again_after_a_removal() {
    let mut book = OrderBook::new();
    assert_eq!(book.insert(5, 1, n(10), n(100)), Ok(1));
    assert_eq!(book.insert(5, 1, n(11), n(100)), Ok(2));
    assert_eq!(book.remove(2, 1), Ok(n(11)));
    assert_eq!(book.remove(1, 1), Ok(n(10)));
    assert_eq!(book.next_id(), 3);
    assert_eq!(book.insert(5, 1, n(10), n(100)), Ok(3));
    assert_eq!(book.get(1), None);
    assert_eq!(book.get(3), Some(order(3, 5, 1, 10, 100)));
}

#[test]
fn removing_from_the_middle_keeps_the_others() {
    let mut book = OrderBook::new();
    assert_eq!(book.insert(5, 1, n(10), n(100)), Ok(1));
    assert_eq!(book.insert(5, 2, n(20), n(90)), Ok(2));
    assert_eq!(book.insert(5, 3, n(30), n(80)), Ok(3));
    assert_eq!(book.remove(2, 2), Ok(n(20)));
    assert_eq!(book.get(1), Some(order(1, 5, 1, 10, 100)));
    assert_eq!(book.get(2), None);
    assert_eq!(book.get(3), Some(order(3, 5, 3, 30, 80)));
}

#[test]
fn best_match_is_the_cheapest_order() {
    let mut book = OrderBook::new();
    assert_eq!(book.insert(5, 1, n(10), n(12)), Ok(1));
    assert_eq!(book.insert(5, 2, n(10), n(10)), Ok(2));
    assert_eq!(book.insert(5, 3, n(10), n(11)), Ok(3));
    assert_eq!(book.best_match(5, n(12), n(1)), Some(order(2, 5, 2, 10, 10)));
    assert_eq!(book.best_match(5, n(10), n(10)), Some(order(2, 5, 2, 10, 10)));
}

#[test]
fn best_match_breaks_ties_by_age() {
    let mut book = OrderBook::new();
    assert_eq!(book.insert(5, 1, n(10), n(10)), Ok(1));
    assert_eq!(book.insert(5, 2, n(20), n(10)), Ok(2));
    assert_eq!(book.insert(5, 3, n(30), n(10)), Ok(3));
    assert_eq!(book.best_match(5, n(10), n(1)), Some(order(1, 5, 1, 10, 10)));
    // The earliest order that offers enough.
    assert_eq!(book.best_match(5, n(10), n(15)), Some(order(2, 5, 2, 20, 10)));
    assert_eq!(book.remove(1, 1), Ok(n(10)));
    assert_eq!(book.best_match(5, n(10), n(1)), Some(order(2, 5, 2, 20, 10)));
}

#[test]
fn best_match_respects_token_price_and_volume() {
    let mut book = OrderBook::new();
    assert_eq!(book.insert(5, 1, n(10), n(10)), Ok(1));
    assert_eq!(book.insert(6, 2, n(50), n(5)), Ok(2));
    assert_eq!(book.insert(5, 3, n(40), n(20)), Ok(3));
    // No order of token 5 is as cheap as 9.
    assert_eq!(book.best_match(5, n(9), n(1)), None);
    // Only the dearer order offers 11 tokens.
    assert_eq!(book.best_match(5, n(15), n(11)), None);
    assert_eq!(book.best_match(5, n(20), n(11)), Some(order(3, 5, 3, 40, 20)));
    assert_eq!(book.best_match(6, n(5), n(50)), Some(order(2, 6, 2, 50, 5)));
    assert_eq!(book.best_match(6, n(5), n(51)), None);
    assert_eq!(book.best_match(7, U256::max_value(), n(0)), None);
}

#[test]
fn reduce_lowers_the_volume_and_drops_an_empty_order() {
    let mut book = OrderBook::new();
    assert_eq!(book.insert(5, 1, n(10), n(100)), Ok(1));
    assert_eq!(book.reduce(1, n(4)), Ok(()));
    assert_eq!(book.get(1), Some(order(1, 5, 1, 6, 100)));
    assert_eq!(book.reduce(1, n(0)), Ok(()));
    assert_eq!(book.get(1), Some(order(1, 5, 1, 6, 100)));
    assert_eq!(book.reduce(1, n(7)), Err(Error::NotEnoughTokens));
    assert_eq!(book.get(1), Some(order(1, 5, 1, 6, 100)));
    assert_eq!(book.reduce(1, n(6)), Ok(()));
    assert_eq!(book.get(1), None);
    assert_eq!(book.reduce(1, n(1)), Err(Error::NoSwapExists));
}

#[test]
fn open_orders_lists_the_orders_of_a_token() {
    let mut book = OrderBook::new();
    assert_eq!(book.open_orders(5), Vec::<u128>::new());
    assert_eq!(book.insert(5, 1, n(10), n(12)), Ok(1));
    assert_eq!(book.insert(6, 2, n(10), n(10)), Ok(2));
    assert_eq!(book.insert(5, 3, n(10), n(11)), Ok(3));
    assert_eq!(book.insert(5, 3, n(10), n(9)), Ok(4));
    assert_eq!(book.open_orders(5), vec![1, 3, 4]);
    assert_eq!(book.open_orders(6), vec![2]);
    assert_eq!(book.open_orders(7), Vec::<u128>::new());
    assert_eq!(book.remove(3, 3), Ok(n(10)));
    assert_eq!(book.reduce(4, n(10)), Ok(()));
    assert_eq!(book.open_orders(5), vec![1]);
}

#[test]
fn orders_lists_the_book_and_restore_takes_it_back() {
    let mut book = OrderBook::new();
    assert_eq!(book.insert(5, 1, n(10), n(12)), Ok(1));
    assert_eq!(book.insert(6, 2, n(10), n(10)), Ok(2));
    assert_eq!(book.insert(5, 3, n(10), n(11)), Ok(3));
    assert_eq!(book.remove(2, 2), Ok(n(10)));
    let listed = book.orders();
    assert_eq!(listed, vec![order(1, 5, 1, 10, 12), order(3, 5, 3, 10, 11)]);
    let again = OrderBook::restore(listed, book.next_id()).unwrap();
    assert_eq!(again.next_id(), 4);
    assert_eq!(again.get(1), Some(order(1, 5, 1, 10, 12)));
    assert_eq!(again.get(2), None);
    assert_eq!(again.get(3), Some(order(3, 5, 3, 10, 11)));
}

#[test]
fn restore_refuses_what_is_no_book() {
    assert!(OrderBook::restore(vec![], 1).is_some());
    assert!(OrderBook::restore(vec![], 0).is_none());
    assert!(OrderBook::restore(vec![order(1, 5, 1, 10, 12)], 2).is_some());
    // A number that the counter has not reached, or zero.
    assert!(OrderBook::restore(vec![order(1, 5, 1, 10, 12)], 1).is_none());
    assert!(OrderBook::restore(vec![order(0, 5, 1, 10, 12)], 2).is_none());
    // Numbers that do not rise.
    assert!(OrderBook::restore(vec![order(2, 5, 1, 10, 12), order(1, 5, 1, 10, 13)], 3).is_none());
    assert!(OrderBook::restore(vec![order(1, 5, 1, 10, 12), order(1, 5, 1, 10, 13)], 3).is_none());
    assert!(OrderBook::restore(vec![order(1, 5, 1, 10, 12), order(2, 5, 1, 10, 13)], 3).is_some());
    // An order without volume or price.
    assert!(OrderBook::restore(vec![order(1, 5, 1, 0, 12)], 2).is_none());
    assert!(OrderBook::restore(vec![order(1, 5, 1, 10, 0)], 2).is_none());
}
