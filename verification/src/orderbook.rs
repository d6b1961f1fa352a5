//! The book of open sell orders. Orders are numbered in the order of their
//! creation, so an order's number also says how early it came.

use vstd::prelude::*;
use crate::math::safe_sub;
use crate::types::{AccountId, Error};
use crate::u256::{lemma_u256_value, U256};

verus! {

/// An open offer to sell `volume` tokens at `price` units of currency each.
#[derive(Clone, Copy, Debug, PartialEq, Eq, Structural)]
pub struct Order {
    /// The order's number: never zero, never used twice.
    pub id: u128,
    /// The token on offer.
    pub token_id: u128,
    /// The account that sells.
    pub seller: AccountId,
    /// The tokens still on offer.
    pub volume: U256,
    /// The currency asked for one token.
    pub price: U256,
}

/// An order with its amounts as numbers.
pub struct OrderState {
    pub id: u128,
    pub token_id: u128,
    pub seller: AccountId,
    pub volume: nat,
    pub price: nat,
}

impl View for Order {
    type V = OrderState;

    open spec fn view(&self) -> OrderState {
        OrderState {
            id: self.id,
            token_id: self.token_id,
            seller: self.seller,
            volume: self.volume@,
            price: self.price@,
        }
    }
}

/// The book as a value: the open orders by number, and the number that the
/// next order gets.
pub struct BookState {
    pub orders: Map<u128, OrderState>,
    pub next_id: u128,
}

impl BookState {
    /// What holds of every book: each order stands under its own number, which
    /// is at least one and was handed out already, and offers a positive volume
    /// at a positive price.
    pub open spec fn wf(self) -> bool {
        &&& self.next_id >= 1
        &&& forall|id: u128| #[trigger]
            self.orders.dom().contains(id) ==> {
                &&& self.orders[id].id == id
                &&& 1 <= id < self.next_id
                &&& self.orders[id].volume > 0
                &&& self.orders[id].price > 0
            }
    }

    /// Whether the order at `id` is open.
    pub open spec fn has(self, id: u128) -> bool {
        self.orders.dom().contains(id)
    }
}

/// Whether the order at `id` is open and for the given token: the open
/// orders of a token are those of which this holds.
pub open spec fn open_for(book: BookState, token_id: u128, id: u128) -> bool {
    book.has(id) && book.orders[id].token_id == token_id
}

/// Whether one of the first `n` listed orders has the number `id` and is for
/// the given token.
pub open spec fn listed_before(orders: Seq<Order>, n: int, token_id: u128, id: u128) -> bool {
    exists|a: int|
        0 <= a < n && (#[trigger] orders[a]).id == id && orders[a].token_id == token_id
}

/// Whether an open order is the same offer as the one described.
pub open spec fn same_offer(
    o: OrderState,
    token_id: u128,
    seller: AccountId,
    volume: nat,
    price: nat,
) -> bool {
    o.token_id == token_id && o.seller == seller && o.volume == volume && o.price == price
}

/// Whether the book holds the same offer as the one described.
pub open spec fn offered(
    book: BookState,
    token_id: u128,
    seller: AccountId,
    volume: nat,
    price: nat,
) -> bool {
    exists|id: u128| #[trigger]
        book.orders.dom().contains(id) && same_offer(
            book.orders[id],
            token_id,
            seller,
            volume,
            price,
        )
}

/// The number that a new order gets, or why it is refused: for a zero volume,
/// a zero price, an offer that is open already, or a counter that is used up,
/// in this order.
pub open spec fn insert_result(
    book: BookState,
    token_id: u128,
    seller: AccountId,
    volume: nat,
    price: nat,
) -> Result<u128, Error> {
    if volume == 0 {
        Err(Error::ZeroTokens)
    } else if price == 0 {
        Err(Error::ZeroAmount)
    } else if offered(book, token_id, seller, volume, price) {
        Err(Error::SwapAlreadyExists)
    } else if book.next_id == u128::MAX {
        Err(Error::StorageOverflow)
    } else {
        Ok(book.next_id)
    }
}

/// The book after an attempt to add an order.
pub open spec fn after_insert(
    book: BookState,
    token_id: u128,
    seller: AccountId,
    volume: nat,
    price: nat,
) -> BookState {
    match insert_result(book, token_id, seller, volume, price) {
        Ok(id) => BookState {
            orders: book.orders.insert(id, OrderState { id, token_id, seller, volume, price }),
            next_id: (id + 1) as u128,
        },
        Err(_) => book,
    }
}

/// The volume that removing an order frees, or why it is refused: there is no
/// such order, or the caller is not its seller.
pub open spec fn remove_result(book: BookState, id: u128, caller: AccountId) -> Result<
    nat,
    Error,
> {
    if !book.has(id) {
        Err(Error::NoSwapExists)
    } else if book.orders[id].seller != caller {
        Err(Error::Unauthorized)
    } else {
        Ok(book.orders[id].volume)
    }
}

/// The book after an attempt to remove an order.
pub open spec fn after_remove(book: BookState, id: u128, caller: AccountId) -> BookState {
    if remove_result(book, id, caller) is Ok {
        BookState { orders: book.orders.remove(id), next_id: book.next_id }
    } else {
        book
    }
}

/// Whether an order can be filled: there is no such order, or it offers less
/// than is asked of it.
pub open spec fn reduce_result(book: BookState, id: u128, filled: nat) -> Result<(), Error> {
    if !book.has(id) {
        Err(Error::NoSwapExists)
    } else if filled > book.orders[id].volume {
        Err(Error::NotEnoughTokens)
    } else {
        Ok(())
    }
}

/// The book after an attempt to fill an order: the order offers that much
/// less, and is gone when it offers nothing more.
pub open spec fn after_reduce(book: BookState, id: u128, filled: nat) -> BookState {
    if reduce_result(book, id, filled) is Ok {
        let o = book.orders[id];
        if filled == o.volume {
            BookState { orders: book.orders.remove(id), next_id: book.next_id }
        } else {
            BookState {
                orders: book.orders.insert(
                    id,
                    OrderState {
                        id: o.id,
                        token_id: o.token_id,
                        seller: o.seller,
                        volume: (o.volume - filled) as nat,
                        price: o.price,
                    },
                ),
                next_id: book.next_id,
            }
        }
    } else {
        book
    }
}

/// Whether an order can serve a purchase: it is for the token, asks no more
/// than `max_price` and offers at least `min_volume`.
pub open spec fn serves(o: OrderState, token_id: u128, max_price: nat, min_volume: nat) -> bool {
    o.token_id == token_id && o.price <= max_price && o.volume >= min_volume
}

/// Whether order `a` goes before order `b`: it is cheaper, or as cheap and not
/// younger.
pub open spec fn goes_before(a: OrderState, b: OrderState) -> bool {
    a.price < b.price || (a.price == b.price && a.id <= b.id)
}

/// Whether the order at `id` is the one to match: it can serve the purchase
/// and goes before every other order that can.
pub open spec fn is_best_match(
    book: BookState,
    id: u128,
    token_id: u128,
    max_price: nat,
    min_volume: nat,
) -> bool {
    &&& book.has(id)
    &&& serves(book.orders[id], token_id, max_price, min_volume)
    &&& forall|other: u128| #[trigger]
        book.orders.dom().contains(other) && serves(
            book.orders[other],
            token_id,
            max_price,
            min_volume,
        ) ==> goes_before(book.orders[id], book.orders[other])
}

/// Whether some order can serve the purchase.
pub open spec fn some_serves(
    book: BookState,
    token_id: u128,
    max_price: nat,
    min_volume: nat,
) -> bool {
    exists|id: u128| #[trigger]
        book.orders.dom().contains(id) && serves(book.orders[id], token_id, max_price, min_volume)
}

/// The number of the order to match, if any order can serve the purchase.
pub open spec fn best_match_of(
    book: BookState,
    token_id: u128,
    max_price: nat,
    min_volume: nat,
) -> Option<u128> {
    if exists|id: u128| is_best_match(book, id, token_id, max_price, min_volume) {
        Some(choose|id: u128| is_best_match(book, id, token_id, max_price, min_volume))
    } else {
        None
    }
}

/// At most one order is the one to match.
pub proof fn lemma_best_match_unique(
    book: BookState,
    a: u128,
    b: u128,
    token_id: u128,
    max_price: nat,
    min_volume: nat,
)
    requires
        book.wf(),
        is_best_match(book, a, token_id, max_price, min_volume),
        is_best_match(book, b, token_id, max_price, min_volume),
    ensures
        a == b,
{
    assert(book.orders.dom().contains(a));
    assert(book.orders.dom().contains(b));
    assert(goes_before(book.orders[a], book.orders[b]));
    assert(goes_before(book.orders[b], book.orders[a]));
}

/// Where an order can serve a purchase, some order is the one to match.
pub proof fn lemma_best_match_exists(
    book: BookState,
    id: u128,
    token_id: u128,
    max_price: nat,
    min_volume: nat,
)
    requires
        book.wf(),
        book.has(id),
        serves(book.orders[id], token_id, max_price, min_volume),
    ensures
        best_match_of(book, token_id, max_price, min_volume) is Some,
        is_best_match(
            book,
            best_match_of(book, token_id, max_price, min_volume)->Some_0,
            token_id,
            max_price,
            min_volume,
        ),
    decreases book.orders[id].price, id,
{
    if !is_best_match(book, id, token_id, max_price, min_volume) {
        let other = choose|other: u128| #[trigger]
            book.orders.dom().contains(other) && serves(
                book.orders[other],
                token_id,
                max_price,
                min_volume,
            ) && !goes_before(book.orders[id], book.orders[other]);
        assert(book.orders.dom().contains(id));
        lemma_best_match_exists(book, other, token_id, max_price, min_volume);
    }
}

/// Whether some listed order has the number `id`.
pub open spec fn listed(orders: Seq<Order>, id: u128) -> bool {
    exists|i: int| 0 <= i < orders.len() && (#[trigger] orders[i]).id == id
}

/// The place in the list of the order with the number `id`.
pub open spec fn place_of(orders: Seq<Order>, id: u128) -> int {
    choose|i: int| 0 <= i < orders.len() && (#[trigger] orders[i]).id == id
}

/// Whether the numbers of the listed orders rise along the list.
pub open spec fn ascending(orders: Seq<Order>) -> bool {
    forall|i: int, j: int|
        0 <= i < j < orders.len() ==> (#[trigger] orders[i]).id < (#[trigger] orders[j]).id
}

/// The listed orders by number.
pub open spec fn orders_map(orders: Seq<Order>) -> Map<u128, OrderState> {
    Map::new(|id: u128| listed(orders, id), |id: u128| orders[place_of(orders, id)]@)
}

/// In a list with rising numbers, an order is found at its own place.
pub proof fn lemma_place(orders: Seq<Order>, i: int)
    requires
        ascending(orders),
        0 <= i < orders.len(),
    ensures
        listed(orders, orders[i].id),
        place_of(orders, orders[i].id) == i,
        orders_map(orders).dom().contains(orders[i].id),
        orders_map(orders)[orders[i].id] == orders[i]@,
{
    let id = orders[i].id;
    let p = place_of(orders, id);
    assert(0 <= p < orders.len() && orders[p].id == id);
    if p < i {
        assert(orders[p].id < orders[i].id);
    } else if i < p {
        assert(orders[i].id < orders[p].id);
    }
}

/// Appending an order whose number is above all listed ones keeps the
/// numbers rising and adds the order to those listed.
pub proof fn lemma_orders_appended(orders: Seq<Order>, order: Order)
    requires
        ascending(orders),
        forall|a: int| 0 <= a < orders.len() ==> (#[trigger] orders[a]).id < order.id,
    ensures
        ascending(orders.push(order)),
        orders_map(orders.push(order)) == orders_map(orders).insert(order.id, order@),
{
    let after = orders.push(order);
    assert forall|a: int, b: int| 0 <= a < b < after.len() implies (#[trigger] after[a]).id < (
    #[trigger] after[b]).id by {
        assert(after[a] == orders[a]);
        if b < orders.len() {
            assert(after[b] == orders[b]);
        }
    }
    assert forall|k: u128| #[trigger] listed(after, k) <==> (listed(orders, k) || k
        == order.id) by {
        if listed(orders, k) {
            let p = place_of(orders, k);
            assert(after[p].id == k);
        }
        if k == order.id {
            assert(after[orders.len() as int].id == k);
        }
        if listed(after, k) {
            let p = place_of(after, k);
            if p < orders.len() {
                assert(orders[p].id == k);
            }
        }
    }
    assert forall|k: u128| listed(after, k) implies #[trigger] orders_map(after)[k] == orders_map(
        orders,
    ).insert(order.id, order@)[k] by {
        let p = place_of(after, k);
        lemma_place(after, p);
        if p < orders.len() {
            assert(after[p] == orders[p]);
            lemma_place(orders, p);
        }
    }
    assert(orders_map(after) =~= orders_map(orders).insert(order.id, order@));
}

/// Replacing a listed order by one with the same number keeps the numbers
/// rising and replaces the order among those listed.
pub proof fn lemma_orders_replaced(orders: Seq<Order>, i: int, order: Order)
    requires
        ascending(orders),
        0 <= i < orders.len(),
        orders[i].id == order.id,
    ensures
        ascending(orders.update(i, order)),
        orders_map(orders.update(i, order)) == orders_map(orders).insert(order.id, order@),
{
    let after = orders.update(i, order);
    assert forall|a: int, b: int| 0 <= a < b < after.len() implies (#[trigger] after[a]).id < (
    #[trigger] after[b]).id by {
        assert(after[a].id == orders[a].id);
        assert(after[b].id == orders[b].id);
    }
    assert forall|k: u128| #[trigger] listed(after, k) <==> listed(orders, k) by {
        if listed(orders, k) {
            let p = place_of(orders, k);
            assert(after[p].id == k);
        }
        if listed(after, k) {
            let p = place_of(after, k);
            assert(orders[p].id == k);
        }
    }
    lemma_place(orders, i);
    assert forall|k: u128| listed(after, k) implies #[trigger] orders_map(after)[k] == orders_map(
        orders,
    ).insert(order.id, order@)[k] by {
        let p = place_of(after, k);
        lemma_place(after, p);
        lemma_place(orders, p);
        if p != i {
            assert(after[p] == orders[p]);
        }
    }
    assert(orders_map(after) =~= orders_map(orders).insert(order.id, order@));
}

/// Taking a listed order off the list keeps the numbers rising and removes
/// the order from those listed.
pub proof fn lemma_orders_removed(orders: Seq<Order>, i: int)
    requires
        ascending(orders),
        0 <= i < orders.len(),
    ensures
        ascending(orders.remove(i)),
        orders_map(orders.remove(i)) == orders_map(orders).remove(orders[i].id),
        forall|a: int|
            0 <= a < orders.remove(i).len() ==> #[trigger] orders.remove(i)[a] == orders[if a
                < i {
                a
            } else {
                a + 1
            }],
{
    let after = orders.remove(i);
    let id = orders[i].id;
    assert forall|a: int| 0 <= a < after.len() implies #[trigger] after[a] == orders[if a < i {
        a
    } else {
        a + 1
    }] by {}
    assert forall|a: int, b: int| 0 <= a < b < after.len() implies (#[trigger] after[a]).id < (
    #[trigger] after[b]).id by {
        let a0 = if a < i { a } else { a + 1 };
        let b0 = if b < i { b } else { b + 1 };
        assert(after[a] == orders[a0]);
        assert(after[b] == orders[b0]);
    }
    assert forall|k: u128| #[trigger] listed(after, k) <==> (listed(orders, k) && k != id) by {
        if listed(orders, k) && k != id {
            let p = place_of(orders, k);
            if p < i {
                assert(after[p].id == k);
            } else {
                assert(after[p - 1] == orders[p]);
            }
        }
        if listed(after, k) {
            let p = place_of(after, k);
            let p0 = if p < i { p } else { p + 1 };
            assert(after[p] == orders[p0]);
            assert(orders[p0].id == k);
            if p0 < i {
                assert(orders[p0].id < orders[i].id);
            } else {
                assert(orders[i].id < orders[p0].id);
            }
        }
    }
    assert forall|k: u128| listed(after, k) implies #[trigger] orders_map(after)[k] == orders_map(
        orders,
    )[k] by {
        let p = place_of(after, k);
        let p0 = if p < i { p } else { p + 1 };
        assert(after[p] == orders[p0]);
        lemma_place(after, p);
        lemma_place(orders, p0);
    }
    assert(orders_map(after) =~= orders_map(orders).remove(id));
}

/// Whether a list of orders and a counter make a book: the counter is at
/// least one, the numbers of the orders rise along the list, are at least one
/// and below the counter, and every order offers a positive volume at a
/// positive price.
pub open spec fn book_valid(orders: Seq<Order>, next_id: u128) -> bool {
    &&& next_id >= 1
    &&& ascending(orders)
    &&& forall|i: int|
        0 <= i < orders.len() ==> {
            let o = #[trigger] orders[i];
            1 <= o.id < next_id && o.volume@ > 0 && o.price@ > 0
        }
}

/// The book of open sell orders, and the counter that numbers them.
pub struct OrderBook {
    orders: Vec<Order>,
    next_id: u128,
}

impl View for OrderBook {
    type V = BookState;

    closed spec fn view(&self) -> BookState {
        BookState { orders: orders_map(self.orders@), next_id: self.next_id }
    }
}

impl OrderBook {
    /// What holds of the book between calls.
    pub closed spec fn wf(&self) -> bool {
        book_valid(self.orders@, self.next_id)
    }

    /// The open orders as they are listed, earliest first.
    pub closed spec fn list(&self) -> Seq<Order> {
        self.orders@
    }

    /// The book is what its list and its counter make it.
    pub proof fn lemma_list(&self)
        requires
            self.wf(),
        ensures
            book_valid(self.list(), self@.next_id),
            self@.orders == orders_map(self.list()),
    {
    }

    /// The book that a list of orders and a counter make, if they make one.
    pub fn restore(orders: Vec<Order>, next_id: u128) -> (r: Option<OrderBook>)
        ensures
            r is Some <==> book_valid(orders@, next_id),
            match r {
                Some(book) => book.wf() && book.list() == orders@ && book@.next_id == next_id
                    && book@.orders == orders_map(orders@),
                None => true,
            },
    {
        if next_id < 1 {
            return None;
        }
        let mut i: usize = 0;
        while i < orders.len()
            invariant
                i <= orders@.len(),
                next_id >= 1,
                forall|a: int, b: int|
                    0 <= a < b < i ==> (#[trigger] orders@[a]).id < (#[trigger] orders@[b]).id,
                forall|a: int|
                    0 <= a < i ==> {
                        let o = #[trigger] orders@[a];
                        1 <= o.id < next_id && o.volume@ > 0 && o.price@ > 0
                    },
            decreases orders@.len() - i,
        {
            let o = orders[i];
            if o.id < 1 || o.id >= next_id || o.volume.is_zero() || o.price.is_zero() {
                return None;
            }
            if i > 0 && orders[i - 1].id >= o.id {
                proof {
                    assert(!(orders@[i - 1].id < orders@[i as int].id));
                }
                return None;
            }
            proof {
                assert forall|a: int, b: int| 0 <= a < b < i + 1 implies (#[trigger] orders@[a]).id < (
                #[trigger] orders@[b]).id by {
                    if b == i && a < i - 1 {
                        assert(orders@[a].id < orders@[i - 1].id);
                    }
                }
            }
            i += 1;
        }
        Some(OrderBook { orders, next_id })
    }

    /// The open orders, earliest first.
    pub fn orders(&self) -> (r: Vec<Order>)
        requires
            self.wf(),
        ensures
            r@ == self.list(),
    {
        let mut r: Vec<Order> = Vec::new();
        let mut i: usize = 0;
        while i < self.orders.len()
            invariant
                i <= self.orders@.len(),
                r@ == self.orders@.take(i as int),
            decreases self.orders@.len() - i,
        {
            r.push(self.orders[i]);
            proof {
                assert(self.orders@.take(i as int).push(self.orders@[i as int])
                    =~= self.orders@.take(i + 1));
            }
            i += 1;
        }
        proof {
            assert(self.orders@.take(self.orders@.len() as int) =~= self.orders@);
        }
        r
    }

    /// A valid book is valid as a value.
    pub proof fn lemma_view_wf(&self)
        requires
            self.wf(),
        ensures
            self@.wf(),
    {
        assert forall|id: u128| #[trigger] self@.orders.dom().contains(id) implies {
            &&& self@.orders[id].id == id
            &&& 1 <= id < self@.next_id
            &&& self@.orders[id].volume > 0
            &&& self@.orders[id].price > 0
        } by {
            let p = place_of(self.orders@, id);
            assert(0 <= p < self.orders@.len() && self.orders@[p].id == id);
        }
    }

    /// An empty book, whose first order will get the number one.
    pub fn new() -> (r: OrderBook)
        ensures
            r.wf(),
            r@.orders == Map::<u128, OrderState>::empty(),
            r@.next_id == 1,
    {
        let r = OrderBook { orders: Vec::new(), next_id: 1 };
        assert(r@.orders =~= Map::<u128, OrderState>::empty());
        r
    }

    /// The number that the next order gets.
    pub fn next_id(&self) -> (r: u128)
        ensures
            r == self@.next_id,
    {
        self.next_id
    }

    /// The place of the order with the number `id`, if it is open.
    fn find(&self, id: u128) -> (r: Option<usize>)
        requires
            self.wf(),
        ensures
            match r {
                Some(i) => i < self.orders@.len() && self.orders@[i as int].id == id
                    && self@.has(id) && self@.orders[id] == self.orders@[i as int]@,
                None => !self@.has(id),
            },
    {
        let mut i: usize = 0;
        while i < self.orders.len()
            invariant
                i <= self.orders@.len(),
                self.wf(),
                forall|j: int| 0 <= j < i ==> (#[trigger] self.orders@[j]).id != id,
            decreases self.orders@.len() - i,
        {
            if self.orders[i].id == id {
                proof {
                    lemma_place(self.orders@, i as int);
                }
                return Some(i);
            }
            i += 1;
        }
        None
    }

    /// The open order with the number `id`.
    pub fn get(&self, id: u128) -> (r: Option<Order>)
        requires
            self.wf(),
        ensures
            match r {
                Some(o) => self@.has(id) && self@.orders[id] == o@,
                None => !self@.has(id),
            },
    {
        match self.find(id) {
            Some(i) => Some(self.orders[i]),
            None => None,
        }
    }

    /// The numbers of the open orders for a token, earliest first.
    pub fn open_orders(&self, token_id: u128) -> (r: Vec<u128>)
        requires
            self.wf(),
        ensures
            forall|id: u128| r@.contains(id) <==> open_for(self@, token_id, id),
            forall|x: int, y: int| 0 <= x < y < r@.len() ==> r@[x] < r@[y],
    {
        let mut r: Vec<u128> = Vec::new();
        let mut i: usize = 0;
        while i < self.orders.len()
            invariant
                i <= self.orders@.len(),
                self.wf(),
                forall|x: int, y: int| 0 <= x < y < r@.len() ==> r@[x] < r@[y],
                forall|x: int|
                    0 <= x < r@.len() ==> listed_before(
                        self.orders@,
                        i as int,
                        token_id,
                        #[trigger] r@[x],
                    ),
                forall|a: int|
                    0 <= a < i && (#[trigger] self.orders@[a]).token_id == token_id
                        ==> r@.contains(self.orders@[a].id),
            decreases self.orders@.len() - i,
        {
            if self.orders[i].token_id == token_id {
                let ghost before = r@;
                r.push(self.orders[i].id);
                proof {
                    let id = self.orders@[i as int].id;
                    assert(r@[before.len() as int] == id);
                    assert forall|x: int, y: int| 0 <= x < y < r@.len() implies r@[x] < r@[y] by {
                        if y == before.len() {
                            assert(listed_before(self.orders@, i as int, token_id, before[x]));
                            let a = choose|a: int|
                                0 <= a < i && (#[trigger] self.orders@[a]).id == before[x]
                                    && self.orders@[a].token_id == token_id;
                            assert(self.orders@[a].id < self.orders@[i as int].id);
                        } else {
                            assert(before[x] < before[y]);
                        }
                    }
                    assert forall|x: int| 0 <= x < r@.len() implies listed_before(
                        self.orders@,
                        i + 1,
                        token_id,
                        #[trigger] r@[x],
                    ) by {
                        if x < before.len() {
                            assert(listed_before(self.orders@, i as int, token_id, before[x]));
                            let a = choose|a: int|
                                0 <= a < i && (#[trigger] self.orders@[a]).id == before[x]
                                    && self.orders@[a].token_id == token_id;
                            assert(self.orders@[a].id == r@[x]);
                        } else {
                            assert(self.orders@[i as int].id == r@[x]);
                        }
                    }
                    assert forall|a: int|
                        0 <= a < i + 1 && (#[trigger] self.orders@[a]).token_id
                            == token_id implies r@.contains(self.orders@[a].id) by {
                        if a < i {
                            assert(before.contains(self.orders@[a].id));
                            let x = choose|x: int|
                                0 <= x < before.len() && before[x] == self.orders@[a].id;
                            assert(r@[x] == self.orders@[a].id);
                        }
                    }
                }
            }
            i += 1;
        }
        proof {
            assert forall|id: u128| r@.contains(id) <==> open_for(self@, token_id, id) by {
                if r@.contains(id) {
                    let x = choose|x: int| 0 <= x < r@.len() && r@[x] == id;
                    assert(listed_before(self.orders@, i as int, token_id, r@[x]));
                    let a = choose|a: int|
                        0 <= a < i && (#[trigger] self.orders@[a]).id == r@[x]
                            && self.orders@[a].token_id == token_id;
                    lemma_place(self.orders@, a);
                }
                if open_for(self@, token_id, id) {
                    let p = place_of(self.orders@, id);
                    assert(0 <= p < self.orders@.len() && self.orders@[p].id == id);
                    lemma_place(self.orders@, p);
                    assert(self.orders@[p].token_id == token_id);
                }
            }
        }
        r
    }

    /// Whether the same offer is open already.
    fn duplicate(&self, token_id: u128, seller: AccountId, volume: U256, price: U256) -> (r: bool)
        requires
            self.wf(),
        ensures
            r == offered(self@, token_id, seller, volume@, price@),
    {
        let mut i: usize = 0;
        while i < self.orders.len()
            invariant
                i <= self.orders@.len(),
                self.wf(),
                forall|j: int|
                    0 <= j < i ==> !same_offer(
                        (#[trigger] self.orders@[j])@,
                        token_id,
                        seller,
                        volume@,
                        price@,
                    ),
            decreases self.orders@.len() - i,
        {
            let o = self.orders[i];
            if o.token_id == token_id && o.seller == seller && o.volume == volume && o.price
                == price {
                proof {
                    lemma_place(self.orders@, i as int);
                    assert(self@.orders.dom().contains(o.id) && same_offer(
                        self@.orders[o.id],
                        token_id,
                        seller,
                        volume@,
                        price@,
                    ));
                }
                return true;
            }
            proof {
                lemma_u256_value(o.volume, volume);
                lemma_u256_value(o.price, price);
            }
            i += 1;
        }
        proof {
            assert forall|id: u128| #[trigger] self@.orders.dom().contains(id) implies !same_offer(
                self@.orders[id],
                token_id,
                seller,
                volume@,
                price@,
            ) by {
                let p = place_of(self.orders@, id);
                assert(0 <= p < self.orders@.len() && self.orders@[p].id == id);
            }
        }
        false
    }

    /// Whether a new order would be taken, and under which number; the book
    /// stays as it is.
    pub fn check_insert(
        &self,
        token_id: u128,
        seller: AccountId,
        volume: U256,
        price: U256,
    ) -> (r: Result<u128, Error>)
        requires
            self.wf(),
        ensures
            r == insert_result(self@, token_id, seller, volume@, price@),
    {
        if volume.is_zero() {
            Err(Error::ZeroTokens)
        } else if price.is_zero() {
            Err(Error::ZeroAmount)
        } else if self.duplicate(token_id, seller, volume, price) {
            Err(Error::SwapAlreadyExists)
        } else if self.next_id == u128::MAX {
            Err(Error::StorageOverflow)
        } else {
            Ok(self.next_id)
        }
    }

    /// Adds an order under the next number. Fails, and changes nothing, for a
    /// zero volume, a zero price, an offer that is open already, or a counter
    /// that is used up.
    pub fn insert(&mut self, token_id: u128, seller: AccountId, volume: U256, price: U256) -> (r:
        Result<u128, Error>)
        requires
            old(self).wf(),
        ensures
            final(self).wf(),
            r == insert_result(old(self)@, token_id, seller, volume@, price@),
            final(self)@ == after_insert(old(self)@, token_id, seller, volume@, price@),
            r is Err ==> *final(self) == *old(self),
    {
        match self.check_insert(token_id, seller, volume, price) {
            Ok(id) => {
                let order = Order { id, token_id, seller, volume, price };
                proof {
                    lemma_orders_appended(self.orders@, order);
                }
                self.orders.push(order);
                self.next_id = id + 1;
                Ok(id)
            },
            Err(e) => Err(e),
        }
    }

    /// Whether an order would be removed for the caller, and the volume that
    /// this would free; the book stays as it is.
    pub fn check_remove(&self, id: u128, caller: AccountId) -> (r: Result<U256, Error>)
        requires
            self.wf(),
        ensures
            crate::types::same_amount(r, remove_result(self@, id, caller)),
    {
        match self.find(id) {
            None => Err(Error::NoSwapExists),
            Some(i) => {
                if self.orders[i].seller != caller {
                    Err(Error::Unauthorized)
                } else {
                    Ok(self.orders[i].volume)
                }
            },
        }
    }

    /// Takes the order at place `i` off the list.
    fn take(&mut self, i: usize)
        requires
            old(self).wf(),
            i < old(self).orders@.len(),
        ensures
            final(self).wf(),
            final(self)@.orders == old(self)@.orders.remove(old(self).orders@[i as int].id),
            final(self)@.next_id == old(self)@.next_id,
    {
        proof {
            lemma_orders_removed(self.orders@, i as int);
        }
        self.orders.remove(i);
    }

    /// Removes an order for its seller and gives the volume that this frees.
    /// Fails, and changes nothing, where there is no such order or the caller
    /// is not its seller.
    pub fn remove(&mut self, id: u128, caller: AccountId) -> (r: Result<U256, Error>)
        requires
            old(self).wf(),
        ensures
            final(self).wf(),
            crate::types::same_amount(r, remove_result(old(self)@, id, caller)),
            final(self)@ == after_remove(old(self)@, id, caller),
            r is Err ==> *final(self) == *old(self),
    {
        match self.find(id) {
            None => Err(Error::NoSwapExists),
            Some(i) => {
                let order = self.orders[i];
                if order.seller != caller {
                    Err(Error::Unauthorized)
                } else {
                    self.take(i);
                    Ok(order.volume)
                }
            },
        }
    }

    /// The order to match a purchase with: among the orders for the token
    /// that ask no more than `max_price` and offer at least `min_volume`, the
    /// cheapest, and among equally cheap ones the earliest.
    pub fn best_match(&self, token_id: u128, max_price: U256, min_volume: U256) -> (r: Option<
        Order,
    >)
        requires
            self.wf(),
        ensures
            match r {
                Some(o) => best_match_of(self@, token_id, max_price@, min_volume@) == Some(o.id)
                    && is_best_match(self@, o.id, token_id, max_price@, min_volume@)
                    && self@.orders[o.id] == o@,
                None => best_match_of(self@, token_id, max_price@, min_volume@).is_none()
                    && !some_serves(self@, token_id, max_price@, min_volume@),
            },
    {
        let mut best: Option<usize> = None;
        let mut i: usize = 0;
        while i < self.orders.len()
            invariant
                i <= self.orders@.len(),
                self.wf(),
                match best {
                    Some(b) => b < i && serves(
                        self.orders@[b as int]@,
                        token_id,
                        max_price@,
                        min_volume@,
                    ) && forall|j: int|
                        0 <= j < i && serves(
                            (#[trigger] self.orders@[j])@,
                            token_id,
                            max_price@,
                            min_volume@,
                        ) ==> goes_before(self.orders@[b as int]@, self.orders@[j]@),
                    None => forall|j: int|
                        0 <= j < i ==> !serves(
                            (#[trigger] self.orders@[j])@,
                            token_id,
                            max_price@,
                            min_volume@,
                        ),
                },
            decreases self.orders@.len() - i,
        {
            let o = self.orders[i];
            if o.token_id == token_id && o.price.le(&max_price) && min_volume.le(&o.volume) {
                match best {
                    Some(b) => {
                        if o.price.lt(&self.orders[b].price) {
                            best = Some(i);
                        }
                    },
                    None => {
                        best = Some(i);
                    },
                }
            }
            i += 1;
        }
        proof {
            self.lemma_view_wf();
        }
        match best {
            Some(b) => {
                let o = self.orders[b];
                proof {
                    lemma_place(self.orders@, b as int);
                    assert forall|other: u128| #[trigger]
                        self@.orders.dom().contains(other) && serves(
                            self@.orders[other],
                            token_id,
                            max_price@,
                            min_volume@,
                        ) implies goes_before(self@.orders[o.id], self@.orders[other]) by {
                        let p = place_of(self.orders@, other);
                        assert(0 <= p < self.orders@.len() && self.orders@[p].id == other);
                    }
                    assert(is_best_match(self@, o.id, token_id, max_price@, min_volume@));
                    let c = choose|id: u128|
                        is_best_match(self@, id, token_id, max_price@, min_volume@);
                    lemma_best_match_unique(self@, c, o.id, token_id, max_price@, min_volume@);
                }
                Some(o)
            },
            None => {
                proof {
                    assert forall|id: u128| #[trigger] self@.orders.dom().contains(id) implies !serves(
                        self@.orders[id],
                        token_id,
                        max_price@,
                        min_volume@,
                    ) by {
                        let p = place_of(self.orders@, id);
                        assert(0 <= p < self.orders@.len() && self.orders@[p].id == id);
                    }
                }
                None
            },
        }
    }

    /// Fills an order by `filled` tokens: it offers that much less, and is
    /// gone when it offers nothing more. Fails, and changes nothing, where
    /// there is no such order or it offers less than `filled`.
    pub fn reduce(&mut self, id: u128, filled: U256) -> (r: Result<(), Error>)
        requires
            old(self).wf(),
        ensures
            final(self).wf(),
            r == reduce_result(old(self)@, id, filled@),
            final(self)@ == after_reduce(old(self)@, id, filled@),
            r is Err ==> *final(self) == *old(self),
    {
        match self.find(id) {
            None => Err(Error::NoSwapExists),
            Some(i) => {
                let order = self.orders[i];
                match safe_sub(order.volume, filled) {
                    Err(_) => Err(Error::NotEnoughTokens),
                    Ok(rest) => {
                        if rest.is_zero() {
                            self.take(i);
                        } else {
                            let smaller = Order {
                                id: order.id,
                                token_id: order.token_id,
                                seller: order.seller,
                                volume: rest,
                                price: order.price,
                            };
                            proof {
                                lemma_orders_replaced(self.orders@, i as int, smaller);
                            }
                            self.orders.set(i, smaller);
                        }
                        Ok(())
                    },
                }
            },
        }
    }
}

} // verus!
