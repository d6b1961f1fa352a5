//! The ledger that the exchange moves funds on: what it asks of one, and a
//! ledger held in memory.

use vstd::prelude::*;
use crate::math::safe_add;
use crate::math::safe_sub;
use crate::types::{AccountId, Asset, Error};
use crate::u256::{lemma_u256_value, u256_limit, U256};

verus! {

/// The error that a shortage of the given asset is reported with.
pub open spec fn shortage_of(asset: Asset) -> Error {
    match asset {
        Asset::Currency => Error::NotEnoughCurrency,
        Asset::Token(_) => Error::NotEnoughTokens,
    }
}

/// The error that a shortage of the given asset is reported with.
pub fn shortage(asset: Asset) -> (r: Error)
    ensures
        r == shortage_of(asset),
{
    match asset {
        Asset::Currency => Error::NotEnoughCurrency,
        Asset::Token(_) => Error::NotEnoughTokens,
    }
}

/// What the exchange is configured with: the ledger that holds every
/// account's balance in every asset. A debit or credit either takes effect on
/// the one balance it names or fails and changes nothing.
pub trait Config: Sized {
    /// What the ledger must satisfy between calls.
    spec fn wf(&self) -> bool;

    /// The balance of an account in an asset.
    spec fn balance_of(&self, who: AccountId, asset: Asset) -> nat;

    /// Every balance fits in 256 bits.
    proof fn lemma_balance_fits(&self, who: AccountId, asset: Asset)
        requires
            self.wf(),
        ensures
            self.balance_of(who, asset) < u256_limit(),
    ;

    /// Reads a balance.
    fn balance(&self, who: AccountId, asset: Asset) -> (r: U256)
        requires
            self.wf(),
        ensures
            r@ == self.balance_of(who, asset),
    ;

    /// Takes `amount` from a balance. Fails, with the shortage of that asset,
    /// exactly when the balance is less than `amount`.
    fn debit(&mut self, who: AccountId, asset: Asset, amount: U256) -> (r: Result<(), Error>)
        requires
            old(self).wf(),
        ensures
            final(self).wf(),
            r is Ok <==> old(self).balance_of(who, asset) >= amount@,
            r is Err ==> r == Err::<(), Error>(shortage_of(asset)),
            forall|w: AccountId, a: Asset|
                #[trigger] final(self).balance_of(w, a) == if r is Ok && w == who && a == asset {
                    (old(self).balance_of(w, a) - amount@) as nat
                } else {
                    old(self).balance_of(w, a)
                },
    ;

    /// Adds `amount` to a balance. Fails, with `StorageOverflow`, exactly when
    /// the sum does not fit in 256 bits.
    fn credit(&mut self, who: AccountId, asset: Asset, amount: U256) -> (r: Result<(), Error>)
        requires
            old(self).wf(),
        ensures
            final(self).wf(),
            r is Ok <==> old(self).balance_of(who, asset) + amount@ < u256_limit(),
            r is Err ==> r == Err::<(), Error>(Error::StorageOverflow),
            forall|w: AccountId, a: Asset|
                #[trigger] final(self).balance_of(w, a) == if r is Ok && w == who && a == asset {
                    old(self).balance_of(w, a) + amount@
                } else {
                    old(self).balance_of(w, a)
                },
    ;
}

/// One balance of a ledger in memory.
#[derive(Clone, Copy, Debug, PartialEq, Eq, Structural)]
pub struct Holding {
    pub who: AccountId,
    pub asset: Asset,
    pub amount: U256,
}

/// The amount of the first holding of the account in the asset, or zero.
pub open spec fn held(holdings: Seq<Holding>, who: AccountId, asset: Asset) -> nat
    decreases holdings.len(),
{
    if holdings.len() == 0 {
        0
    } else if holdings[0].who == who && holdings[0].asset == asset {
        holdings[0].amount@
    } else {
        held(holdings.drop_first(), who, asset)
    }
}

/// No holding before position `n` is of the account in the asset.
pub open spec fn absent_before(
    holdings: Seq<Holding>,
    n: int,
    who: AccountId,
    asset: Asset,
) -> bool {
    forall|j: int|
        0 <= j < n ==> !(#[trigger] holdings[j].who == who && holdings[j].asset == asset)
}

/// Where the first `n` holdings are of others, the amount held is the one
/// found from position `n` on.
pub proof fn lemma_held_skips(holdings: Seq<Holding>, n: int, who: AccountId, asset: Asset)
    requires
        0 <= n <= holdings.len(),
        absent_before(holdings, n, who, asset),
    ensures
        held(holdings, who, asset) == held(holdings.skip(n), who, asset),
    decreases n,
{
    if n == 0 {
        assert(holdings.skip(0) =~= holdings);
    } else {
        assert(!(holdings[0].who == who && holdings[0].asset == asset));
        let rest = holdings.drop_first();
        assert forall|j: int| 0 <= j < n - 1 implies !(#[trigger] rest[j].who == who
            && rest[j].asset == asset) by {
            assert(rest[j] == holdings[j + 1]);
        }
        lemma_held_skips(rest, n - 1, who, asset);
        assert(rest.skip(n - 1) =~= holdings.skip(n));
    }
}

/// Replacing the amount of a holding changes what is held of its account and
/// asset if it is the first such holding, and nothing else.
pub proof fn lemma_held_update(
    holdings: Seq<Holding>,
    n: int,
    amount: U256,
    who: AccountId,
    asset: Asset,
)
    requires
        0 <= n < holdings.len(),
        absent_before(holdings, n, holdings[n].who, holdings[n].asset),
    ensures
        held(
            holdings.update(n, Holding { who: holdings[n].who, asset: holdings[n].asset, amount }),
            who,
            asset,
        ) == if who == holdings[n].who && asset == holdings[n].asset {
            amount@
        } else {
            held(holdings, who, asset)
        },
    decreases n,
{
    let h = Holding { who: holdings[n].who, asset: holdings[n].asset, amount };
    let after = holdings.update(n, h);
    if n == 0 {
        assert(after.drop_first() =~= holdings.drop_first());
    } else {
        let rest = holdings.drop_first();
        assert(!(holdings[0].who == holdings[n].who && holdings[0].asset == holdings[n].asset));
        assert(rest[n - 1] == holdings[n]);
        assert forall|j: int| 0 <= j < n - 1 implies !(#[trigger] rest[j].who == rest[n - 1].who
            && rest[j].asset == rest[n - 1].asset) by {
            assert(rest[j] == holdings[j + 1]);
        }
        lemma_held_update(rest, n - 1, amount, who, asset);
        assert(after.drop_first() =~= rest.update(n - 1, h));
        assert(after[0] == holdings[0]);
    }
}

/// Appending a holding of an account and asset that has none sets what is
/// held of them, and changes nothing else.
pub proof fn lemma_held_push(holdings: Seq<Holding>, h: Holding, who: AccountId, asset: Asset)
    requires
        absent_before(holdings, holdings.len() as int, h.who, h.asset),
    ensures
        held(holdings.push(h), who, asset) == if who == h.who && asset == h.asset {
            h.amount@
        } else {
            held(holdings, who, asset)
        },
    decreases holdings.len(),
{
    let after = holdings.push(h);
    if holdings.len() == 0 {
        assert(after.drop_first() =~= holdings);
    } else {
        let rest = holdings.drop_first();
        assert(!(holdings[0].who == h.who && holdings[0].asset == h.asset));
        assert forall|j: int| 0 <= j < rest.len() implies !(#[trigger] rest[j].who == h.who
            && rest[j].asset == h.asset) by {
            assert(rest[j] == holdings[j + 1]);
        }
        lemma_held_push(rest, h, who, asset);
        assert(after.drop_first() =~= rest.push(h));
        assert(after[0] == holdings[0]);
    }
}

/// A ledger held in memory: a list of holdings, of which the first for an
/// account and asset counts. An account that was never credited holds zero.
pub struct MemoryLedger {
    holdings: Vec<Holding>,
}

impl MemoryLedger {
    /// A ledger on which every balance is zero.
    pub fn new() -> (r: MemoryLedger)
        ensures
            r.wf(),
            forall|w: AccountId, a: Asset| r.balance_of(w, a) == 0,
    {
        MemoryLedger { holdings: Vec::new() }
    }

    /// The holdings as they are listed.
    pub closed spec fn list(&self) -> Seq<Holding> {
        self.holdings@
    }

    /// A balance is the amount of the first holding listed for the account
    /// in the asset, or zero.
    pub proof fn lemma_list(&self, who: AccountId, asset: Asset)
        ensures
            self.balance_of(who, asset) == held(self.list(), who, asset),
    {
    }

    /// The ledger that a list of holdings makes: of the holdings of one
    /// account in one asset, the first counts.
    pub fn restore(holdings: Vec<Holding>) -> (r: MemoryLedger)
        ensures
            r.wf(),
            r.list() == holdings@,
            forall|w: AccountId, a: Asset| #[trigger] r.balance_of(w, a) == held(holdings@, w, a),
    {
        MemoryLedger { holdings }
    }

    /// The holdings of the ledger.
    pub fn holdings(&self) -> (r: Vec<Holding>)
        ensures
            r@ == self.list(),
    {
        let mut r: Vec<Holding> = Vec::new();
        let mut i: usize = 0;
        while i < self.holdings.len()
            invariant
                i <= self.holdings@.len(),
                r@ == self.holdings@.take(i as int),
            decreases self.holdings@.len() - i,
        {
            r.push(self.holdings[i]);
            proof {
                assert(self.holdings@.take(i as int).push(self.holdings@[i as int])
                    =~= self.holdings@.take(i + 1));
            }
            i += 1;
        }
        proof {
            assert(self.holdings@.take(self.holdings@.len() as int) =~= self.holdings@);
        }
        r
    }

    /// The position of the first holding of the account in the asset, or the
    /// number of holdings where there is none.
    fn find(&self, who: AccountId, asset: Asset) -> (n: usize)
        ensures
            n <= self.holdings@.len(),
            absent_before(self.holdings@, n as int, who, asset),
            n < self.holdings@.len() ==> self.holdings@[n as int].who == who
                && self.holdings@[n as int].asset == asset,
    {
        let mut n: usize = 0;
        while n < self.holdings.len()
            invariant
                n <= self.holdings@.len(),
                absent_before(self.holdings@, n as int, who, asset),
            decreases self.holdings@.len() - n,
        {
            if self.holdings[n].who == who && self.holdings[n].asset == asset {
                return n;
            }
            n += 1;
        }
        n
    }
}

impl Config for MemoryLedger {
    open spec fn wf(&self) -> bool {
        true
    }

    closed spec fn balance_of(&self, who: AccountId, asset: Asset) -> nat {
        held(self.holdings@, who, asset)
    }

    proof fn lemma_balance_fits(&self, who: AccountId, asset: Asset) {
        lemma_held_fits(self.holdings@, who, asset);
    }

    fn balance(&self, who: AccountId, asset: Asset) -> (r: U256) {
        let n = self.find(who, asset);
        proof {
            lemma_held_skips(self.holdings@, n as int, who, asset);
        }
        if n < self.holdings.len() {
            self.holdings[n].amount
        } else {
            U256::zero()
        }
    }

    fn debit(&mut self, who: AccountId, asset: Asset, amount: U256) -> (r: Result<(), Error>) {
        let n = self.find(who, asset);
        proof {
            lemma_held_skips(self.holdings@, n as int, who, asset);
        }
        if n < self.holdings.len() {
            match safe_sub(self.holdings[n].amount, amount) {
                Ok(rest) => {
                    proof {
                        assert forall|w: AccountId, a: Asset|
                            held(
                                self.holdings@.update(
                                    n as int,
                                    Holding { who, asset, amount: rest },
                                ),
                                w,
                                a,
                            ) == if w == who && a == asset {
                                rest@
                            } else {
                                held(self.holdings@, w, a)
                            } by {
                            lemma_held_update(self.holdings@, n as int, rest, w, a);
                        }
                    }
                    self.holdings.set(n, Holding { who, asset, amount: rest });
                    Ok(())
                },
                Err(_) => Err(shortage(asset)),
            }
        } else if amount.is_zero() {
            Ok(())
        } else {
            Err(shortage(asset))
        }
    }

    fn credit(&mut self, who: AccountId, asset: Asset, amount: U256) -> (r: Result<(), Error>) {
        let n = self.find(who, asset);
        proof {
            lemma_held_skips(self.holdings@, n as int, who, asset);
        }
        if n < self.holdings.len() {
            match safe_add(self.holdings[n].amount, amount) {
                Ok(sum) => {
                    proof {
                        assert forall|w: AccountId, a: Asset|
                            held(
                                self.holdings@.update(n as int, Holding { who, asset, amount: sum }),
                                w,
                                a,
                            ) == if w == who && a == asset {
                                sum@
                            } else {
                                held(self.holdings@, w, a)
                            } by {
                            lemma_held_update(self.holdings@, n as int, sum, w, a);
                        }
                    }
                    self.holdings.set(n, Holding { who, asset, amount: sum });
                    Ok(())
                },
                Err(e) => Err(e),
            }
        } else {
            proof {
                lemma_u256_value(amount, amount);
                assert forall|w: AccountId, a: Asset|
                    held(self.holdings@.push(Holding { who, asset, amount }), w, a) == if w == who
                        && a == asset {
                        amount@
                    } else {
                        held(self.holdings@, w, a)
                    } by {
                    lemma_held_push(self.holdings@, Holding { who, asset, amount }, w, a);
                }
            }
            self.holdings.push(Holding { who, asset, amount });
            Ok(())
        }
    }
}

/// What is held is the amount of a holding or zero, so it fits in 256 bits.
pub proof fn lemma_held_fits(holdings: Seq<Holding>, who: AccountId, asset: Asset)
    ensures
        held(holdings, who, asset) < u256_limit(),
    decreases holdings.len(),
{
    if holdings.len() > 0 {
        lemma_u256_value(holdings[0].amount, holdings[0].amount);
        lemma_held_fits(holdings.drop_first(), who, asset);
    }
}

} // verus!
