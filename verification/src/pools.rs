//! The liquidity pools of all tokens, and the shares that accounts hold of
//! them.

use vstd::prelude::*;
use crate::math::{minus, plus, safe_add};
use crate::pool::{
    bound_of, deposit_result, lemma_deposit_keeps_wf, lemma_swap_keeps_wf,
    lemma_withdraw_keeps_wf, same_amounts, swap_result, withdraw_result, Direction, Pool,
    PoolState,
};
use crate::types::{same_amount, AccountId, Error};
use crate::u256::{lemma_u256_value, u256_limit, U256};

verus! {

/// The shares that one account holds of one pool.
#[derive(Clone, Copy, Debug, PartialEq, Eq, Structural)]
pub struct LiquidityPosition {
    pub token_id: u128,
    pub account: AccountId,
    pub shares: U256,
}

/// The shares of a token's pool that the accounts with a number below `n`
/// hold together.
pub open spec fn shares_below(positions: Map<(u128, AccountId), nat>, token_id: u128, n: nat) -> nat
    decreases n,
{
    if n == 0 {
        0
    } else {
        shares_below(positions, token_id, (n - 1) as nat) + positions[(
            token_id,
            (n - 1) as AccountId,
        )]
    }
}

/// The shares of a token's pool that all accounts hold together.
pub open spec fn shares_of_all(positions: Map<(u128, AccountId), nat>, token_id: u128) -> nat {
    shares_below(positions, token_id, 0x1_0000_0000_0000_0000)
}

/// Where two sets of positions differ in one pool for at most one account,
/// the sums for that pool differ by what that account's shares differ by.
pub proof fn lemma_shares_below_differ(
    before: Map<(u128, AccountId), nat>,
    after: Map<(u128, AccountId), nat>,
    token_id: u128,
    who: AccountId,
    n: nat,
)
    requires
        n <= 0x1_0000_0000_0000_0000,
        forall|a: AccountId| a != who ==> #[trigger] after[(token_id, a)] == before[(token_id, a)],
    ensures
        shares_below(after, token_id, n) == shares_below(before, token_id, n) + (if who < n {
            after[(token_id, who)] - before[(token_id, who)]
        } else {
            0
        }),
        who < n ==> before[(token_id, who)] <= shares_below(before, token_id, n),
    decreases n,
{
    if n > 0 {
        lemma_shares_below_differ(before, after, token_id, who, (n - 1) as nat);
        let last = (n - 1) as AccountId;
        if last != who {
            assert(after[(token_id, last)] == before[(token_id, last)]);
        }
    }
}

/// The sum for a pool changes with the shares of one account as those shares
/// do, and the sum for any other pool with the positions in that pool.
pub proof fn lemma_shares_of_all_replaced(
    positions: Map<(u128, AccountId), nat>,
    token_id: u128,
    who: AccountId,
    shares: nat,
    t: u128,
)
    ensures
        shares_of_all(positions.insert((token_id, who), shares), t) == shares_of_all(
            positions,
            t,
        ) + (if t == token_id {
            shares - positions[(token_id, who)]
        } else {
            0
        }),
        positions[(token_id, who)] <= shares_of_all(positions, token_id),
{
    let after = positions.insert((token_id, who), shares);
    lemma_shares_below_differ(positions, after, t, who, 0x1_0000_0000_0000_0000);
    lemma_shares_below_differ(positions, positions, token_id, who, 0x1_0000_0000_0000_0000);
}

/// No account holds more shares of a pool than the pool has.
pub proof fn lemma_position_within_total(s: PoolsState, token_id: u128, who: AccountId)
    requires
        s.wf(),
    ensures
        s.positions[(token_id, who)] <= s.pools[token_id].total_shares,
{
    lemma_shares_of_all_replaced(s.positions, token_id, who, 0, token_id);
    assert(shares_of_all(s.positions, token_id) == s.pools[token_id].total_shares);
}

/// All pools and positions as a value. Every token has a pool, which is empty
/// until liquidity is added, and every account has a position in every pool.
pub struct PoolsState {
    pub pools: Map<u128, PoolState>,
    pub positions: Map<(u128, AccountId), nat>,
}

impl PoolsState {
    /// What holds of the pools together: each is valid, and the shares that
    /// all accounts hold of a pool sum to the shares of the pool.
    pub open spec fn wf(self) -> bool {
        &&& forall|t: u128| #[trigger] self.pools.dom().contains(t)
        &&& forall|t: u128| (#[trigger] self.pools[t]).wf()
        &&& forall|k: (u128, AccountId)| #[trigger] self.positions.dom().contains(k)
        &&& forall|t: u128| #[trigger]
            shares_of_all(self.positions, t) == self.pools[t].total_shares
    }

    /// The same pools with one pool and one position replaced.
    pub open spec fn with(
        self,
        token_id: u128,
        pool: PoolState,
        who: AccountId,
        shares: nat,
    ) -> PoolsState {
        PoolsState {
            pools: self.pools.insert(token_id, pool),
            positions: self.positions.insert((token_id, who), shares),
        }
    }

    /// The pools after an attempt to deposit.
    pub open spec fn after_deposit(
        self,
        who: AccountId,
        token_id: u128,
        token_amount: nat,
        currency_amount: nat,
    ) -> PoolsState {
        let pool = self.pools[token_id];
        match deposit_result(pool, token_amount, currency_amount) {
            Ok((currency, minted)) => self.with(
                token_id,
                PoolState {
                    token_reserve: pool.token_reserve + token_amount,
                    currency_reserve: pool.currency_reserve + currency,
                    total_shares: pool.total_shares + minted,
                },
                who,
                self.positions[(token_id, who)] + minted,
            ),
            Err(_) => self,
        }
    }

    /// The pools after an attempt to withdraw.
    pub open spec fn after_withdraw(
        self,
        who: AccountId,
        token_id: u128,
        shares: nat,
    ) -> PoolsState {
        let pool = self.pools[token_id];
        match withdraw_result(pool, self.positions[(token_id, who)], shares) {
            Ok((tokens, currency)) => self.with(
                token_id,
                PoolState {
                    token_reserve: (pool.token_reserve - tokens) as nat,
                    currency_reserve: (pool.currency_reserve - currency) as nat,
                    total_shares: (pool.total_shares - shares) as nat,
                },
                who,
                (self.positions[(token_id, who)] - shares) as nat,
            ),
            Err(_) => self,
        }
    }

    /// The pools after an attempt to swap.
    pub open spec fn after_swap(
        self,
        token_id: u128,
        direction: Direction,
        amount_in: nat,
        max_input: Option<nat>,
        min_output: Option<nat>,
    ) -> PoolsState {
        let pool = self.pools[token_id];
        match swap_result(pool, direction, amount_in, max_input, min_output) {
            Ok(out) => PoolsState {
                pools: self.pools.insert(token_id, pool.swapped(direction, amount_in, out)),
                positions: self.positions,
            },
            Err(_) => self,
        }
    }
}

/// Whether the list holds a pool for the token.
pub open spec fn pool_listed(pools: Seq<Pool>, token_id: u128) -> bool {
    exists|i: int| 0 <= i < pools.len() && (#[trigger] pools[i]).token_id == token_id
}

/// The place in the list of the pool for the token.
pub open spec fn pool_place(pools: Seq<Pool>, token_id: u128) -> int {
    choose|i: int| 0 <= i < pools.len() && (#[trigger] pools[i]).token_id == token_id
}

/// The pool for the token: the listed one, or the empty pool.
pub open spec fn pool_state(pools: Seq<Pool>, token_id: u128) -> PoolState {
    if pool_listed(pools, token_id) {
        pools[pool_place(pools, token_id)]@
    } else {
        PoolState::empty()
    }
}

/// Whether no two listed pools are for the same token.
pub open spec fn pools_distinct(pools: Seq<Pool>) -> bool {
    forall|i: int, j: int|
        0 <= i < j < pools.len() ==> (#[trigger] pools[i]).token_id != (#[trigger] pools[j]).token_id
}

/// Whether the list holds a position of the account in the token's pool.
pub open spec fn position_listed(
    positions: Seq<LiquidityPosition>,
    token_id: u128,
    account: AccountId,
) -> bool {
    exists|i: int|
        0 <= i < positions.len() && (#[trigger] positions[i]).token_id == token_id
            && positions[i].account == account
}

/// The place in the list of the account's position in the token's pool.
pub open spec fn position_place(
    positions: Seq<LiquidityPosition>,
    token_id: u128,
    account: AccountId,
) -> int {
    choose|i: int|
        0 <= i < positions.len() && (#[trigger] positions[i]).token_id == token_id
            && positions[i].account == account
}

/// The shares that the account holds of the token's pool: those of the listed
/// position, or none.
pub open spec fn shares_held(
    positions: Seq<LiquidityPosition>,
    token_id: u128,
    account: AccountId,
) -> nat {
    if position_listed(positions, token_id, account) {
        positions[position_place(positions, token_id, account)].shares@
    } else {
        0
    }
}

/// Whether no two listed positions are of the same account in the same pool.
pub open spec fn positions_distinct(positions: Seq<LiquidityPosition>) -> bool {
    forall|i: int, j: int|
        0 <= i < j < positions.len() ==> !((#[trigger] positions[i]).token_id == (
        #[trigger] positions[j]).token_id && positions[i].account == positions[j].account)
}

/// The shares that a position adds to the sum for a token.
pub open spec fn counted(position: LiquidityPosition, token_id: u128) -> nat {
    if position.token_id == token_id {
        position.shares@
    } else {
        0
    }
}

/// The sum of the shares of all listed positions in the token's pool.
pub open spec fn shares_sum(positions: Seq<LiquidityPosition>, token_id: u128) -> nat
    decreases positions.len(),
{
    if positions.len() == 0 {
        0
    } else {
        shares_sum(positions.drop_last(), token_id) + counted(positions.last(), token_id)
    }
}

/// Among distinct pools, a pool is found at its own place.
pub proof fn lemma_pool_place(pools: Seq<Pool>, i: int)
    requires
        pools_distinct(pools),
        0 <= i < pools.len(),
    ensures
        pool_listed(pools, pools[i].token_id),
        pool_place(pools, pools[i].token_id) == i,
        pool_state(pools, pools[i].token_id) == pools[i]@,
{
    let p = pool_place(pools, pools[i].token_id);
    assert(0 <= p < pools.len() && pools[p].token_id == pools[i].token_id);
    if p < i {
        assert(pools[p].token_id != pools[i].token_id);
    } else if i < p {
        assert(pools[i].token_id != pools[p].token_id);
    }
}

/// Replacing a listed pool by one for the same token changes that token's
/// pool and no other.
pub proof fn lemma_pool_replaced(pools: Seq<Pool>, i: int, pool: Pool, token_id: u128)
    requires
        pools_distinct(pools),
        0 <= i < pools.len(),
        pools[i].token_id == pool.token_id,
    ensures
        pools_distinct(pools.update(i, pool)),
        pool_state(pools.update(i, pool), token_id) == if token_id == pool.token_id {
            pool@
        } else {
            pool_state(pools, token_id)
        },
{
    let after = pools.update(i, pool);
    assert forall|a: int, b: int| 0 <= a < b < after.len() implies (#[trigger] after[a]).token_id != (
    #[trigger] after[b]).token_id by {
        assert(after[a].token_id == pools[a].token_id);
        assert(after[b].token_id == pools[b].token_id);
    }
    if token_id == pool.token_id {
        lemma_pool_place(after, i);
    } else if pool_listed(pools, token_id) {
        let p = pool_place(pools, token_id);
        assert(after[p] == pools[p]);
        lemma_pool_place(after, p);
        lemma_pool_place(pools, p);
    } else if pool_listed(after, token_id) {
        let p = pool_place(after, token_id);
        assert(pools[p].token_id == token_id);
    }
}

/// Appending a pool for a token that has none listed changes that token's
/// pool and no other.
pub proof fn lemma_pool_appended(pools: Seq<Pool>, pool: Pool, token_id: u128)
    requires
        pools_distinct(pools),
        !pool_listed(pools, pool.token_id),
    ensures
        pools_distinct(pools.push(pool)),
        pool_state(pools.push(pool), token_id) == if token_id == pool.token_id {
            pool@
        } else {
            pool_state(pools, token_id)
        },
{
    let after = pools.push(pool);
    assert forall|a: int, b: int| 0 <= a < b < after.len() implies (#[trigger] after[a]).token_id != (
    #[trigger] after[b]).token_id by {
        assert(after[a] == pools[a]);
        if b < pools.len() {
            assert(after[b] == pools[b]);
        }
    }
    if token_id == pool.token_id {
        lemma_pool_place(after, pools.len() as int);
    } else if pool_listed(pools, token_id) {
        let p = pool_place(pools, token_id);
        assert(after[p] == pools[p]);
        lemma_pool_place(after, p);
        lemma_pool_place(pools, p);
    } else if pool_listed(after, token_id) {
        let p = pool_place(after, token_id);
        assert(pools[p].token_id == token_id);
    }
}

/// Among distinct positions, a position is found at its own place.
pub proof fn lemma_position_place(positions: Seq<LiquidityPosition>, i: int)
    requires
        positions_distinct(positions),
        0 <= i < positions.len(),
    ensures
        position_listed(positions, positions[i].token_id, positions[i].account),
        position_place(positions, positions[i].token_id, positions[i].account) == i,
        shares_held(positions, positions[i].token_id, positions[i].account)
            == positions[i].shares@,
{
    let p = position_place(positions, positions[i].token_id, positions[i].account);
    assert(0 <= p < positions.len() && positions[p].token_id == positions[i].token_id
        && positions[p].account == positions[i].account);
    if p < i {
        assert(!(positions[p].token_id == positions[i].token_id && positions[p].account
            == positions[i].account));
    } else if i < p {
        assert(!(positions[i].token_id == positions[p].token_id && positions[i].account
            == positions[p].account));
    }
}

/// Replacing the shares of a listed position changes what its account holds
/// of its pool, and nothing else that is held.
pub proof fn lemma_position_replaced(
    positions: Seq<LiquidityPosition>,
    i: int,
    position: LiquidityPosition,
    token_id: u128,
    account: AccountId,
)
    requires
        positions_distinct(positions),
        0 <= i < positions.len(),
        positions[i].token_id == position.token_id,
        positions[i].account == position.account,
    ensures
        positions_distinct(positions.update(i, position)),
        shares_held(positions.update(i, position), token_id, account) == if token_id
            == position.token_id && account == position.account {
            position.shares@
        } else {
            shares_held(positions, token_id, account)
        },
{
    let after = positions.update(i, position);
    assert forall|a: int, b: int| 0 <= a < b < after.len() implies !((#[trigger] after[a]).token_id
        == (#[trigger] after[b]).token_id && after[a].account == after[b].account) by {
        assert(after[a].token_id == positions[a].token_id && after[a].account
            == positions[a].account);
        assert(after[b].token_id == positions[b].token_id && after[b].account
            == positions[b].account);
    }
    if token_id == position.token_id && account == position.account {
        lemma_position_place(after, i);
    } else if position_listed(positions, token_id, account) {
        let p = position_place(positions, token_id, account);
        assert(after[p] == positions[p]);
        lemma_position_place(after, p);
        lemma_position_place(positions, p);
    } else if position_listed(after, token_id, account) {
        let p = position_place(after, token_id, account);
        assert(positions[p].token_id == token_id && positions[p].account == account);
    }
}

/// Appending a position of an account that has none listed in that pool
/// changes what the account holds of the pool, and nothing else that is held.
pub proof fn lemma_position_appended(
    positions: Seq<LiquidityPosition>,
    position: LiquidityPosition,
    token_id: u128,
    account: AccountId,
)
    requires
        positions_distinct(positions),
        !position_listed(positions, position.token_id, position.account),
    ensures
        positions_distinct(positions.push(position)),
        shares_held(positions.push(position), token_id, account) == if token_id
            == position.token_id && account == position.account {
            position.shares@
        } else {
            shares_held(positions, token_id, account)
        },
{
    let after = positions.push(position);
    assert forall|a: int, b: int| 0 <= a < b < after.len() implies !((#[trigger] after[a]).token_id
        == (#[trigger] after[b]).token_id && after[a].account == after[b].account) by {
        assert(after[a] == positions[a]);
        if b < positions.len() {
            assert(after[b] == positions[b]);
        }
    }
    if token_id == position.token_id && account == position.account {
        lemma_position_place(after, positions.len() as int);
    } else if position_listed(positions, token_id, account) {
        let p = position_place(positions, token_id, account);
        assert(after[p] == positions[p]);
        lemma_position_place(after, p);
        lemma_position_place(positions, p);
    } else if position_listed(after, token_id, account) {
        let p = position_place(after, token_id, account);
        assert(positions[p].token_id == token_id && positions[p].account == account);
    }
}

/// Replacing a listed position changes the sum for a token by the difference
/// of what the two positions add to it; and a position adds no more to a sum
/// than the sum.
pub proof fn lemma_sum_replaced(
    positions: Seq<LiquidityPosition>,
    i: int,
    position: LiquidityPosition,
    token_id: u128,
)
    requires
        0 <= i < positions.len(),
    ensures
        counted(positions[i], token_id) <= shares_sum(positions, token_id),
        shares_sum(positions.update(i, position), token_id) == shares_sum(positions, token_id)
            - counted(positions[i], token_id) + counted(position, token_id),
    decreases positions.len(),
{
    let after = positions.update(i, position);
    if i == positions.len() - 1 {
        assert(after.drop_last() =~= positions.drop_last());
    } else {
        lemma_sum_replaced(positions.drop_last(), i, position, token_id);
        assert(after.drop_last() =~= positions.drop_last().update(i, position));
    }
}

/// Appending a position adds what it counts for to the sum for a token.
pub proof fn lemma_sum_appended(
    positions: Seq<LiquidityPosition>,
    position: LiquidityPosition,
    token_id: u128,
)
    ensures
        shares_sum(positions.push(position), token_id) == shares_sum(positions, token_id)
            + counted(position, token_id),
{
    assert(positions.push(position).drop_last() =~= positions);
}

/// The positions that a list holds, by pool and account.
pub open spec fn positions_map(positions: Seq<LiquidityPosition>) -> Map<(u128, AccountId), nat> {
    Map::total(|k: (u128, AccountId)| shares_held(positions, k.0, k.1))
}

/// The shares of the positions listed in a pool sum to the shares that all
/// accounts hold of it.
pub proof fn lemma_list_sum_is_account_sum(positions: Seq<LiquidityPosition>, token_id: u128)
    requires
        positions_distinct(positions),
    ensures
        shares_sum(positions, token_id) == shares_of_all(positions_map(positions), token_id),
    decreases positions.len(),
{
    if positions.len() == 0 {
        let zero = Map::<(u128, AccountId), nat>::total(|k: (u128, AccountId)| 0nat);
        assert(positions_map(positions) =~= zero);
        lemma_shares_below_zero(token_id, 0x1_0000_0000_0000_0000);
    } else {
        let rest = positions.drop_last();
        let last = positions.last();
        assert(positions =~= rest.push(last));
        assert forall|i: int, j: int| 0 <= i < j < rest.len() implies !((#[trigger] rest[i]).token_id
            == (#[trigger] rest[j]).token_id && rest[i].account == rest[j].account) by {
            assert(rest[i] == positions[i]);
            assert(rest[j] == positions[j]);
        }
        if position_listed(rest, last.token_id, last.account) {
            let p = position_place(rest, last.token_id, last.account);
            assert(rest[p] == positions[p]);
            assert(positions[positions.len() - 1] == last);
        }
        lemma_list_sum_is_account_sum(rest, token_id);
        let before = positions_map(rest);
        let after = positions_map(positions);
        assert forall|t: u128, a: AccountId| #[trigger]
            after[(t, a)] == (if t == last.token_id && a == last.account {
                last.shares@
            } else {
                before[(t, a)]
            }) by {
            lemma_position_appended(rest, last, t, a);
        }
        assert(after =~= before.insert((last.token_id, last.account), last.shares@));
        lemma_shares_of_all_replaced(
            before,
            last.token_id,
            last.account,
            last.shares@,
            token_id,
        );
    }
}

/// Where nobody holds shares, the shares sum to zero.
pub proof fn lemma_shares_below_zero(token_id: u128, n: nat)
    ensures
        shares_below(
            Map::<(u128, AccountId), nat>::total(|k: (u128, AccountId)| 0nat),
            token_id,
            n,
        ) == 0,
    decreases n,
{
    if n > 0 {
        lemma_shares_below_zero(token_id, (n - 1) as nat);
    }
}

/// Whether a list of pools and a list of positions make the pools of an
/// exchange: no token has two pools listed and no account two positions in a
/// pool, every pool is valid, and the shares of the positions listed in a
/// pool sum to the shares of the pool, which are none for a token that has
/// no pool listed.
pub open spec fn pools_valid(pools: Seq<Pool>, positions: Seq<LiquidityPosition>) -> bool {
    &&& pools_distinct(pools)
    &&& positions_distinct(positions)
    &&& forall|i: int| 0 <= i < pools.len() ==> (#[trigger] pools[i])@.wf()
    &&& forall|t: u128| #[trigger]
        shares_sum(positions, t) == pool_state(pools, t).total_shares
}

/// The sum for a token is no less over a list than over a part of it from
/// the start.
pub proof fn lemma_sum_grows(positions: Seq<LiquidityPosition>, n: int, token_id: u128)
    requires
        0 <= n <= positions.len(),
    ensures
        shares_sum(positions.take(n), token_id) <= shares_sum(positions, token_id),
    decreases positions.len() - n,
{
    if n == positions.len() {
        assert(positions.take(n) =~= positions);
    } else {
        lemma_sum_grows(positions, n + 1, token_id);
        assert(positions.take(n + 1).drop_last() =~= positions.take(n));
    }
}

/// Where every position listed in a pool holds no shares, the sum for that
/// pool is zero.
pub proof fn lemma_sum_of_nothing(positions: Seq<LiquidityPosition>, token_id: u128)
    requires
        forall|j: int|
            0 <= j < positions.len() ==> counted(#[trigger] positions[j], token_id) == 0,
    ensures
        shares_sum(positions, token_id) == 0,
    decreases positions.len(),
{
    if positions.len() > 0 {
        let rest = positions.drop_last();
        assert forall|j: int| 0 <= j < rest.len() implies counted(#[trigger] rest[j], token_id)
            == 0 by {
            assert(rest[j] == positions[j]);
        }
        lemma_sum_of_nothing(rest, token_id);
        assert(counted(positions[positions.len() - 1], token_id) == 0);
    }
}

/// Whether no two listed pools are for the same token.
fn pools_are_distinct(pools: &Vec<Pool>) -> (r: bool)
    ensures
        r == pools_distinct(pools@),
{
    let mut j: usize = 0;
    while j < pools.len()
        invariant
            j <= pools@.len(),
            forall|a: int, b: int|
                0 <= a < b < j ==> (#[trigger] pools@[a]).token_id != (#[trigger] pools@[b]).token_id,
        decreases pools@.len() - j,
    {
        let mut i: usize = 0;
        while i < j
            invariant
                i <= j < pools@.len(),
                forall|a: int| 0 <= a < i ==> (#[trigger] pools@[a]).token_id != pools@[j as int].token_id,
            decreases j - i,
        {
            if pools[i].token_id == pools[j].token_id {
                return false;
            }
            i += 1;
        }
        j += 1;
    }
    true
}

/// Whether no two listed positions are of the same account in the same pool.
fn positions_are_distinct(positions: &Vec<LiquidityPosition>) -> (r: bool)
    ensures
        r == positions_distinct(positions@),
{
    let mut j: usize = 0;
    while j < positions.len()
        invariant
            j <= positions@.len(),
            forall|a: int, b: int|
                0 <= a < b < j ==> !((#[trigger] positions@[a]).token_id == (
                #[trigger] positions@[b]).token_id && positions@[a].account
                    == positions@[b].account),
        decreases positions@.len() - j,
    {
        let mut i: usize = 0;
        while i < j
            invariant
                i <= j < positions@.len(),
                forall|a: int|
                    0 <= a < i ==> !((#[trigger] positions@[a]).token_id
                        == positions@[j as int].token_id && positions@[a].account
                        == positions@[j as int].account),
            decreases j - i,
        {
            if positions[i].token_id == positions[j].token_id && positions[i].account
                == positions[j].account {
                return false;
            }
            i += 1;
        }
        j += 1;
    }
    true
}

/// Whether every listed pool is valid.
fn pools_are_balanced(pools: &Vec<Pool>) -> (r: bool)
    ensures
        r == (forall|i: int| 0 <= i < pools@.len() ==> (#[trigger] pools@[i])@.wf()),
{
    let mut i: usize = 0;
    while i < pools.len()
        invariant
            i <= pools@.len(),
            forall|a: int| 0 <= a < i ==> (#[trigger] pools@[a])@.wf(),
        decreases pools@.len() - i,
    {
        let p = pools[i];
        proof {
            lemma_u256_value(p.token_reserve, p.currency_reserve);
            lemma_u256_value(p.total_shares, p.total_shares);
        }
        let none = p.total_shares.is_zero();
        if none != p.token_reserve.is_zero() || none != p.currency_reserve.is_zero() {
            assert(!pools@[i as int]@.wf());
            return false;
        }
        i += 1;
    }
    true
}

/// The sum of the shares of the positions listed in a token's pool, where it
/// fits in 256 bits.
fn sum_of_shares(positions: &Vec<LiquidityPosition>, token_id: u128) -> (r: Option<U256>)
    ensures
        match r {
            Some(v) => v@ == shares_sum(positions@, token_id),
            None => shares_sum(positions@, token_id) >= u256_limit(),
        },
{
    let mut sum = U256::zero();
    let mut i: usize = 0;
    while i < positions.len()
        invariant
            i <= positions@.len(),
            sum@ == shares_sum(positions@.take(i as int), token_id),
        decreases positions@.len() - i,
    {
        proof {
            assert(positions@.take(i + 1).drop_last() =~= positions@.take(i as int));
            lemma_sum_grows(positions@, i + 1, token_id);
        }
        if positions[i].token_id == token_id {
            sum = match safe_add(sum, positions[i].shares) {
                Ok(v) => v,
                Err(_) => {
                    return None;
                },
            };
        }
        i += 1;
    }
    proof {
        assert(positions@.take(positions@.len() as int) =~= positions@);
    }
    Some(sum)
}

/// Whether a pool for the token is listed.
fn has_pool(pools: &Vec<Pool>, token_id: u128) -> (r: bool)
    ensures
        r == pool_listed(pools@, token_id),
{
    let mut i: usize = 0;
    while i < pools.len()
        invariant
            i <= pools@.len(),
            forall|a: int| 0 <= a < i ==> (#[trigger] pools@[a]).token_id != token_id,
        decreases pools@.len() - i,
    {
        if pools[i].token_id == token_id {
            return true;
        }
        i += 1;
    }
    false
}

/// Whether the shares of the positions listed in each pool sum to the shares
/// of the pool.
fn sums_agree(pools: &Vec<Pool>, positions: &Vec<LiquidityPosition>) -> (r: bool)
    requires
        pools_distinct(pools@),
    ensures
        r == (forall|t: u128| #[trigger]
            shares_sum(positions@, t) == pool_state(pools@, t).total_shares),
{
    let mut i: usize = 0;
    while i < pools.len()
        invariant
            i <= pools@.len(),
            pools_distinct(pools@),
            forall|a: int|
                0 <= a < i ==> shares_sum(positions@, (#[trigger] pools@[a]).token_id)
                    == pools@[a]@.total_shares,
        decreases pools@.len() - i,
    {
        proof {
            lemma_pool_place(pools@, i as int);
        }
        match sum_of_shares(positions, pools[i].token_id) {
            Some(sum) => {
                if sum != pools[i].total_shares {
                    proof {
                        lemma_u256_value(sum, pools@[i as int].total_shares);
                        assert(shares_sum(positions@, pools@[i as int].token_id) != pool_state(
                            pools@,
                            pools@[i as int].token_id,
                        ).total_shares);
                    }
                    return false;
                }
            },
            None => {
                proof {
                    lemma_u256_value(pools@[i as int].total_shares, pools@[i as int].total_shares);
                    assert(shares_sum(positions@, pools@[i as int].token_id) != pool_state(
                        pools@,
                        pools@[i as int].token_id,
                    ).total_shares);
                }
                return false;
            },
        }
        i += 1;
    }
    let mut j: usize = 0;
    while j < positions.len()
        invariant
            j <= positions@.len(),
            forall|b: int|
                0 <= b < j ==> (#[trigger] positions@[b]).shares@ == 0 || pool_listed(
                    pools@,
                    positions@[b].token_id,
                ),
        decreases positions@.len() - j,
    {
        if !positions[j].shares.is_zero() && !has_pool(pools, positions[j].token_id) {
            proof {
                let t = positions@[j as int].token_id;
                lemma_sum_replaced(positions@, j as int, positions@[j as int], t);
                assert(shares_sum(positions@, t) != pool_state(pools@, t).total_shares);
            }
            return false;
        }
        j += 1;
    }
    proof {
        assert forall|t: u128| #[trigger]
            shares_sum(positions@, t) == pool_state(pools@, t).total_shares by {
            if pool_listed(pools@, t) {
                let p = pool_place(pools@, t);
                lemma_pool_place(pools@, p);
            } else {
                assert forall|b: int| 0 <= b < positions@.len() implies counted(
                    #[trigger] positions@[b],
                    t,
                ) == 0 by {}
                lemma_sum_of_nothing(positions@, t);
            }
        }
    }
    true
}

/// All liquidity pools, and the shares that accounts hold of them. A token
/// whose pool was never added to has an empty pool.
pub struct Pools {
    pools: Vec<Pool>,
    positions: Vec<LiquidityPosition>,
}

impl View for Pools {
    type V = PoolsState;

    closed spec fn view(&self) -> PoolsState {
        PoolsState {
            pools: Map::total(|t: u128| pool_state(self.pools@, t)),
            positions: positions_map(self.positions@),
        }
    }
}

impl Pools {
    /// What holds of the two lists, each by itself.
    closed spec fn lists_wf(&self) -> bool {
        &&& pools_distinct(self.pools@)
        &&& positions_distinct(self.positions@)
        &&& forall|i: int| 0 <= i < self.pools@.len() ==> (#[trigger] self.pools@[i])@.wf()
    }

    /// What holds of the pools between calls: each pool is valid, and the
    /// shares of all positions in a pool sum to the shares of the pool.
    pub closed spec fn wf(&self) -> bool {
        &&& self.lists_wf()
        &&& forall|t: u128| #[trigger]
            shares_sum(self.positions@, t) == pool_state(self.pools@, t).total_shares
    }

    /// Valid pools are valid as a value.
    pub proof fn lemma_view_wf(&self)
        requires
            self.wf(),
        ensures
            self@.wf(),
    {
        assert forall|t: u128| (#[trigger] self@.pools[t]).wf() by {
            if pool_listed(self.pools@, t) {
                let p = pool_place(self.pools@, t);
                assert(self.pools@[p]@.wf());
            }
        }
        assert forall|t: u128| #[trigger]
            shares_of_all(self@.positions, t) == self@.pools[t].total_shares by {
            lemma_list_sum_is_account_sum(self.positions@, t);
            assert(shares_sum(self.positions@, t) == pool_state(self.pools@, t).total_shares);
        }
    }

    /// The positions as they are listed.
    pub closed spec fn positions_list(&self) -> Seq<LiquidityPosition> {
        self.positions@
    }

    /// The shares of a pool are the shares of the positions in it: each
    /// account has at most one position listed in a pool, holds the shares of
    /// that position, and the shares of all positions listed in a pool sum to
    /// the shares of the pool.
    pub proof fn lemma_shares_add_up(&self, token_id: u128)
        requires
            self.wf(),
        ensures
            pools_valid(self.pools_list(), self.positions_list()),
            shares_sum(self.positions_list(), token_id) == self@.pools[token_id].total_shares,
            self@.pools[token_id] == pool_state(self.pools_list(), token_id),
            forall|a: AccountId| #[trigger]
                self@.positions[(token_id, a)] == shares_held(
                    self.positions_list(),
                    token_id,
                    a,
                ),
    {
        assert(shares_sum(self.positions@, token_id) == pool_state(
            self.pools@,
            token_id,
        ).total_shares);
    }

    /// No pools: no pool and no position is listed, so every token's pool is
    /// empty and nobody holds shares.
    pub fn new() -> (r: Pools)
        ensures
            r.wf(),
            r.pools_list() == Seq::<Pool>::empty(),
            r.positions_list() == Seq::<LiquidityPosition>::empty(),
            forall|t: u128| #[trigger] r@.pools[t] == PoolState::empty(),
            forall|t: u128, a: AccountId| #[trigger] r@.positions[(t, a)] == 0,
    {
        let r = Pools { pools: Vec::new(), positions: Vec::new() };
        assert forall|t: u128| #[trigger]
            shares_sum(r.positions@, t) == pool_state(r.pools@, t).total_shares by {}
        r
    }

    /// The pools as they are listed.
    pub closed spec fn pools_list(&self) -> Seq<Pool> {
        self.pools@
    }

    /// The pools that a list of pools and a list of positions make, if they
    /// make any.
    pub fn restore(pools: Vec<Pool>, positions: Vec<LiquidityPosition>) -> (r: Option<Pools>)
        ensures
            r is Some <==> pools_valid(pools@, positions@),
            match r {
                Some(p) => p.wf() && p.pools_list() == pools@ && p.positions_list() == positions@,
                None => true,
            },
    {
        if !pools_are_distinct(&pools) || !positions_are_distinct(&positions)
            || !pools_are_balanced(&pools) {
            return None;
        }
        if !sums_agree(&pools, &positions) {
            return None;
        }
        Some(Pools { pools, positions })
    }

    /// The listed pools: one for each token that liquidity was ever added
    /// for.
    pub fn pools(&self) -> (r: Vec<Pool>)
        ensures
            r@ == self.pools_list(),
    {
        let mut r: Vec<Pool> = Vec::new();
        let mut i: usize = 0;
        while i < self.pools.len()
            invariant
                i <= self.pools@.len(),
                r@ == self.pools@.take(i as int),
            decreases self.pools@.len() - i,
        {
            r.push(self.pools[i]);
            proof {
                assert(self.pools@.take(i as int).push(self.pools@[i as int])
                    =~= self.pools@.take(i + 1));
            }
            i += 1;
        }
        proof {
            assert(self.pools@.take(self.pools@.len() as int) =~= self.pools@);
        }
        r
    }

    /// The listed positions: one for each account and pool that the account
    /// ever added liquidity to.
    pub fn positions(&self) -> (r: Vec<LiquidityPosition>)
        ensures
            r@ == self.positions_list(),
    {
        let mut r: Vec<LiquidityPosition> = Vec::new();
        let mut i: usize = 0;
        while i < self.positions.len()
            invariant
                i <= self.positions@.len(),
                r@ == self.positions@.take(i as int),
            decreases self.positions@.len() - i,
        {
            r.push(self.positions[i]);
            proof {
                assert(self.positions@.take(i as int).push(self.positions@[i as int])
                    =~= self.positions@.take(i + 1));
            }
            i += 1;
        }
        proof {
            assert(self.positions@.take(self.positions@.len() as int) =~= self.positions@);
        }
        r
    }

    /// The place of the token's pool in the list.
    fn find_pool(&self, token_id: u128) -> (r: Option<usize>)
        requires
            pools_distinct(self.pools@),
        ensures
            match r {
                Some(i) => i < self.pools@.len() && self.pools@[i as int].token_id == token_id
                    && pool_state(self.pools@, token_id) == self.pools@[i as int]@,
                None => !pool_listed(self.pools@, token_id),
            },
    {
        let mut i: usize = 0;
        while i < self.pools.len()
            invariant
                i <= self.pools@.len(),
                pools_distinct(self.pools@),
                forall|j: int| 0 <= j < i ==> (#[trigger] self.pools@[j]).token_id != token_id,
            decreases self.pools@.len() - i,
        {
            if self.pools[i].token_id == token_id {
                proof {
                    lemma_pool_place(self.pools@, i as int);
                }
                return Some(i);
            }
            i += 1;
        }
        None
    }

    /// The place of the account's position in the token's pool in the list.
    fn find_position(&self, token_id: u128, account: AccountId) -> (r: Option<usize>)
        requires
            positions_distinct(self.positions@),
        ensures
            match r {
                Some(i) => i < self.positions@.len() && self.positions@[i as int].token_id
                    == token_id && self.positions@[i as int].account == account && shares_held(
                    self.positions@,
                    token_id,
                    account,
                ) == self.positions@[i as int].shares@,
                None => !position_listed(self.positions@, token_id, account),
            },
    {
        let mut i: usize = 0;
        while i < self.positions.len()
            invariant
                i <= self.positions@.len(),
                positions_distinct(self.positions@),
                forall|j: int|
                    0 <= j < i ==> !((#[trigger] self.positions@[j]).token_id == token_id
                        && self.positions@[j].account == account),
            decreases self.positions@.len() - i,
        {
            if self.positions[i].token_id == token_id && self.positions[i].account == account {
                proof {
                    lemma_position_place(self.positions@, i as int);
                }
                return Some(i);
            }
            i += 1;
        }
        None
    }

    /// The pool of a token.
    pub fn pool(&self, token_id: u128) -> (r: Pool)
        requires
            self.wf(),
        ensures
            r.token_id == token_id,
            r@ == self@.pools[token_id],
    {
        match self.find_pool(token_id) {
            Some(i) => self.pools[i],
            None => Pool::empty(token_id),
        }
    }

    /// The shares that an account holds of a token's pool.
    pub fn position(&self, token_id: u128, account: AccountId) -> (r: U256)
        requires
            self.wf(),
        ensures
            r@ == self@.positions[(token_id, account)],
    {
        match self.find_position(token_id, account) {
            Some(i) => self.positions[i].shares,
            None => U256::zero(),
        }
    }

    /// Replaces the pool of a token.
    fn put_pool(&mut self, pool: Pool)
        requires
            old(self).lists_wf(),
            pool@.wf(),
        ensures
            final(self).lists_wf(),
            final(self).positions@ == old(self).positions@,
            forall|t: u128| #[trigger]
                pool_state(final(self).pools@, t) == (if t == pool.token_id {
                    pool@
                } else {
                    pool_state(old(self).pools@, t)
                }),
    {
        let ghost before = self.pools@;
        match self.find_pool(pool.token_id) {
            Some(i) => {
                self.pools.set(i, pool);
                proof {
                    lemma_pool_replaced(before, i as int, pool, pool.token_id);
                    assert forall|t: u128| #[trigger]
                        pool_state(self.pools@, t) == (if t == pool.token_id {
                            pool@
                        } else {
                            pool_state(before, t)
                        }) by {
                        lemma_pool_replaced(before, i as int, pool, t);
                    }
                }
            },
            None => {
                self.pools.push(pool);
                proof {
                    lemma_pool_appended(before, pool, pool.token_id);
                    assert forall|t: u128| #[trigger]
                        pool_state(self.pools@, t) == (if t == pool.token_id {
                            pool@
                        } else {
                            pool_state(before, t)
                        }) by {
                        lemma_pool_appended(before, pool, t);
                    }
                }
            },
        }
        proof {
            assert forall|i: int| 0 <= i < self.pools@.len() implies (#[trigger] self.pools@[i])@.wf() by {
                if i < before.len() && self.pools@[i] != pool {
                    assert(self.pools@[i] == before[i]);
                }
            }
        }
    }

    /// Replaces the shares that an account holds of a token's pool.
    fn put_position(&mut self, token_id: u128, who: AccountId, shares: U256)
        requires
            old(self).lists_wf(),
        ensures
            final(self).lists_wf(),
            final(self).pools@ == old(self).pools@,
            forall|t: u128, a: AccountId| #[trigger]
                shares_held(final(self).positions@, t, a) == (if t == token_id && a == who {
                    shares@
                } else {
                    shares_held(old(self).positions@, t, a)
                }),
            forall|t: u128| #[trigger]
                shares_sum(final(self).positions@, t) == (if t == token_id {
                    shares_sum(old(self).positions@, t) - shares_held(
                        old(self).positions@,
                        token_id,
                        who,
                    ) + shares@
                } else {
                    shares_sum(old(self).positions@, t) as int
                }),
    {
        let ghost before = self.positions@;
        let position = LiquidityPosition { token_id, account: who, shares };
        match self.find_position(token_id, who) {
            Some(j) => {
                self.positions.set(j, position);
                proof {
                    lemma_position_replaced(before, j as int, position, token_id, who);
                    assert forall|t: u128, a: AccountId| #[trigger]
                        shares_held(self.positions@, t, a) == (if t == token_id && a == who {
                            shares@
                        } else {
                            shares_held(before, t, a)
                        }) by {
                        lemma_position_replaced(before, j as int, position, t, a);
                    }
                    assert forall|t: u128| #[trigger]
                        shares_sum(self.positions@, t) == (if t == token_id {
                            shares_sum(before, t) - shares_held(before, token_id, who) + shares@
                        } else {
                            shares_sum(before, t) as int
                        }) by {
                        lemma_sum_replaced(before, j as int, position, t);
                    }
                }
            },
            None => {
                self.positions.push(position);
                proof {
                    lemma_position_appended(before, position, token_id, who);
                    assert forall|t: u128, a: AccountId| #[trigger]
                        shares_held(self.positions@, t, a) == (if t == token_id && a == who {
                            shares@
                        } else {
                            shares_held(before, t, a)
                        }) by {
                        lemma_position_appended(before, position, t, a);
                    }
                    assert forall|t: u128| #[trigger]
                        shares_sum(self.positions@, t) == (if t == token_id {
                            shares_sum(before, t) - shares_held(before, token_id, who) + shares@
                        } else {
                            shares_sum(before, t) as int
                        }) by {
                        lemma_sum_appended(before, position, t);
                    }
                }
            },
        }
    }

    /// Replaces the pool of a token and the shares that one account holds of
    /// it, which must change by the same amount as the shares of the pool.
    fn commit(&mut self, pool: Pool, who: AccountId, shares: U256)
        requires
            old(self).wf(),
            pool@.wf(),
            pool.total_shares@ - old(self)@.pools[pool.token_id].total_shares == shares@ - old(
                self,
            )@.positions[(pool.token_id, who)],
        ensures
            final(self).wf(),
            final(self)@ == old(self)@.with(pool.token_id, pool@, who, shares@),
    {
        self.put_pool(pool);
        self.put_position(pool.token_id, who, shares);
        proof {
            assert forall|t: u128| #[trigger]
                shares_sum(self.positions@, t) == pool_state(self.pools@, t).total_shares by {
                assert(shares_sum(old(self).positions@, t) == pool_state(
                    old(self).pools@,
                    t,
                ).total_shares);
            }
            let expected = old(self)@.with(pool.token_id, pool@, who, shares@);
            assert(self@.pools =~= expected.pools);
            assert(self@.positions =~= expected.positions);
        }
    }

    /// Deposits `token_amount` tokens, with up to `currency_amount` currency,
    /// into a token's pool for an account, and gives the currency taken and
    /// the shares minted. Fails, and changes nothing, as the deposit's terms
    /// say.
    pub fn add_liquidity(
        &mut self,
        who: AccountId,
        token_id: u128,
        token_amount: U256,
        currency_amount: U256,
    ) -> (r: Result<(U256, U256), Error>)
        requires
            old(self).wf(),
        ensures
            final(self).wf(),
            same_amounts(
                r,
                deposit_result(old(self)@.pools[token_id], token_amount@, currency_amount@),
            ),
            final(self)@ == old(self)@.after_deposit(
                who,
                token_id,
                token_amount@,
                currency_amount@,
            ),
            r is Err ==> *final(self) == *old(self),
    {
        let pool = self.pool(token_id);
        let held = self.position(token_id, who);
        match pool.deposit_terms(token_amount, currency_amount) {
            Err(e) => Err(e),
            Ok((currency, minted)) => {
                proof {
                    self.lemma_view_wf();
                    lemma_u256_value(token_amount, currency_amount);
                    lemma_u256_value(currency_amount, currency_amount);
                    lemma_deposit_keeps_wf(pool@, token_amount@, currency_amount@);
                    lemma_position_within_total(self@, token_id, who);
                }
                let grown = Pool {
                    token_id,
                    token_reserve: plus(pool.token_reserve, token_amount),
                    currency_reserve: plus(pool.currency_reserve, currency),
                    total_shares: plus(pool.total_shares, minted),
                };
                self.commit(grown, who, plus(held, minted));
                Ok((currency, minted))
            },
        }
    }

    /// Burns `shares` that an account holds of a token's pool, and gives the
    /// tokens and the currency that this pays out. Fails, and changes
    /// nothing, as the withdrawal's terms say.
    pub fn remove_liquidity(&mut self, who: AccountId, token_id: u128, shares: U256) -> (r: Result<
        (U256, U256),
        Error,
    >)
        requires
            old(self).wf(),
        ensures
            final(self).wf(),
            same_amounts(
                r,
                withdraw_result(
                    old(self)@.pools[token_id],
                    old(self)@.positions[(token_id, who)],
                    shares@,
                ),
            ),
            final(self)@ == old(self)@.after_withdraw(who, token_id, shares@),
            r is Err ==> *final(self) == *old(self),
    {
        let pool = self.pool(token_id);
        let held = self.position(token_id, who);
        match pool.withdraw_terms(held, shares) {
            Err(e) => Err(e),
            Ok((tokens, currency)) => {
                proof {
                    self.lemma_view_wf();
                    lemma_position_within_total(self@, token_id, who);
                    lemma_withdraw_keeps_wf(pool@, held@, shares@);
                }
                let shrunk = Pool {
                    token_id,
                    token_reserve: minus(pool.token_reserve, tokens),
                    currency_reserve: minus(pool.currency_reserve, currency),
                    total_shares: minus(pool.total_shares, shares),
                };
                self.commit(shrunk, who, minus(held, shares));
                Ok((tokens, currency))
            },
        }
    }

    /// Swaps `amount_in` into a token's pool, within the bounds that are
    /// given, and gives what the pool pays out. Fails, and changes nothing,
    /// as the swap's terms say.
    pub fn swap(
        &mut self,
        token_id: u128,
        direction: Direction,
        amount_in: U256,
        max_input: Option<U256>,
        min_output: Option<U256>,
    ) -> (r: Result<U256, Error>)
        requires
            old(self).wf(),
        ensures
            final(self).wf(),
            same_amount(
                r,
                swap_result(
                    old(self)@.pools[token_id],
                    direction,
                    amount_in@,
                    bound_of(max_input),
                    bound_of(min_output),
                ),
            ),
            final(self)@ == old(self)@.after_swap(
                token_id,
                direction,
                amount_in@,
                bound_of(max_input),
                bound_of(min_output),
            ),
            r is Err ==> *final(self) == *old(self),
    {
        let pool = self.pool(token_id);
        match pool.swap_terms(direction, amount_in, max_input, min_output) {
            Err(e) => Err(e),
            Ok(out) => {
                proof {
                    self.lemma_view_wf();
                    assert(self@.pools[token_id].wf());
                    lemma_swap_keeps_wf(
                        pool@,
                        direction,
                        amount_in@,
                        bound_of(max_input),
                        bound_of(min_output),
                    );
                }
                let ghost before = self@;
                self.put_pool(pool.swapped(direction, amount_in, out));
                proof {
                    assert forall|t: u128| #[trigger]
                        shares_sum(self.positions@, t) == pool_state(
                            self.pools@,
                            t,
                        ).total_shares by {
                        assert(shares_sum(old(self).positions@, t) == pool_state(
                            old(self).pools@,
                            t,
                        ).total_shares);
                    }
                    let expected = before.after_swap(
                        token_id,
                        direction,
                        amount_in@,
                        bound_of(max_input),
                        bound_of(min_output),
                    );
                    assert(self@.pools =~= expected.pools);
                    assert(self@.positions =~= expected.positions);
                }
                Ok(out)
            },
        }
    }
}

} // verus!
