//! Arithmetic on amounts that fails instead of wrapping, and the pricing
//! rules of a constant-product pool.

use vstd::prelude::*;
use vstd::pervasive::unreached;
use crate::types::{same_amount, Error};
use crate::u256::{
    checked_add, checked_div, checked_mul, checked_sub, lemma_u256_value, u256_limit, U256,
};

verus! {

/// The fee of a swap, in parts of `FEE_DENOMINATOR`.
pub const FEE_NUMERATOR: u64 = 3;

/// The number of parts that a fee is measured in.
pub const FEE_DENOMINATOR: u64 = 1000;

/// The sum, which fails where it leaves the 256-bit range.
pub open spec fn add_result(a: nat, b: nat) -> Result<nat, Error> {
    if a + b >= u256_limit() {
        Err(Error::StorageOverflow)
    } else {
        Ok(a + b)
    }
}

/// The difference, which fails where it would be negative.
pub open spec fn sub_result(a: nat, b: nat) -> Result<nat, Error> {
    if a < b {
        Err(Error::StorageOverflow)
    } else {
        Ok((a - b) as nat)
    }
}

/// The product, which fails where it leaves the 256-bit range.
pub open spec fn mul_result(a: nat, b: nat) -> Result<nat, Error> {
    if a * b >= u256_limit() {
        Err(Error::StorageOverflow)
    } else {
        Ok(a * b)
    }
}

/// The quotient rounded down, which fails where the divisor is zero.
pub open spec fn div_result(a: nat, b: nat) -> Result<nat, Error> {
    if b == 0 {
        Err(Error::TooLowLiquidity)
    } else {
        Ok(a / b)
    }
}

/// `a * b / c` rounded down, which fails where `c` is zero or the product
/// leaves the 256-bit range.
pub open spec fn mul_div_result(a: nat, b: nat, c: nat) -> Result<nat, Error> {
    if c == 0 {
        Err(Error::TooLowLiquidity)
    } else if a * b >= u256_limit() {
        Err(Error::StorageOverflow)
    } else {
        Ok(a * b / c)
    }
}

/// The quotient rounded up: the least `q` with `q * b >= a`.
pub open spec fn ceil_quotient(a: nat, b: nat) -> nat {
    if a % b == 0 {
        a / b
    } else {
        a / b + 1
    }
}

/// The quotient rounded up, which fails where the divisor is zero.
pub open spec fn div_ceil_result(a: nat, b: nat) -> Result<nat, Error> {
    if b == 0 {
        Err(Error::TooLowLiquidity)
    } else {
        Ok(ceil_quotient(a, b))
    }
}

/// Adds two amounts.
pub fn safe_add(a: U256, b: U256) -> (r: Result<U256, Error>)
    ensures
        same_amount(r, add_result(a@, b@)),
{
    match checked_add(a, b) {
        Some(v) => Ok(v),
        None => Err(Error::StorageOverflow),
    }
}

/// Subtracts `b` from `a`.
pub fn safe_sub(a: U256, b: U256) -> (r: Result<U256, Error>)
    ensures
        same_amount(r, sub_result(a@, b@)),
{
    match checked_sub(a, b) {
        Some(v) => Ok(v),
        None => Err(Error::StorageOverflow),
    }
}

/// Multiplies two amounts.
pub fn safe_mul(a: U256, b: U256) -> (r: Result<U256, Error>)
    ensures
        same_amount(r, mul_result(a@, b@)),
{
    match checked_mul(a, b) {
        Some(v) => Ok(v),
        None => Err(Error::StorageOverflow),
    }
}

/// Divides `a` by `b`, rounding down.
pub fn safe_div(a: U256, b: U256) -> (r: Result<U256, Error>)
    ensures
        same_amount(r, div_result(a@, b@)),
{
    match checked_div(a, b) {
        Some(v) => Ok(v),
        None => Err(Error::TooLowLiquidity),
    }
}

/// Computes `a * b / c`, multiplying before dividing and rounding down.
pub fn mul_div(a: U256, b: U256, c: U256) -> (r: Result<U256, Error>)
    ensures
        same_amount(r, mul_div_result(a@, b@, c@)),
{
    if c.is_zero() {
        return Err(Error::TooLowLiquidity);
    }
    match checked_mul(a, b) {
        Some(p) => safe_div(p, c),
        None => Err(Error::StorageOverflow),
    }
}

/// The sum of two amounts that is known to fit.
pub(crate) fn plus(a: U256, b: U256) -> (r: U256)
    requires
        a@ + b@ < u256_limit(),
    ensures
        r@ == a@ + b@,
{
    match checked_add(a, b) {
        Some(v) => v,
        None => unreached(),
    }
}

/// The difference of two amounts of which the second is no larger.
pub(crate) fn minus(a: U256, b: U256) -> (r: U256)
    requires
        b@ <= a@,
    ensures
        r@ == a@ - b@,
{
    match checked_sub(a, b) {
        Some(v) => v,
        None => unreached(),
    }
}

/// Divides `a` by `b`, rounding up.
pub fn div_ceil(a: U256, b: U256) -> (r: Result<U256, Error>)
    ensures
        same_amount(r, div_ceil_result(a@, b@)),
{
    match checked_div(a, b) {
        None => Err(Error::TooLowLiquidity),
        Some(q) => {
            proof {
                lemma_div_bounds(a@, b@);
            }
            match checked_mul(q, b) {
                Some(whole) => {
                    if whole == a {
                        proof {
                            lemma_u256_value(whole, a);
                        }
                        Ok(q)
                    } else {
                        proof {
                            lemma_u256_value(whole, a);
                            lemma_u256_value(q, a);
                        }
                        safe_add(q, U256::from_u64(1))
                    }
                },
                None => {
                    proof {
                        lemma_u256_value(a, a);
                    }
                    unreached()
                },
            }
        },
    }
}

/// The quotient rounded down, times the divisor, is the dividend less the
/// remainder; so both roundings stay within one step of the dividend.
pub proof fn lemma_div_bounds(a: nat, b: nat)
    requires
        b > 0,
    ensures
        (a / b) * b + a % b == a,
        a % b < b,
        (a / b) * b <= a,
        a / b <= a,
        ceil_quotient(a, b) * b >= a,
        ceil_quotient(a, b) <= a,
        a % b == 0 <==> (a / b) * b == a,
{
    let q = a / b;
    let m = a % b;
    assert(q * b + m == a && m < b) by (nonlinear_arith)
        requires
            b > 0,
            q == a / b,
            m == a % b,
    ;
    assert(q <= q * b) by (nonlinear_arith)
        requires
            b >= 1,
    ;
    assert((q + 1) * b == q * b + b) by (nonlinear_arith);
}

/// Rounding up gives the least multiplier that reaches the dividend: `q`
/// reaches it exactly when `q` is at least the rounded-up quotient.
pub proof fn lemma_ceil_quotient_least(a: nat, b: nat, q: nat)
    requires
        b > 0,
    ensures
        q * b >= a <==> q >= ceil_quotient(a, b),
{
    lemma_div_bounds(a, b);
    let c = ceil_quotient(a, b);
    if q >= c {
        assert(q * b >= c * b) by (nonlinear_arith)
            requires
                q >= c,
        ;
    } else {
        let d = a / b;
        if a % b == 0 {
            assert(q * b <= (d - 1) * b && (d - 1) * b == d * b - b) by (nonlinear_arith)
                requires
                    q <= d - 1,
                    b > 0,
            ;
        } else {
            assert(q * b <= d * b) by (nonlinear_arith)
                requires
                    q <= d,
            ;
        }
    }
}

/// What is left of an amount paid into a pool once the fee is taken, rounded
/// down.
pub open spec fn after_fee(amount: nat) -> nat {
    amount * ((FEE_DENOMINATOR - FEE_NUMERATOR) as nat) / (FEE_DENOMINATOR as nat)
}

/// What a pool with the given reserves pays out for `amount_in`: the
/// constant-product rule on the amount after the fee, rounded down.
pub open spec fn swap_output(reserve_in: nat, reserve_out: nat, amount_in: nat) -> nat {
    reserve_out * after_fee(amount_in) / (reserve_in + after_fee(amount_in))
}

/// The payout of a swap as it is computed: it fails where a step leaves the
/// 256-bit range, and where there is nothing to divide by.
pub open spec fn swap_output_result(reserve_in: nat, reserve_out: nat, amount_in: nat) -> Result<
    nat,
    Error,
> {
    if amount_in * ((FEE_DENOMINATOR - FEE_NUMERATOR) as nat) >= u256_limit() {
        Err(Error::StorageOverflow)
    } else if reserve_in + after_fee(amount_in) >= u256_limit() {
        Err(Error::StorageOverflow)
    } else {
        mul_div_result(reserve_out, after_fee(amount_in), reserve_in + after_fee(amount_in))
    }
}

/// The least amount that, paid into a pool with the given reserves, makes it
/// pay out at least `amount_out`, for `amount_out` below the reserve paid from.
pub open spec fn swap_input(reserve_in: nat, reserve_out: nat, amount_out: nat) -> nat {
    ceil_quotient(
        ceil_quotient(amount_out * reserve_in, (reserve_out - amount_out) as nat) * (
        FEE_DENOMINATOR as nat),
        (FEE_DENOMINATOR - FEE_NUMERATOR) as nat,
    )
}

/// The input for a wanted payout as it is computed: it fails where the pool
/// does not hold more than the payout, and where a step leaves the 256-bit
/// range.
pub open spec fn swap_input_result(reserve_in: nat, reserve_out: nat, amount_out: nat) -> Result<
    nat,
    Error,
> {
    if amount_out >= reserve_out {
        Err(Error::TooLowLiquidity)
    } else if amount_out * reserve_in >= u256_limit() {
        Err(Error::StorageOverflow)
    } else if ceil_quotient(amount_out * reserve_in, (reserve_out - amount_out) as nat) * (
    FEE_DENOMINATOR as nat) >= u256_limit() {
        Err(Error::StorageOverflow)
    } else {
        Ok(swap_input(reserve_in, reserve_out, amount_out))
    }
}

/// Computes what a pool with the given reserves pays out for `amount_in`.
pub fn quote_output(reserve_in: U256, reserve_out: U256, amount_in: U256) -> (r: Result<
    U256,
    Error,
>)
    ensures
        same_amount(r, swap_output_result(reserve_in@, reserve_out@, amount_in@)),
{
    let kept = match mul_div(
        amount_in,
        U256::from_u64(FEE_DENOMINATOR - FEE_NUMERATOR),
        U256::from_u64(FEE_DENOMINATOR),
    ) {
        Ok(v) => v,
        Err(e) => {
            return Err(e);
        },
    };
    let grown = match safe_add(reserve_in, kept) {
        Ok(v) => v,
        Err(e) => {
            return Err(e);
        },
    };
    mul_div(reserve_out, kept, grown)
}

/// Computes the least amount to pay into a pool with the given reserves for
/// it to pay out at least `amount_out`.
pub fn quote_input(reserve_in: U256, reserve_out: U256, amount_out: U256) -> (r: Result<
    U256,
    Error,
>)
    ensures
        same_amount(r, swap_input_result(reserve_in@, reserve_out@, amount_out@)),
{
    if !amount_out.lt(&reserve_out) {
        return Err(Error::TooLowLiquidity);
    }
    let rest = match safe_sub(reserve_out, amount_out) {
        Ok(v) => v,
        Err(e) => {
            return Err(e);
        },
    };
    let owed = match safe_mul(amount_out, reserve_in) {
        Ok(v) => v,
        Err(e) => {
            return Err(e);
        },
    };
    let kept = match div_ceil(owed, rest) {
        Ok(v) => v,
        Err(e) => {
            return Err(e);
        },
    };
    let scaled = match safe_mul(kept, U256::from_u64(FEE_DENOMINATOR)) {
        Ok(v) => v,
        Err(e) => {
            return Err(e);
        },
    };
    proof {
        lemma_div_bounds(scaled@, (FEE_DENOMINATOR - FEE_NUMERATOR) as nat);
    }
    div_ceil(scaled, U256::from_u64(FEE_DENOMINATOR - FEE_NUMERATOR))
}

/// A swap never empties the reserve it pays from, and the product of the
/// reserves after it is at least the product before, and more where anything
/// was paid in: the fee stays in the pool.
pub proof fn lemma_swap_keeps_product(reserve_in: nat, reserve_out: nat, amount_in: nat)
    requires
        reserve_in > 0,
        reserve_out > 0,
    ensures
        swap_output(reserve_in, reserve_out, amount_in) < reserve_out,
        (reserve_in + amount_in) * (reserve_out - swap_output(reserve_in, reserve_out, amount_in))
            >= reserve_in * reserve_out,
        amount_in > 0 ==> (reserve_in + amount_in) * (reserve_out - swap_output(
            reserve_in,
            reserve_out,
            amount_in,
        )) > reserve_in * reserve_out,
{
    let f = after_fee(amount_in);
    let d = reserve_in + f;
    let out = swap_output(reserve_in, reserve_out, amount_in);
    lemma_after_fee_bounds(amount_in, amount_in);
    lemma_div_bounds(reserve_out * f, d);
    assert(out * d <= reserve_out * f);
    assert(reserve_out * f < reserve_out * d) by (nonlinear_arith)
        requires
            f < d,
            reserve_out > 0,
    ;
    assert(out < reserve_out) by (nonlinear_arith)
        requires
            out * d < reserve_out * d,
            d > 0,
    ;
    assert(d * (reserve_out - out) == reserve_in * reserve_out + reserve_out * f - out * d)
        by (nonlinear_arith)
        requires
            d == reserve_in + f,
    ;
    assert((reserve_in + amount_in) * (reserve_out - out) >= d * (reserve_out - out))
        by (nonlinear_arith)
        requires
            reserve_in + amount_in >= d,
            reserve_out - out >= 0,
    ;
    if amount_in > 0 {
        assert(f == amount_in * 997 / 1000);
        assert((reserve_in + amount_in) * (reserve_out - out) >= d * (reserve_out - out) + 1)
            by (nonlinear_arith)
            requires
                reserve_in + amount_in >= d + 1,
                reserve_out - out >= 1,
        ;
    }
}

/// With `kept` reaching the pool after the fee, the payout is at least `out`
/// exactly when `kept * (reserve_out - out) >= out * reserve_in`.
pub proof fn lemma_payout_reached(reserve_in: nat, reserve_out: nat, kept: nat, out: nat)
    requires
        reserve_in > 0,
    ensures
        reserve_out * kept / (reserve_in + kept) >= out <==> kept * (reserve_out - out) >= out
            * reserve_in,
{
    let d = reserve_in + kept;
    let n = reserve_out * kept;
    lemma_div_bounds(n, d);
    assert(kept * (reserve_out - out) - out * reserve_in == n - out * d) by (nonlinear_arith)
        requires
            d == reserve_in + kept,
            n == reserve_out * kept,
    ;
    if n / d >= out {
        assert((n / d) * d >= out * d) by (nonlinear_arith)
            requires
                n / d >= out,
        ;
    } else {
        assert((n / d + 1) * d <= out * d && (n / d + 1) * d == (n / d) * d + d)
            by (nonlinear_arith)
            requires
                n / d + 1 <= out,
        ;
    }
}

/// The fee leaves at least `kept` of an amount exactly when the amount times
/// the share kept is at least `kept` times the denominator.
pub proof fn lemma_after_fee_reached(amount: nat, kept: nat)
    ensures
        after_fee(amount) >= kept <==> amount * ((FEE_DENOMINATOR - FEE_NUMERATOR) as nat) >= kept
            * (FEE_DENOMINATOR as nat),
{
    assert(after_fee(amount) == amount * 997 / 1000);
    assert(amount * ((FEE_DENOMINATOR - FEE_NUMERATOR) as nat) == amount * 997);
    assert(kept * (FEE_DENOMINATOR as nat) == kept * 1000);
}

/// The fee never adds to an amount, and leaves no less of a larger amount.
pub proof fn lemma_after_fee_bounds(a: nat, b: nat)
    requires
        a <= b,
    ensures
        after_fee(a) <= after_fee(b),
        after_fee(b) <= b,
{
    assert(after_fee(a) == a * 997 / 1000);
    assert(after_fee(b) == b * 997 / 1000);
}

/// The computed input is enough for the wanted payout, and no smaller input
/// is.
pub proof fn lemma_swap_input_least(reserve_in: nat, reserve_out: nat, amount_out: nat, a: nat)
    requires
        reserve_in > 0,
        amount_out < reserve_out,
    ensures
        swap_output(reserve_in, reserve_out, a) >= amount_out <==> a >= swap_input(
            reserve_in,
            reserve_out,
            amount_out,
        ),
{
    let rest = (reserve_out - amount_out) as nat;
    let kept = ceil_quotient(amount_out * reserve_in, rest);
    lemma_payout_reached(reserve_in, reserve_out, after_fee(a), amount_out);
    assert(after_fee(a) * rest == rest * after_fee(a)) by (nonlinear_arith);
    lemma_ceil_quotient_least(amount_out * reserve_in, rest, after_fee(a));
    lemma_after_fee_reached(a, kept);
    lemma_ceil_quotient_least(
        kept * (FEE_DENOMINATOR as nat),
        (FEE_DENOMINATOR - FEE_NUMERATOR) as nat,
        a,
    );
}

} // verus!
