//! Unsigned 256-bit amounts: four 64-bit words, least significant first.

use vstd::prelude::*;

verus! {

/// Two to the power 256: the least number that no [`U256`] holds.
pub open spec fn u256_limit() -> nat {
    0x1_0000_0000_0000_0000 * 0x1_0000_0000_0000_0000 * 0x1_0000_0000_0000_0000
        * 0x1_0000_0000_0000_0000
}

/// The number that four words stand for, least significant word first.
pub open spec fn words_value(w0: u64, w1: u64, w2: u64, w3: u64) -> nat {
    (w0 + 0x1_0000_0000_0000_0000 * (w1 + 0x1_0000_0000_0000_0000 * (w2 + 0x1_0000_0000_0000_0000
        * w3))) as nat
}

/// An unsigned 256-bit number. Every combination of words is a number, and two
/// values are equal exactly when they stand for the same number.
#[derive(Clone, Copy, Debug, PartialEq, Eq, Structural)]
pub struct U256 {
    pub w0: u64,
    pub w1: u64,
    pub w2: u64,
    pub w3: u64,
}

impl View for U256 {
    type V = nat;

    open spec fn view(&self) -> nat {
        words_value(self.w0, self.w1, self.w2, self.w3)
    }
}

/// Every value is below the limit, and the number determines the words.
pub proof fn lemma_u256_value(a: U256, b: U256)
    ensures
        a@ < u256_limit(),
        a@ == b@ <==> a == b,
{
}

impl U256 {
    /// The number zero.
    pub fn zero() -> (r: U256)
        ensures
            r@ == 0,
    {
        U256 { w0: 0, w1: 0, w2: 0, w3: 0 }
    }

    /// The greatest number that the type holds.
    pub fn max_value() -> (r: U256)
        ensures
            r@ == u256_limit() - 1,
    {
        U256 { w0: u64::MAX, w1: u64::MAX, w2: u64::MAX, w3: u64::MAX }
    }

    /// The number `v`.
    pub fn from_u64(v: u64) -> (r: U256)
        ensures
            r@ == v,
    {
        U256 { w0: v, w1: 0, w2: 0, w3: 0 }
    }

    /// The number `v`.
    pub fn from_u128(v: u128) -> (r: U256)
        ensures
            r@ == v,
    {
        let low: u64 = (v & 0xffff_ffff_ffff_ffff) as u64;
        let high: u64 = (v >> 64) as u64;
        assert(v == (v & 0xffff_ffff_ffff_ffff) + 0x1_0000_0000_0000_0000 * (v >> 64)
            && (v >> 64) <= 0xffff_ffff_ffff_ffff
            && (v & 0xffff_ffff_ffff_ffff) <= 0xffff_ffff_ffff_ffff) by (bit_vector);
        U256 { w0: low, w1: high, w2: 0, w3: 0 }
    }

    /// The number as a `u128`, where it fits in one.
    pub fn to_u128(&self) -> (r: Option<u128>)
        ensures
            r == (if self@ <= u128::MAX { Some(self@ as u128) } else { None }),
    {
        if self.w2 != 0 || self.w3 != 0 {
            None
        } else {
            let low: u128 = self.w0 as u128;
            let high: u128 = self.w1 as u128;
            Some(high * 0x1_0000_0000_0000_0000 + low)
        }
    }

    /// Whether the number is zero.
    pub fn is_zero(&self) -> (r: bool)
        ensures
            r == (self@ == 0),
    {
        self.w0 == 0 && self.w1 == 0 && self.w2 == 0 && self.w3 == 0
    }

    /// Whether `self` is less than `other`.
    pub fn lt(&self, other: &U256) -> (r: bool)
        ensures
            r == (self@ < other@),
    {
        if self.w3 != other.w3 {
            self.w3 < other.w3
        } else if self.w2 != other.w2 {
            self.w2 < other.w2
        } else if self.w1 != other.w1 {
            self.w1 < other.w1
        } else {
            self.w0 < other.w0
        }
    }

    /// Whether `self` is at most `other`.
    pub fn le(&self, other: &U256) -> (r: bool)
        ensures
            r == (self@ <= other@),
    {
        !other.lt(self)
    }
}

/// Calls `checked_add` of `sp_core::U256`, which adds the two numbers word by
/// word with carry and gives `None` exactly when a carry leaves the top word:
/// the sum where it is below two to the power 256, else nothing.
#[verifier::external_body]
pub(crate) fn checked_add(a: U256, b: U256) -> (r: Option<U256>)
    ensures
        match r {
            Some(v) => v@ == a@ + b@,
            None => a@ + b@ >= u256_limit(),
        },
{
    let x = sp_core::U256([a.w0, a.w1, a.w2, a.w3]);
    let y = sp_core::U256([b.w0, b.w1, b.w2, b.w3]);
    match x.checked_add(y) {
        Some(z) => Some(U256 { w0: z.0[0], w1: z.0[1], w2: z.0[2], w3: z.0[3] }),
        None => None,
    }
}

/// Calls `checked_sub` of `sp_core::U256`, which subtracts word by word with
/// borrow and gives `None` exactly when a borrow leaves the top word: the
/// difference where `b` is at most `a`, else nothing.
#[verifier::external_body]
pub(crate) fn checked_sub(a: U256, b: U256) -> (r: Option<U256>)
    ensures
        match r {
            Some(v) => v@ + b@ == a@,
            None => a@ < b@,
        },
{
    let x = sp_core::U256([a.w0, a.w1, a.w2, a.w3]);
    let y = sp_core::U256([b.w0, b.w1, b.w2, b.w3]);
    match x.checked_sub(y) {
        Some(z) => Some(U256 { w0: z.0[0], w1: z.0[1], w2: z.0[2], w3: z.0[3] }),
        None => None,
    }
}

/// Calls `checked_mul` of `sp_core::U256`, which forms the full 512-bit product
/// and gives `None` exactly when its upper half is not zero: the product where
/// it is below two to the power 256, else nothing.
#[verifier::external_body]
pub(crate) fn checked_mul(a: U256, b: U256) -> (r: Option<U256>)
    ensures
        match r {
            Some(v) => v@ == a@ * b@,
            None => a@ * b@ >= u256_limit(),
        },
{
    let x = sp_core::U256([a.w0, a.w1, a.w2, a.w3]);
    let y = sp_core::U256([b.w0, b.w1, b.w2, b.w3]);
    match x.checked_mul(y) {
        Some(z) => Some(U256 { w0: z.0[0], w1: z.0[1], w2: z.0[2], w3: z.0[3] }),
        None => None,
    }
}

/// Calls `checked_div` of `sp_core::U256`, which gives `None` exactly when the
/// divisor is zero and else the quotient of the division with remainder.
#[verifier::external_body]
pub(crate) fn checked_div(a: U256, b: U256) -> (r: Option<U256>)
    ensures
        match r {
            Some(v) => b@ > 0 && v@ == a@ / b@,
            None => b@ == 0,
        },
{
    let x = sp_core::U256([a.w0, a.w1, a.w2, a.w3]);
    let y = sp_core::U256([b.w0, b.w1, b.w2, b.w3]);
    match x.checked_div(y) {
        Some(z) => Some(U256 { w0: z.0[0], w1: z.0[1], w2: z.0[2], w3: z.0[3] }),
        None => None,
    }
}

} // verus!
