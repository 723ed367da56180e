//! Fixed-point prices.
//!
//! A price is a whole part and a fractional part counted in units of
//! `1 / PRICE_SCALAR`. Prices are ordered by whole part, then by fractional
//! part. Every price has a 128-bit key that preserves this order exactly, so
//! that a side of the book can be indexed by plain integers.

use std::cmp::Ordering;
use vstd::prelude::*;

verus! {

/// Number of fractional units that make up one whole unit of price.
pub const PRICE_SCALAR: u64 = 100_000;

/// Weight of the whole part inside a price key.
pub const KEY_RADIX: u128 = 0x1_0000_0000_0000_0000;

/// A non-negative fixed-point price.
#[derive(Debug, Clone, Copy, PartialEq, Eq, Structural, Hash, Ord)]
pub struct Price {
    integral: u64,
    fractional: u64,
}

impl Price {
    /// The whole part, as a specification value.
    pub closed spec fn integral_spec(&self) -> u64 {
        self.integral
    }

    /// The fractional part, as a specification value.
    pub closed spec fn fractional_spec(&self) -> u64 {
        self.fractional
    }

    /// The order-preserving key of this price: the whole part weighted by
    /// `KEY_RADIX`, plus the fractional part.
    pub open spec fn key_spec(&self) -> u128 {
        (self.integral() * KEY_RADIX + self.fractional()) as u128
    }

    /// The price whose key is `key`.
    pub closed spec fn from_key_spec(key: u128) -> Price {
        Price { integral: (key / KEY_RADIX) as u64, fractional: (key % KEY_RADIX) as u64 }
    }

    /// A price is normalised when its fractional part is below one whole unit.
    pub open spec fn well_formed(&self) -> bool {
        self.fractional() < PRICE_SCALAR
    }

    /// Lexicographic "strictly below": whole part first, then fractional part.
    pub open spec fn below(&self, other: &Price) -> bool {
        self.integral() < other.integral() || (self.integral() == other.integral()
            && self.fractional() < other.fractional())
    }

    /// Builds the price `integral + fractional / PRICE_SCALAR`. A fractional
    /// part of one whole unit or more is carried into the whole part.
    pub fn new(integral: u64, fractional: u64) -> (p: Price)
        requires
            integral + fractional / PRICE_SCALAR <= u64::MAX,
        ensures
            p.integral() == integral + fractional / PRICE_SCALAR,
            p.fractional() == fractional % PRICE_SCALAR,
            p.well_formed(),
    {
        Price {
            integral: integral + fractional / PRICE_SCALAR,
            fractional: fractional % PRICE_SCALAR,
        }
    }

    #[verifier::when_used_as_spec(integral_spec)]
    pub fn integral(&self) -> (r: u64)
        ensures
            r == self.integral_spec(),
    {
        self.integral
    }

    #[verifier::when_used_as_spec(fractional_spec)]
    pub fn fractional(&self) -> (r: u64)
        ensures
            r == self.fractional_spec(),
    {
        self.fractional
    }

    pub fn scalar(&self) -> (r: u64)
        ensures
            r == PRICE_SCALAR,
    {
        PRICE_SCALAR
    }

    #[verifier::when_used_as_spec(key_spec)]
    pub fn key(&self) -> (k: u128)
        ensures
            k == self.key_spec(),
    {
        let whole: u128 = self.integral as u128;
        let part: u128 = self.fractional as u128;
        whole * KEY_RADIX + part
    }

    pub fn from_key(key: u128) -> (p: Price)
        ensures
            p == Price::from_key_spec(key),
            p.key() == key,
    {
        let whole: u128 = key / KEY_RADIX;
        let part: u128 = key % KEY_RADIX;
        Price { integral: whole as u64, fractional: part as u64 }
    }

    /// Keys and prices correspond one to one.
    pub proof fn lemma_key_bijection(p: Price, key: u128)
        ensures
            Price::from_key_spec(p.key()) == p,
            Price::from_key_spec(key).key() == key,
    {
    }

    /// The key order is the lexicographic order of prices.
    pub proof fn lemma_key_order(p: Price, q: Price)
        ensures
            p.key() < q.key() <==> p.below(&q),
            p.key() == q.key() <==> p == q,
    {
    }
}

impl PartialOrd for Price {
    fn partial_cmp(&self, other: &Self) -> (r: Option<Ordering>) {
        if self.integral < other.integral {
            Some(Ordering::Less)
        } else if self.integral > other.integral {
            Some(Ordering::Greater)
        } else if self.fractional < other.fractional {
            Some(Ordering::Less)
        } else if self.fractional > other.fractional {
            Some(Ordering::Greater)
        } else {
            Some(Ordering::Equal)
        }
    }
}

impl vstd::std_specs::cmp::PartialOrdSpecImpl for Price {
    open spec fn obeys_partial_cmp_spec() -> bool {
        true
    }

    open spec fn partial_cmp_spec(&self, other: &Self) -> Option<Ordering> {
        if self.below(other) {
            Some(Ordering::Less)
        } else if other.below(self) {
            Some(Ordering::Greater)
        } else {
            Some(Ordering::Equal)
        }
    }
}

} // verus!
