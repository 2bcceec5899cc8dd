use vstd::prelude::*;

verus! {

/// 2^64, the radix of one word.
pub open spec fn word_radix() -> nat {
    0x1_0000_0000_0000_0000nat
}

/// 2^256: every `U256` value is below it.
pub open spec fn u256_modulus() -> nat {
    word_radix() * word_radix() * word_radix() * word_radix()
}

/// Unsigned 256-bit integer held as four 64-bit words, least significant first.
#[derive(Clone, Copy, Debug, PartialEq, Eq, Structural)]
pub struct U256 {
    pub w0: u64,
    pub w1: u64,
    pub w2: u64,
    pub w3: u64,
}

/// The two top words, as a number.
pub open spec fn top2(x: U256) -> nat {
    x.w2 as nat + word_radix() * (x.w3 as nat)
}

/// The three top words, as a number.
pub open spec fn top3(x: U256) -> nat {
    x.w1 as nat + word_radix() * top2(x)
}

impl U256 {
    /// The number this value stands for.
    pub open spec fn value(self) -> nat {
        self.w0 as nat + word_radix() * top3(self)
    }
}

/// `hi * b + lo` with `lo < b` orders lexicographically by `(hi, lo)`.
proof fn lemma_lex(hi_a: nat, lo_a: nat, hi_b: nat, lo_b: nat, b: nat)
    requires
        lo_a < b,
        lo_b < b,
    ensures
        (lo_a + b * hi_a < lo_b + b * hi_b) <==> (hi_a < hi_b || (hi_a == hi_b && lo_a < lo_b)),
        (lo_a + b * hi_a == lo_b + b * hi_b) <==> (hi_a == hi_b && lo_a == lo_b),
{
    if hi_a < hi_b {
        assert(lo_a + b * hi_a < lo_b + b * hi_b) by (nonlinear_arith)
            requires
                lo_a < b,
                hi_a < hi_b,
        ;
    } else if hi_b < hi_a {
        assert(lo_b + b * hi_b < lo_a + b * hi_a) by (nonlinear_arith)
            requires
                lo_b < b,
                hi_b < hi_a,
        ;
    }
}

proof fn lemma_top_bounds(x: U256)
    ensures
        top2(x) < word_radix() * word_radix(),
        top3(x) < word_radix() * word_radix() * word_radix(),
        x.value() < u256_modulus(),
{
    let w = word_radix();
    assert(top2(x) < w * w) by (nonlinear_arith)
        requires
            top2(x) == x.w2 as nat + w * (x.w3 as nat),
            x.w2 < w,
            x.w3 < w,
    ;
    assert(top3(x) < w * w * w) by (nonlinear_arith)
        requires
            top3(x) == x.w1 as nat + w * top2(x),
            x.w1 < w,
            top2(x) < w * w,
    ;
    assert(x.value() < w * w * w * w) by (nonlinear_arith)
        requires
            x.value() == x.w0 as nat + w * top3(x),
            x.w0 < w,
            top3(x) < w * w * w,
    ;
}

/// Every value is below 2^256.
pub proof fn lemma_value_fits(x: U256)
    ensures
        fits_u256(x.value()),
{
    lemma_top_bounds(x);
}

/// Two values with the same number have the same words.
pub proof fn lemma_value_injective(a: U256, b: U256)
    ensures
        (a.value() == b.value()) <==> (a == b),
{
    let w = word_radix();
    lemma_lex(top3(a), a.w0 as nat, top3(b), b.w0 as nat, w);
    lemma_lex(top2(a), a.w1 as nat, top2(b), b.w1 as nat, w);
    lemma_lex(a.w3 as nat, a.w2 as nat, b.w3 as nat, b.w2 as nat, w);
}

/// Every natural number below 2^256 is the number of some value.
pub open spec fn fits_u256(n: nat) -> bool {
    n < u256_modulus()
}

impl U256 {
    pub fn zero() -> (r: U256)
        ensures
            r.value() == 0,
    {
        U256 { w0: 0, w1: 0, w2: 0, w3: 0 }
    }

    pub fn one() -> (r: U256)
        ensures
            r.value() == 1,
    {
        U256 { w0: 1, w1: 0, w2: 0, w3: 0 }
    }

    pub fn from_u64(x: u64) -> (r: U256)
        ensures
            r.value() == x as nat,
    {
        U256 { w0: x, w1: 0, w2: 0, w3: 0 }
    }

    pub fn from_u128(x: u128) -> (r: U256)
        ensures
            r.value() == x as nat,
    {
        let lo = (x % 0x1_0000_0000_0000_0000u128) as u64;
        let hi = (x / 0x1_0000_0000_0000_0000u128) as u64;
        proof {
            vstd::arithmetic::div_mod::lemma_fundamental_div_mod(
                x as int,
                0x1_0000_0000_0000_0000int,
            );
        }
        U256 { w0: lo, w1: hi, w2: 0, w3: 0 }
    }

    /// The lowest 128 bits.
    pub fn low_u128(&self) -> (r: u128)
        ensures
            r as nat == self.value() % (word_radix() * word_radix()),
    {
        let ghost w = word_radix();
        let lo = self.w0;
        let hi = self.w1;
        assert((hi as nat) * w + (lo as nat) < w * w) by (nonlinear_arith)
            requires
                lo < w,
                hi < w,
        ;
        let r: u128 = (lo as u128) + (hi as u128) * 0x1_0000_0000_0000_0000u128;
        proof {
            lemma_top_bounds(*self);
            let rest = top2(*self);
            assert(self.value() == (lo as nat + w * (hi as nat)) + (w * w) * rest) by (nonlinear_arith)
                requires
                    self.value() == lo as nat + w * (hi as nat + w * rest),
            ;
            assert(lo as nat + w * (hi as nat) < w * w) by (nonlinear_arith)
                requires
                    lo < w,
                    hi < w,
            ;
            vstd::arithmetic::div_mod::lemma_mod_multiples_vanish(
                rest as int,
                (lo as nat + w * (hi as nat)) as int,
                (w * w) as int,
            );
            vstd::arithmetic::div_mod::lemma_small_mod(
                (lo as nat + w * (hi as nat)),
                (w * w),
            );
        }
        r
    }

    pub fn is_zero(&self) -> (r: bool)
        ensures
            r == (self.value() == 0),
    {
        proof {
            lemma_value_injective(*self, U256 { w0: 0, w1: 0, w2: 0, w3: 0 });
        }
        self.w0 == 0 && self.w1 == 0 && self.w2 == 0 && self.w3 == 0
    }

    /// Numeric equality.
    pub fn eq_value(&self, other: &U256) -> (r: bool)
        ensures
            r == (self.value() == other.value()),
    {
        proof {
            lemma_value_injective(*self, *other);
        }
        self.w0 == other.w0 && self.w1 == other.w1 && self.w2 == other.w2 && self.w3 == other.w3
    }

    /// Numeric `<`.
    pub fn lt(&self, other: &U256) -> (r: bool)
        ensures
            r == (self.value() < other.value()),
    {
        let a = *self;
        let b = *other;
        let ghost w = word_radix();
        proof {
            lemma_top_bounds(a);
            lemma_top_bounds(b);
            lemma_lex(top3(a), a.w0 as nat, top3(b), b.w0 as nat, w);
            lemma_lex(top2(a), a.w1 as nat, top2(b), b.w1 as nat, w);
            lemma_lex(a.w3 as nat, a.w2 as nat, b.w3 as nat, b.w2 as nat, w);
        }
        if a.w3 != b.w3 {
            a.w3 < b.w3
        } else if a.w2 != b.w2 {
            a.w2 < b.w2
        } else if a.w1 != b.w1 {
            a.w1 < b.w1
        } else {
            a.w0 < b.w0
        }
    }

    /// Numeric `<=`.
    pub fn le(&self, other: &U256) -> (r: bool)
        ensures
            r == (self.value() <= other.value()),
    {
        !other.lt(self)
    }

    /// The smaller of the two.
    pub fn min(self, other: U256) -> (r: U256)
        ensures
            r.value() == if self.value() <= other.value() { self.value() } else { other.value() },
    {
        if self.le(&other) {
            self
        } else {
            other
        }
    }

    /// `self + other`, or `None` where the sum does not fit.
    pub fn checked_add(self, other: U256) -> (r: Option<U256>)
        ensures
            fits_u256(self.value() + other.value()) <==> r.is_some(),
            r matches Some(c) ==> c.value() == self.value() + other.value(),
    {
        raw_checked_add(self, other)
    }

    /// `self - other`, or `None` where `other` is the larger.
    pub fn checked_sub(self, other: U256) -> (r: Option<U256>)
        ensures
            (other.value() <= self.value()) <==> r.is_some(),
            r matches Some(c) ==> c.value() == self.value() - other.value(),
    {
        raw_checked_sub(self, other)
    }

    /// `self * other`, or `None` where the product does not fit.
    pub fn checked_mul(self, other: U256) -> (r: Option<U256>)
        ensures
            fits_u256(self.value() * other.value()) <==> r.is_some(),
            r matches Some(c) ==> c.value() == self.value() * other.value(),
    {
        raw_checked_mul(self, other)
    }

    /// `(self / other, self % other)`.
    pub fn div_mod(self, other: U256) -> (r: (U256, U256))
        requires
            other.value() > 0,
        ensures
            r.0.value() == self.value() / other.value(),
            r.1.value() == self.value() % other.value(),
    {
        raw_div_mod(self, other)
    }
}

impl From<u64> for U256 {
    fn from(x: u64) -> (r: U256)
        ensures
            r.value() == x as nat,
    {
        U256::from_u64(x)
    }
}

impl vstd::std_specs::convert::FromSpecImpl<u64> for U256 {
    open spec fn obeys_from_spec() -> bool {
        true
    }

    open spec fn from_spec(x: u64) -> U256 {
        U256 { w0: x, w1: 0, w2: 0, w3: 0 }
    }
}

/// Relies on `uint`'s `checked_add` (the `U256` of sails-rs): the sum where it is below 2^256.
#[verifier::external_body]
fn raw_checked_add(a: U256, b: U256) -> (r: Option<U256>)
    ensures
        fits_u256(a.value() + b.value()) <==> r.is_some(),
        r matches Some(c) ==> c.value() == a.value() + b.value(),
{
    let x = sails_rs::U256([a.w0, a.w1, a.w2, a.w3]);
    let y = sails_rs::U256([b.w0, b.w1, b.w2, b.w3]);
    match x.checked_add(y) {
        Some(c) => Some(U256 { w0: c.0[0], w1: c.0[1], w2: c.0[2], w3: c.0[3] }),
        None => None,
    }
}

/// Relies on `uint`'s `checked_sub` (the `U256` of sails-rs): the difference where it is not negative.
#[verifier::external_body]
fn raw_checked_sub(a: U256, b: U256) -> (r: Option<U256>)
    ensures
        (b.value() <= a.value()) <==> r.is_some(),
        r matches Some(c) ==> c.value() == a.value() - b.value(),
{
    let x = sails_rs::U256([a.w0, a.w1, a.w2, a.w3]);
    let y = sails_rs::U256([b.w0, b.w1, b.w2, b.w3]);
    match x.checked_sub(y) {
        Some(c) => Some(U256 { w0: c.0[0], w1: c.0[1], w2: c.0[2], w3: c.0[3] }),
        None => None,
    }
}

/// Relies on `uint`'s `checked_mul` (the `U256` of sails-rs): the product where it is below 2^256.
#[verifier::external_body]
fn raw_checked_mul(a: U256, b: U256) -> (r: Option<U256>)
    ensures
        fits_u256(a.value() * b.value()) <==> r.is_some(),
        r matches Some(c) ==> c.value() == a.value() * b.value(),
{
    let x = sails_rs::U256([a.w0, a.w1, a.w2, a.w3]);
    let y = sails_rs::U256([b.w0, b.w1, b.w2, b.w3]);
    match x.checked_mul(y) {
        Some(c) => Some(U256 { w0: c.0[0], w1: c.0[1], w2: c.0[2], w3: c.0[3] }),
        None => None,
    }
}

/// Relies on `uint`'s `div_mod` (the `U256` of sails-rs): quotient and remainder; it panics on a
/// zero divisor, which `requires` leaves out.
#[verifier::external_body]
fn raw_div_mod(a: U256, b: U256) -> (r: (U256, U256))
    requires
        b.value() > 0,
    ensures
        r.0.value() == a.value() / b.value(),
        r.1.value() == a.value() % b.value(),
{
    let x = sails_rs::U256([a.w0, a.w1, a.w2, a.w3]);
    let y = sails_rs::U256([b.w0, b.w1, b.w2, b.w3]);
    let (q, m) = x.div_mod(y);
    (
        U256 { w0: q.0[0], w1: q.0[1], w2: q.0[2], w3: q.0[3] },
        U256 { w0: m.0[0], w1: m.0[1], w2: m.0[2], w3: m.0[3] },
    )
}

} // verus!
