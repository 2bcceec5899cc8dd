use vstd::prelude::*;

use crate::types::MatchError;
use crate::u256::{fits_u256, u256_modulus, word_radix, U256};

verus! {

/// Fixed-point precision of prices: 10^30.
pub const PRICE_PRECISION: u128 = 1_000_000_000_000_000_000_000_000_000_000;

pub open spec fn precision() -> nat {
    1_000_000_000_000_000_000_000_000_000_000nat
}

/// `floor(base * price / P)`.
pub open spec fn quote_floor(base: nat, price: nat) -> nat {
    (base * price) / precision()
}

/// `ceil(base * price / P)`.
pub open spec fn quote_ceil(base: nat, price: nat) -> nat {
    if (base * price) % precision() == 0 {
        (base * price) / precision()
    } else {
        (base * price) / precision() + 1
    }
}

/// Whether `base * price` fits in 256 bits, the condition for both conversions to succeed.
pub open spec fn product_fits(base: nat, price: nat) -> bool {
    fits_u256(base * price)
}

/// The ceiling exceeds the floor by one exactly when the division leaves a remainder.
pub proof fn lemma_ceil_floor(base: nat, price: nat)
    ensures
        quote_floor(base, price) <= quote_ceil(base, price) <= quote_floor(base, price) + 1,
        quote_ceil(base, price) * precision() >= base * price,
        quote_floor(base, price) * precision() <= base * price,
{
    let p = precision();
    let n = base * price;
    vstd::arithmetic::div_mod::lemma_fundamental_div_mod(n as int, p as int);
    vstd::arithmetic::div_mod::lemma_mod_bound(n as int, p as int);
}

/// The floor is monotone in the amount.
pub proof fn lemma_floor_monotone(a: nat, b: nat, price: nat)
    requires
        a <= b,
    ensures
        quote_floor(a, price) <= quote_floor(b, price),
{
    assert(a * price <= b * price) by (nonlinear_arith)
        requires
            a <= b,
    ;
    vstd::arithmetic::div_mod::lemma_div_is_ordered(
        (a * price) as int,
        (b * price) as int,
        precision() as int,
    );
}

/// The floor of a sum of amounts is at least the sum of the floors.
pub proof fn lemma_floor_superadditive(a: nat, b: nat, price: nat)
    ensures
        quote_floor(a, price) + quote_floor(b, price) <= quote_floor(a + b, price),
{
    let p = precision() as int;
    let x = (a * price) as int;
    let y = (b * price) as int;
    assert((a + b) * price == a * price + b * price) by (nonlinear_arith);
    vstd::arithmetic::div_mod::lemma_fundamental_div_mod(x, p);
    vstd::arithmetic::div_mod::lemma_fundamental_div_mod(y, p);
    vstd::arithmetic::div_mod::lemma_mod_bound(x, p);
    vstd::arithmetic::div_mod::lemma_mod_bound(y, p);
    let qx = x / p;
    let qy = y / p;
    assert(x + y == p * (qx + qy) + (x % p + y % p)) by (nonlinear_arith)
        requires
            x == p * qx + x % p,
            y == p * qy + y % p,
    ;
    vstd::arithmetic::div_mod::lemma_div_is_ordered(p * (qx + qy), x + y, p);
    vstd::arithmetic::div_mod::lemma_div_multiples_vanish(qx + qy, p);
}

fn precision_u256() -> (r: U256)
    ensures
        r.value() == precision(),
{
    U256::from_u128(PRICE_PRECISION)
}

/// `floor(base * price / P)`; `MulOverflow` where the product does not fit in 256 bits.
pub fn calc_quote_floor(base: U256, price: U256) -> (r: Result<U256, MatchError>)
    ensures
        r is Ok <==> product_fits(base.value(), price.value()),
        r matches Ok(q) ==> q.value() == quote_floor(base.value(), price.value()),
        r matches Err(e) ==> e == MatchError::MulOverflow,
{
    let mul = match base.checked_mul(price) {
        Some(m) => m,
        None => return Err(MatchError::MulOverflow),
    };
    let (q, _) = mul.div_mod(precision_u256());
    Ok(q)
}

/// `ceil(base * price / P)`; `MulOverflow` where the product does not fit in 256 bits.
pub fn calc_quote_ceil(base: U256, price: U256) -> (r: Result<U256, MatchError>)
    ensures
        r is Ok <==> product_fits(base.value(), price.value()),
        r matches Ok(q) ==> q.value() == quote_ceil(base.value(), price.value()),
        r matches Err(e) ==> e == MatchError::MulOverflow,
{
    let mul = match base.checked_mul(price) {
        Some(m) => m,
        None => return Err(MatchError::MulOverflow),
    };
    let (q, rem) = mul.div_mod(precision_u256());
    if rem.is_zero() {
        Ok(q)
    } else {
        proof {
            let n = mul.value();
            let m = u256_modulus();
            let p = precision();
            vstd::arithmetic::div_mod::lemma_fundamental_div_mod(n as int, p as int);
            vstd::arithmetic::div_mod::lemma_mod_bound(n as int, p as int);
            assert(m > 2) by {
                assert(word_radix() * word_radix() * word_radix() * word_radix() > 2) by (nonlinear_arith)
                    requires
                        word_radix() > 2,
                ;
            }
            assert(q.value() + 1 < m) by (nonlinear_arith)
                requires
                    n < m,
                    m > 2,
                    p >= 2,
                    n == p * q.value() + n % p,
                    n % p >= 0,
            ;
        }
        match q.checked_add(U256::one()) {
            Some(c) => Ok(c),
            None => Err(MatchError::AddOverflow),
        }
    }
}

/// `ceil(a * b / denom)` on 128-bit integers.
pub fn mul_div_ceil(a: u128, b: u128, denom: u128) -> (r: u128)
    requires
        denom > 0,
        a * b + (denom - 1) <= u128::MAX,
    ensures
        r as int == (a * b + denom - 1) / (denom as int),
        r as int * denom >= a * b,
        (r as int - 1) * denom < a * b,
{
    let prod = a * b;
    let rounded = prod + (denom - 1);
    let r = rounded / denom;
    proof {
        let d = denom as int;
        let n = (a * b) as int;
        vstd::arithmetic::div_mod::lemma_fundamental_div_mod(n + d - 1, d);
        vstd::arithmetic::div_mod::lemma_mod_bound(n + d - 1, d);
        assert(r as int * d >= n) by (nonlinear_arith)
            requires
                n + d - 1 == d * (r as int) + (n + d - 1) % d,
                (n + d - 1) % d < d,
        ;
        assert((r as int - 1) * d < n) by (nonlinear_arith)
            requires
                n + d - 1 == d * (r as int) + (n + d - 1) % d,
                (n + d - 1) % d >= 0,
                d > 0,
        ;
    }
    r
}

} // verus!
