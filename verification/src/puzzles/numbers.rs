use vstd::prelude::*;

verus! {

/// The greatest common divisor of `a` and `b`; that of 0 and 0 is 0.
pub open spec fn spec_gcd(a: nat, b: nat) -> nat
    decreases b,
{
    if b == 0 {
        a
    } else {
        spec_gcd(b, a % b)
    }
}

/// The least common multiple of `a` and `b`; that of 0 and anything is 0.
pub open spec fn spec_lcm(a: nat, b: nat) -> nat {
    if a == 0 && b == 0 {
        0
    } else {
        a * (b / spec_gcd(a, b))
    }
}

/// The greatest common divisor divides both numbers, and is 0 only for 0
/// and 0.
pub proof fn lemma_gcd_divides(a: nat, b: nat)
    ensures
        spec_gcd(a, b) == 0 <==> (a == 0 && b == 0),
        spec_gcd(a, b) > 0 ==> a % spec_gcd(a, b) == 0 && b % spec_gcd(a, b) == 0,
    decreases b,
{
    if b != 0 {
        lemma_gcd_divides(b, a % b);
        let g = spec_gcd(a, b);
        let r = a % b;
        assert(g > 0);
        // g divides b and a % b, hence a = (a / b) * b + a % b
        assert(a == (a / b) * b + r) by {
            vstd::arithmetic::div_mod::lemma_fundamental_div_mod(a as int, b as int);
            assert((a / b) * b == b * (a / b)) by (nonlinear_arith);
        }
        assert(a % g == 0) by {
            let q = a / b;
            let kb = b / g;
            let kr = r / g;
            vstd::arithmetic::div_mod::lemma_fundamental_div_mod(b as int, g as int);
            vstd::arithmetic::div_mod::lemma_fundamental_div_mod(r as int, g as int);
            assert(b == g * kb);
            assert(r == g * kr);
            assert(a == g * (q * kb + kr)) by (nonlinear_arith)
                requires
                    a == q * b + r,
                    b == g * kb,
                    r == g * kr,
            ;
            vstd::arithmetic::div_mod::lemma_mod_multiples_basic((q * kb + kr) as int, g as int);
            assert(g * (q * kb + kr) == (q * kb + kr) * g) by (nonlinear_arith);
        }
    }
}

/// Every common divisor of two numbers divides their greatest common
/// divisor.
pub proof fn lemma_gcd_greatest(a: nat, b: nat, d: nat)
    requires
        d > 0,
        a % d == 0,
        b % d == 0,
    ensures
        spec_gcd(a, b) % d == 0,
    decreases b,
{
    if b != 0 {
        let r = a % b;
        let q = a / b;
        let ka = a / d;
        let kb = b / d;
        vstd::arithmetic::div_mod::lemma_fundamental_div_mod(a as int, b as int);
        vstd::arithmetic::div_mod::lemma_fundamental_div_mod(a as int, d as int);
        vstd::arithmetic::div_mod::lemma_fundamental_div_mod(b as int, d as int);
        assert(r == d * (ka - q * kb)) by (nonlinear_arith)
            requires
                a == b * q + r,
                a == d * ka,
                b == d * kb,
        ;
        assert(d * (ka - q * kb) == (ka - q * kb) * d) by (nonlinear_arith);
        vstd::arithmetic::div_mod::lemma_mod_multiples_basic(ka - q * kb, d as int);
        lemma_gcd_greatest(b, r, d);
    }
}

/// Calls `num::integer::gcd`. Trusted: the result is the greatest common
/// divisor of the two numbers, which is what the function is documented to
/// compute; on unsigned numbers it neither panics nor overflows.
#[verifier::external_body]
fn gcd(a: u64, b: u64) -> (g: u64)
    ensures
        g == spec_gcd(a as nat, b as nat),
{
    num::integer::gcd(a, b)
}

/// Calls `num::integer::lcm`. Trusted: the result is the least common
/// multiple of the two numbers, which the function computes as the first
/// times the quotient of the second by their greatest common divisor; the
/// product must fit in 64 bits.
#[verifier::external_body]
fn lcm(a: u64, b: u64) -> (l: u64)
    requires
        spec_lcm(a as nat, b as nat) <= u64::MAX,
    ensures
        l == spec_lcm(a as nat, b as nat),
{
    num::integer::lcm(a, b)
}

/// The greatest common divisor of `a` and `b`.
pub fn greatest_common_divisor(a: u64, b: u64) -> (g: u64)
    ensures
        g == spec_gcd(a as nat, b as nat),
        g == 0 <==> (a == 0 && b == 0),
        g > 0 ==> a % g == 0 && b % g == 0,
{
    proof {
        lemma_gcd_divides(a as nat, b as nat);
    }
    gcd(a, b)
}

/// The least common multiple of `a` and `b`, or `None` when it does not fit
/// in 64 bits.
pub fn least_common_multiple(a: u64, b: u64) -> (r: Option<u64>)
    ensures
        match r {
            Some(l) => l == spec_lcm(a as nat, b as nat),
            None => spec_lcm(a as nat, b as nat) > u64::MAX,
        },
{
    let g: u64 = greatest_common_divisor(a, b);
    if g == 0 {
        return Some(lcm(a, b));
    }
    match a.checked_mul(b / g) {
        Some(_) => Some(lcm(a, b)),
        None => None,
    }
}

} // verus!
