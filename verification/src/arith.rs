//! Modular arithmetic on `u64` residues: the group and field primitive
//! layer that every search stage builds on.

use vstd::prelude::*;

verus! {

use vstd::arithmetic::power::pow;
use vstd::arithmetic::power::lemma_pow_adds;
use vstd::arithmetic::power::lemma_pow_multiplies;
use vstd::arithmetic::power::lemma_pow_mod_noop;
use vstd::arithmetic::power::lemma_square_is_pow2;
use vstd::arithmetic::power::lemma_pow1;
use vstd::arithmetic::div_mod::lemma_mul_mod_noop_general;
use vstd::arithmetic::div_mod::lemma_small_mod;
use vstd::arithmetic::div_mod::lemma_mod_twice;

/// `b^e mod m`: the mathematical meaning of every exponentiation in this
/// crate, both of field scalars and of group elements.
pub open spec fn pow_mod(b: int, e: nat, m: int) -> int {
    pow(b, e) % m
}

/// The group element `g^u mod p` as a table key.
pub open spec fn power_key(g: int, p: int, u: u128) -> u64 {
    pow_mod(g, u as nat, p) as u64
}

/// No two exponents below `bound` give the same element: the group has
/// no collisions in the searched window.  This holds whenever the order
/// of `g` is at least `bound`.
pub open spec fn distinct_powers(g: int, p: int, bound: u128) -> bool {
    forall|i: u128, j: u128|
        i < j && j < bound ==> #[trigger] pow_mod(g, i as nat, p) != #[trigger] pow_mod(
            g,
            j as nat,
            p,
        )
}

/// Two powers of `g` below a collision-free bound are equal only when
/// their exponents are.
pub proof fn lemma_distinct_inject(g: int, p: int, bound: u128, i: u128, j: u128)
    requires
        distinct_powers(g, p, bound),
        i < bound,
        j < bound,
        pow_mod(g, i as nat, p) == pow_mod(g, j as nat, p),
    ensures
        i == j,
{
    if i < j {
        assert(pow_mod(g, i as nat, p) != pow_mod(g, j as nat, p));
    } else if j < i {
        assert(pow_mod(g, j as nat, p) != pow_mod(g, i as nat, p));
    }
}

/// `(a * b) mod m`, computed without overflow through a `u128` product.
pub fn mul_mod(a: u64, b: u64, m: u64) -> (r: u64)
    requires
        0 < m,
    ensures
        r == (a as int * b as int) % (m as int),
        r < m,
{
    proof {
        vstd::arithmetic::div_mod::lemma_mod_bound(a as int * b as int, m as int);
        assert(a as int * b as int <= u64::MAX as int * u64::MAX as int) by (nonlinear_arith)
            requires
                a <= u64::MAX,
                b <= u64::MAX,
        ;
    }
    (((a as u128) * (b as u128)) % (m as u128)) as u64
}

/// Powers multiply by adding exponents, also under the modulus.
pub proof fn lemma_pow_mod_adds(g: int, a: nat, b: nat, m: int)
    requires
        0 < m,
    ensures
        (pow_mod(g, a, m) * pow_mod(g, b, m)) % m == pow_mod(g, a + b, m),
{
    lemma_pow_adds(g, a, b);
    lemma_mul_mod_noop_general(pow(g, a), pow(g, b), m);
}

/// A power of a reduced power is the power of the product of the
/// exponents.
pub proof fn lemma_pow_mod_compose(g: int, a: nat, b: nat, m: int)
    requires
        0 < m,
    ensures
        pow_mod(pow_mod(g, a, m), b, m) == pow_mod(g, a * b, m),
{
    lemma_pow_mod_noop(pow(g, a), b, m);
    lemma_pow_multiplies(g, a, b);
}

/// When `g^q mod m == 1`, exponents of `g` are periodic with period `q`.
pub proof fn lemma_pow_mod_periodic(g: int, a: nat, k: nat, q: nat, m: int)
    requires
        1 < m,
        pow_mod(g, q, m) == 1,
    ensures
        pow_mod(g, a + k * q, m) == pow_mod(g, a, m),
    decreases k,
{
    if k == 0 {
        assert(a + 0 * q == a);
    } else {
        lemma_pow_mod_periodic(g, a, (k - 1) as nat, q, m);
        lemma_pow_mod_adds(g, (a + (k - 1) * q) as nat, q, m);
        lemma_mod_twice(pow(g, a), m);
        assert((a + (k - 1) * q) as nat + q == a + k * q) by (nonlinear_arith)
            requires
                k >= 1,
        ;
    }
}

/// Reassociating one reduction inside a product of three factors does
/// not change the result modulo `m`.
pub proof fn lemma_mul_mod_assoc(a: int, b: int, c: int, m: int)
    requires
        0 < m,
    ensures
        (((a * b) % m) * c) % m == (a * ((b * c) % m)) % m,
{
    lemma_mul_mod_noop_general(a * b, c, m);
    assert((a * b) * c == a * (b * c)) by (nonlinear_arith);
    lemma_mul_mod_noop_general(a, b * c, m);
}

/// Square-and-multiply exponentiation: `b^e mod m` for a full 128-bit
/// exponent, the modulus-aware fast-power routine of the engine.
pub fn pow_mod_u64(b: u64, e: u128, m: u64) -> (r: u64)
    requires
        1 < m,
    ensures
        r == pow_mod(b as int, e as nat, m as int),
        r < m,
{
    let mut result: u64 = 1;
    let mut base: u64 = b % m;
    let mut exp: u128 = e;
    proof {
        lemma_pow_mod_noop(b as int, e as nat, m as int);
        lemma_small_mod(1nat, m as nat);
    }
    while exp > 0
        invariant
            1 < m,
            result < m,
            base < m,
            (result as int * pow(base as int, exp as nat)) % (m as int) == pow_mod(
                b as int,
                e as nat,
                m as int,
            ),
        decreases exp,
    {
        let ghost r0 = result as int;
        let ghost b0 = base as int;
        let ghost e0 = exp as nat;
        let ghost m0 = m as int;
        if exp % 2 == 1 {
            result = mul_mod(result, base, m);
            proof {
                // r0 * pow(b0, e0) == (r0 * b0) * pow(b0, e0 - 1)
                lemma_pow1(b0);
                lemma_pow_adds(b0, 1nat, (e0 - 1) as nat);
                assert(r0 * (b0 * pow(b0, (e0 - 1) as nat)) == (r0 * b0) * pow(
                    b0,
                    (e0 - 1) as nat,
                )) by (nonlinear_arith);
                lemma_mul_mod_noop_general(r0 * b0, pow(b0, (e0 - 1) as nat), m0);
            }
        } else {
            proof {
                lemma_pow1(b0);
            }
        }
        let ghost r1 = result as int;
        let ghost e1 = if e0 % 2 == 1 { (e0 - 1) as nat } else { e0 };
        proof {
            assert(r1 % m0 == r1) by {
                lemma_small_mod(r1 as nat, m as nat);
            }
            assert((r1 * pow(b0, e1)) % m0 == pow_mod(b as int, e as nat, m as int)) by {
                lemma_mul_mod_noop_general(r0, pow(b0, e0), m0);
                lemma_mul_mod_noop_general(r0 * b0, pow(b0, (e0 - 1) as nat), m0);
                lemma_mul_mod_noop_general(r1, pow(b0, e1), m0);
            }
        }
        base = mul_mod(base, base, m);
        exp = exp / 2;
        proof {
            // pow(b0, e1) == pow(b0 * b0, e1 / 2), since e1 is even
            lemma_square_is_pow2(b0);
            lemma_pow_multiplies(b0, 2nat, (e1 / 2) as nat);
            assert(e1 == 2 * (e1 / 2));
            assert(pow(b0, e1) == pow(b0 * b0, exp as nat));
            lemma_pow_mod_noop(b0 * b0, exp as nat, m0);
            lemma_mul_mod_noop_general(r1, pow(b0 * b0, exp as nat), m0);
            lemma_mul_mod_noop_general(r1, pow(base as int, exp as nat), m0);
        }
    }
    proof {
        vstd::arithmetic::power::lemma_pow0(base as int);
        lemma_small_mod(result as nat, m as nat);
    }
    result
}

} // verus!
