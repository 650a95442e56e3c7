//! The two-stage discrete-logarithm solver: recover `k0` from its
//! partially known exponent, use it to cancel the known factor and
//! recover `k1`, then reconstruct the secret scalar in the field.

use vstd::prelude::*;

verus! {

use crate::arith::pow_mod;
use crate::arith::power_key;
use crate::arith::distinct_powers;
use crate::arith::lemma_distinct_inject;
use crate::arith::mul_mod;
use crate::arith::pow_mod_u64;
use crate::arith::lemma_pow_mod_adds;
use crate::arith::lemma_pow_mod_compose;
use crate::arith::lemma_pow_mod_periodic;
use crate::arith::lemma_mul_mod_assoc;
use vstd::arithmetic::power::lemma_pow1;
use vstd::arithmetic::power::lemma_pow0;
use vstd::arithmetic::div_mod::lemma_small_mod;
use vstd::arithmetic::div_mod::lemma_fundamental_div_mod;
use vstd::arithmetic::div_mod::lemma_mod_bound;
use vstd::arithmetic::div_mod::lemma_mod_self_0;
use crate::decomposer::SolveError;
use crate::decomposer::decompose;
use crate::decomposer::lemma_known_high_bound;
use crate::decomposer::lemma_pow2_127;
use crate::searcher::probe_at;
use crate::searcher::hit_at;
use crate::searcher::giant_search;
use crate::table::SearchRange;
use crate::table::build_table;
use vstd::arithmetic::power::pow;
use vstd::arithmetic::power2::pow2;
use vstd::arithmetic::power2::lemma_pow2_strictly_increases;

/// The inverse of `x` in the subgroup of order `q`: since `x^q == 1`,
/// the inverse is `x^(q-1)`.  Inverting the zero residue, which lies in
/// no multiplicative subgroup, is a fatal `ComputationFailure`.
pub fn invert_in_group(x: u64, q: u128, p: u64) -> (r: Result<u64, SolveError>)
    requires
        1 < p,
        x < p,
        1 <= q,
    ensures
        r matches Err(e) ==> e == SolveError::ComputationFailure,
        r is Err <==> x == 0,
        r matches Ok(y) ==> y as int == pow_mod(x as int, (q - 1) as nat, p as int),
        r matches Ok(y) ==> (pow_mod(x as int, q as nat, p as int) == 1 ==> (x as int * y as int) % (
        p as int) == 1),
{
    if x == 0 {
        return Err(SolveError::ComputationFailure);
    }
    let y = pow_mod_u64(x, q - 1, p);
    proof {
        if pow_mod(x as int, q as nat, p as int) == 1 {
            lemma_pow1(x as int);
            lemma_small_mod(x as nat, p as nat);
            lemma_pow_mod_adds(x as int, 1nat, (q - 1) as nat, p as int);
        }
    }
    Ok(y)
}

/// The secret scalar rebuilt from the two recovered exponents: the
/// `k0` contribution and the order-reduced `k1` contribution are
/// combined multiplicatively in the field.
pub open spec fn reconstruct_spec(base: int, k0: nat, k1: nat, order: nat, r_mod: int) -> int {
    (pow_mod(base, k0, r_mod) * pow_mod(pow_mod(base, k1, r_mod), order, r_mod)) % r_mod
}

/// Applies the final algebraic reconstruction: `base^k0` times
/// `(base^k1)^order`, all in the scalar field modulo `r_mod`.
pub fn attack(base: u64, k0: u128, k1: u128, order: u128, r_mod: u64) -> (tau: u64)
    requires
        1 < r_mod,
    ensures
        tau as int == reconstruct_spec(base as int, k0 as nat, k1 as nat, order as nat, r_mod as int),
        tau < r_mod,
{
    let tau_1 = pow_mod_u64(base, k0, r_mod);
    let tau_2 = pow_mod_u64(pow_mod_u64(base, k1, r_mod), order, r_mod);
    mul_mod(tau_1, tau_2, r_mod)
}

/// Checks a recovered `k0` candidate against the observed element:
/// true exactly when `g^k0 mod p` equals `h0`.
pub fn verify_k0(p: u64, g: u64, h0: u64, k0: u128) -> (ok: bool)
    requires
        1 < p,
    ensures
        ok <==> h0 as int == pow_mod(g as int, k0 as nat, p as int),
{
    let lhs = pow_mod_u64(g, k0, p);
    lhs == h0
}

/// The exponent that cancels `g^(e mod q)`: adding it to any exponent
/// is the same as subtracting `e`, modulo the period `q`.
pub open spec fn neg_exponent(e: u128, q: u128) -> u128 {
    (((q as int) - (e as int) % (q as int)) % (q as int)) as u128
}

/// `e + neg_exponent(e, q)` is a whole number of periods.
proof fn lemma_neg_exponent_period(e: u128, q: u128)
    requires
        1 <= q,
    ensures
        exists|j: nat| e + neg_exponent(e, q) == #[trigger] (j * q),
{
    lemma_fundamental_div_mod(e as int, q as int);
    lemma_mod_bound(e as int, q as int);
    let a = e % q;
    if a == 0 {
        lemma_mod_self_0(q as int);
        assert(e + neg_exponent(e, q) == (e / q) as nat * q) by (nonlinear_arith)
            requires
                e == q * (e / q) + a,
                a == 0,
                neg_exponent(e, q) == 0,
        ;
    } else {
        lemma_small_mod((q - a) as nat, q as nat);
        assert(e + neg_exponent(e, q) == ((e / q) as nat + 1) * q) by (nonlinear_arith)
            requires
                e == q * (e / q) + a,
                0 < a < q,
                neg_exponent(e, q) == q - a,
        ;
    }
}

/// Multiplying by `g^(whole periods)` modulo `p` changes nothing.
proof fn lemma_mul_period_cancel(g: int, h: int, jq: nat, q: nat, p: int)
    requires
        1 < p,
        0 <= h < p,
        1 <= q,
        pow_mod(g, q, p) == 1,
        exists|j: nat| jq == #[trigger] (j * q),
    ensures
        (h * pow_mod(g, jq, p)) % p == h,
{
    let j = choose|j: nat| jq == #[trigger] (j * q);
    lemma_pow0(g);
    lemma_pow_mod_periodic(g, 0nat, j, q, p);
    lemma_small_mod(1nat, p as nat);
    assert(pow_mod(g, jq, p) == 1);
    lemma_small_mod(h as nat, p as nat);
}

/// What one giant-step probe is, written as a power of `g`: combining a
/// target that is `g^y` with `v` applications of the inverse step
/// element `g^((q-1)*s)` gives `g^(y + (q-1)*s*v)`.
proof fn lemma_probe_power(g: u64, p: u64, q: u128, s: u128, target: u64, se: u64, y: nat, v: u128)
    requires
        1 < p,
        target < p,
        1 <= q,
        target as int == pow_mod(g as int, y, p as int),
        se as int == pow_mod(g as int, ((q - 1) * s) as nat, p as int),
    ensures
        probe_at(target, se, p as int, v) as int == pow_mod(
            g as int,
            (y + (q - 1) * s * v) as nat,
            p as int,
        ),
{
    let gi = g as int;
    let pi = p as int;
    lemma_pow_mod_compose(gi, ((q - 1) * s) as nat, v as nat, pi);
    assert(((q - 1) * s) as nat * v as nat == ((q - 1) * s * v) as nat) by (nonlinear_arith)
        requires
            1 <= q,
            0 <= s,
            0 <= v,
    ;
    lemma_pow_mod_adds(gi, y, ((q - 1) * s * v) as nat, pi);
    lemma_mod_bound(pow_mod(gi, y, pi) * pow_mod(gi, ((q - 1) * s * v) as nat, pi), pi);
}

/// Soundness of a probe hit: when the probed element equals `g^u`, the
/// target itself is `g^(u + s*v)`.
proof fn lemma_probe_sound(g: u64, p: u64, q: u128, s: u128, target: u64, se: u64, u: u128, v: u128)
    requires
        1 < p,
        target < p,
        1 <= q,
        pow_mod(g as int, q as nat, p as int) == 1,
        se as int == pow_mod(g as int, ((q - 1) * s) as nat, p as int),
        probe_at(target, se, p as int, v) as int == pow_mod(g as int, u as nat, p as int),
    ensures
        target as int == pow_mod(g as int, (u + s * v) as nat, p as int),
{
    let gi = g as int;
    let pi = p as int;
    let ti = target as int;
    let a = ((q - 1) * s * v) as nat;
    let b = (s * v) as nat;
    // the probe times g^(s*v) is the target times g^(q*s*v), which is
    // the target again
    lemma_pow_mod_compose(gi, ((q - 1) * s) as nat, v as nat, pi);
    assert(((q - 1) * s) as nat * v as nat == a) by (nonlinear_arith)
        requires
            1 <= q,
            0 <= s,
            0 <= v,
            a == (q - 1) * s * v,
    ;
    lemma_mul_mod_assoc(ti, pow_mod(gi, a, pi), pow_mod(gi, b, pi), pi);
    lemma_pow_mod_adds(gi, a, b, pi);
    assert(a + b == (s * v) as nat * q as nat) by (nonlinear_arith)
        requires
            1 <= q,
            0 <= s,
            0 <= v,
            a == (q - 1) * s * v,
            b == s * v,
    ;
    lemma_mul_period_cancel(gi, ti, (a + b) as nat, q as nat, pi);
    // the table side times g^(s*v) is g^(u + s*v)
    lemma_pow_mod_adds(gi, u as nat, b, pi);
    lemma_mod_bound(ti * pow_mod(gi, a, pi), pi);
    assert((probe_at(target, se, pi, v) as int * pow_mod(gi, b, pi)) % pi == (pow_mod(
        gi,
        u as nat,
        pi,
    ) * pow_mod(gi, b, pi)) % pi);
    assert((u + s * v) as nat == u as nat + b);
}

/// Stripping a known exponent `e` off `g^(y+e)` by multiplying with
/// `g^(neg_exponent(e, q))` leaves exactly `g^y`.
proof fn lemma_strip_forward(g: u64, p: u64, q: u128, h: u64, e: u128, y: nat)
    requires
        1 < p,
        h < p,
        1 <= q,
        pow_mod(g as int, q as nat, p as int) == 1,
        h as int == pow_mod(g as int, (y + e) as nat, p as int),
    ensures
        (h as int * pow_mod(g as int, neg_exponent(e, q) as nat, p as int)) % (p as int) == pow_mod(
            g as int,
            y,
            p as int,
        ),
{
    let gi = g as int;
    let pi = p as int;
    let ng = neg_exponent(e, q) as nat;
    lemma_neg_exponent_period(e, q);
    let j = choose|j: nat| e + neg_exponent(e, q) == #[trigger] (j * q);
    lemma_pow_mod_adds(gi, (y + e) as nat, ng, pi);
    lemma_pow_mod_periodic(gi, y, j, q as nat, pi);
    assert((y + e) as nat + ng == y + j * q as nat);
}

/// The converse: when multiplying `h` by `g^(neg_exponent(e, q))`
/// gives `g^y`, the element `h` itself is `g^(y+e)`.
proof fn lemma_strip_reverse(g: u64, p: u64, q: u128, h: u64, e: u128, y: nat, target: u64)
    requires
        1 < p,
        h < p,
        1 <= q,
        pow_mod(g as int, q as nat, p as int) == 1,
        target as int == (h as int * pow_mod(g as int, neg_exponent(e, q) as nat, p as int)) % (
        p as int),
        target as int == pow_mod(g as int, y, p as int),
    ensures
        h as int == pow_mod(g as int, (y + e) as nat, p as int),
{
    let gi = g as int;
    let pi = p as int;
    let hi = h as int;
    let ng = neg_exponent(e, q) as nat;
    let w = pow_mod(gi, ng, pi);
    let x = pow_mod(gi, e as nat, pi);
    lemma_mul_mod_assoc(hi, w, x, pi);
    lemma_pow_mod_adds(gi, ng, e as nat, pi);
    lemma_neg_exponent_period(e, q);
    assert(exists|j: nat| ng + e as nat == #[trigger] (j * q as nat)) by {
        let j = choose|j: nat| e + neg_exponent(e, q) == #[trigger] (j * q);
        assert(ng + e as nat == j * q as nat);
    }
    lemma_mul_period_cancel(gi, hi, (ng + e as nat) as nat, q as nat, pi);
    lemma_pow_mod_adds(gi, y, e as nat, pi);
}

/// The exponent value encoded by the known high bits of the first
/// stage.
pub open spec fn known_high_value(high_pattern: u128, bit_len: u32, high_width: u32) -> int {
    high_pattern * vstd::arithmetic::power2::pow2((bit_len - high_width) as nat)
}

/// How many exponents one stage can search: baby bound times giant
/// bound, both `2^split`.
pub open spec fn stage_window(split: u32) -> int {
    (vstd::arithmetic::power2::pow2(split as nat) * vstd::arithmetic::power2::pow2(
        split as nat,
    )) as int
}

/// `k0` is a discrete logarithm of `h0` that the first stage's
/// parameters cover: its high bits agree with the known pattern and
/// the rest lies inside the searched window.
pub open spec fn encodes_k0(
    g: u64,
    p: u64,
    h0: u64,
    k0: u128,
    high_pattern: u128,
    bit_len: u32,
    high_width: u32,
    split: u32,
) -> bool {
    &&& known_high_value(high_pattern, bit_len, high_width) <= k0
    &&& k0 - known_high_value(high_pattern, bit_len, high_width) < stage_window(split)
    &&& h0 as int == pow_mod(g as int, k0 as nat, p as int)
}

/// Stage A: recovers `k0` from the element `h0 == g^k0 mod p`,
/// exploiting the known most-significant bits.  The known high value is
/// cancelled off the target, a baby-step table over `[0, 2^split)` is
/// filled by `n_threads` workers, and a giant-step walk recombines the
/// two recovered segments with the known bits.  `q` is the order of the
/// subgroup of `g`, so `g^q mod p == 1`.
#[verifier::rlimit(100)]
pub fn calc_k0(
    p: u64,
    q: u128,
    g: u64,
    h0: u64,
    bit_len: u32,
    high_width: u32,
    high_pattern: u128,
    split: u32,
    n_threads: u128,
) -> (r: Result<u128, SolveError>)
    requires
        1 < p,
        g < p,
        h0 < p,
        1 <= q,
        pow_mod(g as int, q as nat, p as int) == 1,
        high_width <= bit_len,
        bit_len <= 126,
        split <= 63,
        high_pattern < pow2(high_width as nat),
        1 <= n_threads <= u64::MAX,
        pow2(split as nat) <= usize::MAX,
    ensures
        high_width + 2 * split < bit_len ==> r is Err,
        r matches Err(e) ==> (e == SolveError::PreconditionViolation <==> high_width + 2 * split
            < bit_len),
        r matches Ok(k) ==> encodes_k0(g, p, h0, k, high_pattern, bit_len, high_width, split),
        (high_width + 2 * split >= bit_len && exists|k: u128|
            encodes_k0(g, p, h0, k, high_pattern, bit_len, high_width, split)) ==> r is Ok,
        r matches Err(e) ==> (e == SolveError::SearchExhausted ==> forall|k: u128|
            !encodes_k0(g, p, h0, k, high_pattern, bit_len, high_width, split)),
{
    let dec = match decompose(bit_len, high_width, high_pattern, split) {
        Ok(d) => d,
        Err(e) => {
            return Err(e);
        },
    };
    let kh: u128 = dec.known_high;
    let s: u128 = dec.step;
    proof {
        lemma_known_high_bound(high_pattern, bit_len, high_width);
        lemma_pow2_127();
        if split < 63 {
            lemma_pow2_strictly_increases(split as nat, 63nat);
        }
        vstd::arithmetic::power2::lemma_pow2_adds(split as nat, split as nat);
        if 2 * split < 126 {
            lemma_pow2_strictly_increases((2 * split) as nat, 126nat);
        }
        assert(stage_window(split) == s * s);
    }
    let negk: u128 = (q - kh % q) % q;
    let w = pow_mod_u64(g, negk, p);
    let target = mul_mod(h0, w, p);
    let range = SearchRange { bound: dec.u_bound, n_threads };
    let table = build_table(g, p, &range);
    let inv_g = match invert_in_group(g, q, p) {
        Ok(y) => y,
        Err(_) => {
            proof {
                vstd::arithmetic::power::lemma0_pow(q as nat);
                lemma_small_mod(0nat, p as nat);
                assert(pow_mod(g as int, q as nat, p as int) == 0);
                assert(false);
            }
            return Err(SolveError::ComputationFailure);
        },
    };
    let se = pow_mod_u64(inv_g, s, p);
    proof {
        lemma_pow_mod_compose(g as int, (q - 1) as nat, s as nat, p as int);
        assert((q - 1) as nat * s as nat == ((q - 1) * s) as nat) by (nonlinear_arith)
            requires
                1 <= q,
                0 <= s,
        ;
        assert forall|k: u64| #[trigger] table@.contains_key(k) implies table@[k] <= u64::MAX by {
            let u = choose|u: u128|
                u < dec.u_bound && #[trigger] power_key(g as int, p as int, u) == k && table@[k]
                    == u;
        }
    }
    let found = giant_search(&table, target, se, s, dec.v_bound, p);
    match found {
        Ok(x) => {
            proof {
                let vv = choose|v: u128|
                    {
                        &&& v < dec.v_bound
                        &&& #[trigger] hit_at(table@, target, se, p as int, v)
                        &&& forall|w2: u128| w2 < v ==> !hit_at(table@, target, se, p as int, w2)
                        &&& x == table@[probe_at(target, se, p as int, v)] + v * s
                    };
                let pk = probe_at(target, se, p as int, vv);
                assert(table@.contains_key(pk));
                let uu = choose|u: u128|
                    u < dec.u_bound && #[trigger] power_key(g as int, p as int, u) == pk
                        && table@[pk] == u;
                lemma_mod_bound(pow(g as int, uu as nat), p as int);
                assert(pk as int == pow_mod(g as int, uu as nat, p as int));
                lemma_probe_sound(g, p, q, s, target, se, uu, vv);
                lemma_strip_reverse(g, p, q, h0, kh, (uu + s * vv) as nat, target);
                assert(x == uu + vv * s);
                assert(x < s * s) by (nonlinear_arith)
                    requires
                        uu < s,
                        vv < s,
                        x == uu + vv * s,
                ;
                assert((uu + s * vv) as nat + kh == (kh + x) as nat) by (nonlinear_arith)
                    requires
                        x == uu + vv * s,
                        kh >= 0,
                ;
            }
            let k0r = kh + x;
            Ok(k0r)
        },
        Err(_) => {
            proof {
                assert forall|k: u128|
                    !encodes_k0(g, p, h0, k, high_pattern, bit_len, high_width, split) by {
                    if encodes_k0(g, p, h0, k, high_pattern, bit_len, high_width, split) {
                        let x0: u128 = (k - kh) as u128;
                        assert(h0 as int == pow_mod(g as int, (x0 as nat + kh) as nat, p as int));
                        lemma_strip_forward(g, p, q, h0, kh, x0 as nat);
                        assert(target as int == pow_mod(g as int, x0 as nat, p as int));
                        let v0: u128 = x0 / s;
                        let u0: u128 = x0 % s;
                        lemma_fundamental_div_mod(x0 as int, s as int);
                        lemma_mod_bound(x0 as int, s as int);
                        lemma_probe_power(g, p, q, s, target, se, x0 as nat, v0);
                        assert(x0 as nat + (q - 1) * s * v0 == u0 as nat + (s * v0) as nat * (
                        q as nat)) by (nonlinear_arith)
                            requires
                                x0 == s * v0 + u0,
                                1 <= q,
                                0 <= s,
                                0 <= v0,
                                0 <= u0,
                        ;
                        lemma_pow_mod_periodic(
                            g as int,
                            u0 as nat,
                            (s * v0) as nat,
                            q as nat,
                            p as int,
                        );
                        lemma_mod_bound(pow(g as int, u0 as nat), p as int);
                        assert(probe_at(target, se, p as int, v0) == power_key(
                            g as int,
                            p as int,
                            u0,
                        ));
                        assert(table@.contains_key(power_key(g as int, p as int, u0)));
                        assert(hit_at(table@, target, se, p as int, v0));
                        assert(v0 < dec.v_bound) by (nonlinear_arith)
                            requires
                                x0 < s * s,
                                x0 == s * v0 + u0,
                                0 <= u0,
                                1 <= s,
                                dec.v_bound == s,
                        ;
                        assert(false);
                    }
                }
            }
            Err(SolveError::SearchExhausted)
        },
    }
}

/// `k1` is a discrete logarithm that the second stage's parameters
/// cover: it lies below the cofactor bound `d` and, together with the
/// already recovered `k0`, explains the element `h1` through the
/// derived base `g^c`.
pub open spec fn encodes_k1(g: u64, p: u64, h1: u64, k0: u128, c: u128, k1: u128, d: u128) -> bool {
    &&& k1 < d
    &&& h1 as int == pow_mod(g as int, (k0 + c * k1) as nat, p as int)
}

/// Stage B: recovers `k1` from `h1 == g^(k0 + c*k1) mod p`, using the
/// `k0` recovered by the first stage to cancel the known factor.  The
/// table is built over the derived base `g^c` with step `s1`, which
/// must satisfy `d <= s1 * s1` to cover the cofactor range `[0, d)`.
#[verifier::rlimit(100)]
pub fn calc_k1(
    p: u64,
    q: u128,
    g: u64,
    h1: u64,
    k0: u128,
    c: u128,
    d: u128,
    s1: u128,
    n_threads: u128,
) -> (r: Result<u128, SolveError>)
    requires
        1 < p,
        g < p,
        h1 < p,
        1 <= q,
        pow_mod(g as int, q as nat, p as int) == 1,
        1 <= s1 <= u64::MAX,
        s1 <= usize::MAX,
        1 <= n_threads <= u64::MAX,
    ensures
        d > s1 * s1 ==> r is Err,
        r matches Err(e) ==> (e == SolveError::PreconditionViolation <==> d > s1 * s1),
        r matches Ok(k1r) ==> k1r < s1 * s1 && h1 as int == pow_mod(
            g as int,
            (k0 + c * k1r) as nat,
            p as int,
        ),
        (d <= s1 * s1 && exists|k1: u128| encodes_k1(g, p, h1, k0, c, k1, d)) ==> r is Ok,
        r matches Err(e) ==> (e == SolveError::SearchExhausted ==> forall|k1: u128|
            !encodes_k1(g, p, h1, k0, c, k1, d)),
{
    proof {
        assert(s1 * s1 <= u64::MAX as int * u64::MAX as int) by (nonlinear_arith)
            requires
                s1 <= u64::MAX,
        ;
    }
    let window: u128 = s1 * s1;
    if d > window {
        return Err(SolveError::PreconditionViolation);
    }
    let gc = pow_mod_u64(g, c, p);
    proof {
        lemma_pow_mod_compose(g as int, c as nat, q as nat, p as int);
        assert(c as nat * q as nat == 0nat + c as nat * q as nat);
        vstd::arithmetic::power::lemma_pow0(g as int);
        lemma_pow_mod_periodic(g as int, 0nat, c as nat, q as nat, p as int);
        lemma_small_mod(1nat, p as nat);
        assert(pow_mod(gc as int, q as nat, p as int) == 1);
    }
    let negk: u128 = (q - k0 % q) % q;
    let w = pow_mod_u64(g, negk, p);
    let target = mul_mod(h1, w, p);
    let range = SearchRange { bound: s1, n_threads };
    let table = build_table(gc, p, &range);
    let inv_gc = match invert_in_group(gc, q, p) {
        Ok(y) => y,
        Err(_) => {
            proof {
                vstd::arithmetic::power::lemma0_pow(q as nat);
                lemma_small_mod(0nat, p as nat);
                assert(pow_mod(gc as int, q as nat, p as int) == 0);
                assert(false);
            }
            return Err(SolveError::ComputationFailure);
        },
    };
    let se = pow_mod_u64(inv_gc, s1, p);
    proof {
        lemma_pow_mod_compose(gc as int, (q - 1) as nat, s1 as nat, p as int);
        assert((q - 1) as nat * s1 as nat == ((q - 1) * s1) as nat) by (nonlinear_arith)
            requires
                1 <= q,
                0 <= s1,
        ;
        assert forall|k: u64| #[trigger] table@.contains_key(k) implies table@[k] <= u64::MAX by {
            let u = choose|u: u128|
                u < s1 && #[trigger] power_key(gc as int, p as int, u) == k && table@[k] == u;
        }
    }
    let found = giant_search(&table, target, se, s1, s1, p);
    match found {
        Ok(x) => {
            proof {
                let vv = choose|v: u128|
                    {
                        &&& v < s1
                        &&& #[trigger] hit_at(table@, target, se, p as int, v)
                        &&& forall|w2: u128| w2 < v ==> !hit_at(table@, target, se, p as int, w2)
                        &&& x == table@[probe_at(target, se, p as int, v)] + v * s1
                    };
                let pk = probe_at(target, se, p as int, vv);
                assert(table@.contains_key(pk));
                let uu = choose|u: u128|
                    u < s1 && #[trigger] power_key(gc as int, p as int, u) == pk && table@[pk]
                        == u;
                lemma_mod_bound(pow(gc as int, uu as nat), p as int);
                assert(pk as int == pow_mod(gc as int, uu as nat, p as int));
                lemma_probe_sound(gc, p, q, s1, target, se, uu, vv);
                assert(x == uu + vv * s1);
                assert(x < s1 * s1) by (nonlinear_arith)
                    requires
                        uu < s1,
                        vv < s1,
                        x == uu + vv * s1,
                ;
                lemma_pow_mod_compose(g as int, c as nat, (uu + s1 * vv) as nat, p as int);
                assert(c as nat * ((uu + s1 * vv) as nat) == (c * x) as nat) by (nonlinear_arith)
                    requires
                        x == uu + vv * s1,
                        0 <= c,
                        0 <= uu,
                        0 <= vv,
                        0 <= s1,
                ;
                lemma_strip_reverse(g, p, q, h1, k0, (c * x) as nat, target);
                assert((c * x) as nat + k0 == (k0 + c * x) as nat);
            }
            Ok(x)
        },
        Err(_) => {
            proof {
                assert forall|k1: u128| !encodes_k1(g, p, h1, k0, c, k1, d) by {
                    if encodes_k1(g, p, h1, k0, c, k1, d) {
                        assert(h1 as int == pow_mod(
                            g as int,
                            ((c * k1) as nat + k0) as nat,
                            p as int,
                        ));
                        lemma_strip_forward(g, p, q, h1, k0, (c * k1) as nat);
                        lemma_pow_mod_compose(g as int, c as nat, k1 as nat, p as int);
                        assert(c as nat * k1 as nat == (c * k1) as nat) by (nonlinear_arith)
                            requires
                                0 <= c,
                                0 <= k1,
                        ;
                        assert(target as int == pow_mod(gc as int, k1 as nat, p as int));
                        let v0: u128 = k1 / s1;
                        let u0: u128 = k1 % s1;
                        lemma_fundamental_div_mod(k1 as int, s1 as int);
                        lemma_mod_bound(k1 as int, s1 as int);
                        lemma_probe_power(gc, p, q, s1, target, se, k1 as nat, v0);
                        assert(k1 as nat + (q - 1) * s1 * v0 == u0 as nat + (s1 * v0) as nat * (
                        q as nat)) by (nonlinear_arith)
                            requires
                                k1 == s1 * v0 + u0,
                                1 <= q,
                                0 <= s1,
                                0 <= v0,
                                0 <= u0,
                        ;
                        lemma_pow_mod_periodic(
                            gc as int,
                            u0 as nat,
                            (s1 * v0) as nat,
                            q as nat,
                            p as int,
                        );
                        lemma_mod_bound(pow(gc as int, u0 as nat), p as int);
                        assert(probe_at(target, se, p as int, v0) == power_key(
                            gc as int,
                            p as int,
                            u0,
                        ));
                        assert(table@.contains_key(power_key(gc as int, p as int, u0)));
                        assert(hit_at(table@, target, se, p as int, v0));
                        assert(v0 < s1) by (nonlinear_arith)
                            requires
                                k1 < s1 * s1,
                                k1 == s1 * v0 + u0,
                                0 <= u0,
                                1 <= s1,
                        ;
                        assert(false);
                    }
                }
            }
            Err(SolveError::SearchExhausted)
        },
    }
}

/// The whole problem instance handed to the solver: the group, the two
/// observed elements, the decomposition knowledge for `k0`, the
/// cofactor knowledge for `k1`, and the field in which the secret is
/// reconstructed.
pub struct DlSolver {
    /// The group lives in the multiplicative residues modulo this prime.
    pub p: u64,
    /// Order of the subgroup generated by `g`: `g^q mod p == 1`.
    pub q: u128,
    /// Base group element.
    pub g: u64,
    /// First observed element, `g^k0`.
    pub h0: u64,
    /// Second observed element, `g^(k0 + c*k1)`.
    pub h1: u64,
    /// Bit width of `k0`.
    pub bit_len: u32,
    /// How many of `k0`'s most-significant bits are known.
    pub high_width: u32,
    /// The value of those known bits.
    pub high_pattern: u128,
    /// Baby/giant split of the first stage: both bounds are `2^split`.
    pub split: u32,
    /// Known cofactor multiplier of `k1` in `h1`'s exponent.
    pub c: u128,
    /// The cofactor bound: `k1` lies in `[0, d)`.
    pub d: u128,
    /// Baby/giant step of the second stage, with `d <= s1 * s1`.
    pub s1: u128,
    /// Worker threads for each table build.
    pub n_threads: u128,
    /// Generator-like base of the reconstruction field.
    pub base: u64,
    /// Exponent of the order-reduced `k1` contribution.
    pub order: u128,
    /// Modulus of the reconstruction field.
    pub r_mod: u64,
}

impl DlSolver {
    /// The machine and group-structure conditions under which the
    /// solver runs.
    pub open spec fn wf(&self) -> bool {
        &&& 1 < self.p
        &&& self.g < self.p
        &&& self.h0 < self.p
        &&& self.h1 < self.p
        &&& 1 <= self.q
        &&& pow_mod(self.g as int, self.q as nat, self.p as int) == 1
        &&& self.high_width <= self.bit_len
        &&& self.bit_len <= 126
        &&& self.split <= 63
        &&& self.high_pattern < pow2(self.high_width as nat)
        &&& 1 <= self.n_threads <= u64::MAX
        &&& pow2(self.split as nat) <= usize::MAX
        &&& 1 <= self.s1 <= u64::MAX
        &&& self.s1 <= usize::MAX
        &&& 1 < self.r_mod
    }

    /// Runs the two stages in order and reconstructs the secret: a
    /// failure of the first stage aborts the solve before the second
    /// stage starts.  An `Ok` result is always the reconstruction of
    /// exponents that actually explain the two observed elements.
    pub fn solve(&self) -> (r: Result<u64, SolveError>)
        requires
            self.wf(),
        ensures
            r matches Ok(tau) ==> exists|k0: u128, k1: u128|
                {
                    &&& #[trigger] encodes_k0(
                        self.g,
                        self.p,
                        self.h0,
                        k0,
                        self.high_pattern,
                        self.bit_len,
                        self.high_width,
                        self.split,
                    )
                    &&& k1 < self.s1 * self.s1
                    &&& self.h1 as int == pow_mod(
                        self.g as int,
                        (k0 + self.c * k1) as nat,
                        self.p as int,
                    )
                    &&& tau as int == #[trigger] reconstruct_spec(
                        self.base as int,
                        k0 as nat,
                        k1 as nat,
                        self.order as nat,
                        self.r_mod as int,
                    )
                },
            self.high_width + 2 * self.split < self.bit_len ==> (r matches Err(e) && e
                == SolveError::PreconditionViolation),
            r matches Err(e) ==> (e == SolveError::PreconditionViolation ==> (self.high_width + 2
                * self.split < self.bit_len || self.d > self.s1 * self.s1)),
            (self.high_width + 2 * self.split >= self.bit_len && self.d <= self.s1 * self.s1
                && distinct_powers(
                self.g as int,
                self.p as int,
                (known_high_value(self.high_pattern, self.bit_len, self.high_width)
                    + stage_window(self.split)) as u128,
            ) && exists|k0: u128, k1: u128|
                {
                    &&& #[trigger] encodes_k0(
                        self.g,
                        self.p,
                        self.h0,
                        k0,
                        self.high_pattern,
                        self.bit_len,
                        self.high_width,
                        self.split,
                    )
                    &&& #[trigger] encodes_k1(self.g, self.p, self.h1, k0, self.c, k1, self.d)
                }) ==> r is Ok,
    {
        let k0 = match calc_k0(
            self.p,
            self.q,
            self.g,
            self.h0,
            self.bit_len,
            self.high_width,
            self.high_pattern,
            self.split,
            self.n_threads,
        ) {
            Ok(k) => k,
            Err(e) => {
                return Err(e);
            },
        };
        let k1 = match calc_k1(
            self.p,
            self.q,
            self.g,
            self.h1,
            k0,
            self.c,
            self.d,
            self.s1,
            self.n_threads,
        ) {
            Ok(k) => k,
            Err(e) => {
                proof {
                    let khv = known_high_value(self.high_pattern, self.bit_len, self.high_width);
                    lemma_known_high_bound(self.high_pattern, self.bit_len, self.high_width);
                    lemma_pow2_127();
                    vstd::arithmetic::power2::lemma_pow2_adds(self.split as nat, self.split as nat);
                    if 2 * self.split < 126 {
                        lemma_pow2_strictly_increases((2 * self.split) as nat, 126nat);
                    }
                    assert(stage_window(self.split) <= pow2(126));
                    let db = (khv + stage_window(self.split)) as u128;
                    assert(db == khv + stage_window(self.split));
                    if e == SolveError::SearchExhausted && distinct_powers(
                        self.g as int,
                        self.p as int,
                        db,
                    ) {
                        assert forall|k0t: u128, k1t: u128|
                            !(#[trigger] encodes_k0(
                                self.g,
                                self.p,
                                self.h0,
                                k0t,
                                self.high_pattern,
                                self.bit_len,
                                self.high_width,
                                self.split,
                            ) && #[trigger] encodes_k1(
                                self.g,
                                self.p,
                                self.h1,
                                k0t,
                                self.c,
                                k1t,
                                self.d,
                            )) by {
                            if encodes_k0(
                                self.g,
                                self.p,
                                self.h0,
                                k0t,
                                self.high_pattern,
                                self.bit_len,
                                self.high_width,
                                self.split,
                            ) && encodes_k1(self.g, self.p, self.h1, k0t, self.c, k1t, self.d) {
                                lemma_known_high_bound(
                                    self.high_pattern,
                                    self.bit_len,
                                    self.high_width,
                                );
                                lemma_distinct_inject(
                                    self.g as int,
                                    self.p as int,
                                    db,
                                    k0,
                                    k0t,
                                );
                                assert(encodes_k1(
                                    self.g,
                                    self.p,
                                    self.h1,
                                    k0,
                                    self.c,
                                    k1t,
                                    self.d,
                                ));
                                assert(false);
                            }
                        }
                    }
                }
                return Err(e);
            },
        };
        Ok(attack(self.base, k0, k1, self.order, self.r_mod))
    }
}

/// The solver reconstructs the original secret exactly: any pair of
/// exponents that the solver's result can stand for coincides with the
/// true `(k0, k1)` pair of the setup, as long as the powers of `g` are
/// collision-free up to `db`, and the reconstruction is then that of
/// the true pair.
pub proof fn lemma_solver_reconstructs(
    slv: DlSolver,
    tau: u64,
    k0w: u128,
    k1w: u128,
    k0: u128,
    k1: u128,
    db: u128,
)
    requires
        slv.wf(),
        encodes_k0(slv.g, slv.p, slv.h0, k0w, slv.high_pattern, slv.bit_len, slv.high_width, slv.split),
        k1w < slv.s1 * slv.s1,
        slv.h1 as int == pow_mod(slv.g as int, (k0w + slv.c * k1w) as nat, slv.p as int),
        tau as int == reconstruct_spec(
            slv.base as int,
            k0w as nat,
            k1w as nat,
            slv.order as nat,
            slv.r_mod as int,
        ),
        encodes_k0(slv.g, slv.p, slv.h0, k0, slv.high_pattern, slv.bit_len, slv.high_width, slv.split),
        encodes_k1(slv.g, slv.p, slv.h1, k0, slv.c, k1, slv.d),
        slv.d <= slv.s1 * slv.s1,
        1 <= slv.c,
        distinct_powers(slv.g as int, slv.p as int, db),
        known_high_value(slv.high_pattern, slv.bit_len, slv.high_width) + stage_window(slv.split)
            <= db,
        k0 + slv.c * (slv.s1 * slv.s1) <= db,
    ensures
        k0w == k0,
        k1w == k1,
        tau as int == reconstruct_spec(
            slv.base as int,
            k0 as nat,
            k1 as nat,
            slv.order as nat,
            slv.r_mod as int,
        ),
{
    let gi = slv.g as int;
    let pi = slv.p as int;
    lemma_distinct_inject(gi, pi, db, k0w, k0);
    let e1 = k0 + slv.c * k1w;
    let e2 = k0 + slv.c * k1;
    assert(slv.c * k1w < slv.c * (slv.s1 * slv.s1)) by (nonlinear_arith)
        requires
            1 <= slv.c,
            k1w < slv.s1 * slv.s1,
    ;
    assert(slv.c * k1 < slv.c * (slv.s1 * slv.s1)) by (nonlinear_arith)
        requires
            1 <= slv.c,
            k1 < slv.d,
            slv.d <= slv.s1 * slv.s1,
    ;
    lemma_distinct_inject(gi, pi, db, e1 as u128, e2 as u128);
    assert(k1w == k1) by (nonlinear_arith)
        requires
            k0 + slv.c * k1w == k0 + slv.c * k1,
            1 <= slv.c,
            0 <= k1w,
            0 <= k1,
    ;
}

} // verus!
