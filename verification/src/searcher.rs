//! The giant-step walk: a sequential, single-threaded probe sequence
//! against a filled baby-step table, returning the combined exponent on
//! the first hit.

use vstd::prelude::*;

verus! {

use crate::arith::pow_mod;
use crate::arith::mul_mod;
use vstd::arithmetic::power::pow;
use vstd::arithmetic::power::lemma_pow1;
use vstd::arithmetic::power::lemma_pow0;
use vstd::arithmetic::power::lemma_pow_adds;
use vstd::arithmetic::div_mod::lemma_mul_mod_noop_general;
use vstd::arithmetic::div_mod::lemma_small_mod;
use crate::decomposer::SolveError;
use crate::table::BabyStepTable;

/// The element probed at giant step `v`: the target combined with the
/// step element applied `v` times, all modulo `p`.
pub open spec fn probe_at(target: u64, step_elem: u64, p: int, v: u128) -> u64 {
    (((target as int) * pow_mod(step_elem as int, v as nat, p)) % p) as u64
}

/// Giant step `v` hits when the probed element is in the table.
pub open spec fn hit_at(tbl: Map<u64, u128>, target: u64, step_elem: u64, p: int, v: u128) -> bool {
    tbl.contains_key(probe_at(target, step_elem, p, v))
}

/// Walks the giant steps `v = 0, 1, ...` in order, probing the table
/// for `target * step_elem^v mod p`.  On the first hit it returns
/// `u + v * step_size`, where `u` is the exponent the table records for
/// the probed element; when no step below `v_bound` hits, it reports
/// `SearchExhausted` rather than any default value.
pub fn giant_search(
    table: &BabyStepTable,
    target: u64,
    step_elem: u64,
    step_size: u128,
    v_bound: u128,
    p: u64,
) -> (r: Result<u128, SolveError>)
    requires
        1 < p,
        target < p,
        step_elem < p,
        step_size <= u64::MAX,
        v_bound <= u64::MAX,
        forall|k: u64| #[trigger] table@.contains_key(k) ==> table@[k] <= u64::MAX,
    ensures
        r matches Ok(x) ==> exists|v: u128|
            {
                &&& v < v_bound
                &&& #[trigger] hit_at(table@, target, step_elem, p as int, v)
                &&& forall|w: u128| w < v ==> !hit_at(table@, target, step_elem, p as int, w)
                &&& x == table@[probe_at(target, step_elem, p as int, v)] + v * step_size
            },
        r matches Err(e) ==> {
            &&& e == SolveError::SearchExhausted
            &&& forall|v: u128| v < v_bound ==> !hit_at(table@, target, step_elem, p as int, v)
        },
{
    let mut acc: u64 = 1 % p;
    let mut v: u128 = 0;
    proof {
        lemma_pow0(step_elem as int);
    }
    while v < v_bound
        invariant
            1 < p,
            target < p,
            step_elem < p,
            v <= v_bound,
            step_size <= u64::MAX,
            v_bound <= u64::MAX,
            forall|k: u64| #[trigger] table@.contains_key(k) ==> table@[k] <= u64::MAX,
            acc == pow_mod(step_elem as int, v as nat, p as int),
            forall|w: u128| w < v ==> !hit_at(table@, target, step_elem, p as int, w),
        decreases v_bound - v,
    {
        let probe = mul_mod(target, acc, p);
        proof {
            assert(probe == probe_at(target, step_elem, p as int, v));
        }
        if let Some(u) = table.lookup(probe) {
            proof {
                assert(hit_at(table@, target, step_elem, p as int, v));
                assert(v * step_size <= u64::MAX as int * u64::MAX as int) by (nonlinear_arith)
                    requires
                        0 <= v <= u64::MAX,
                        0 <= step_size <= u64::MAX,
                ;
            }
            return Ok(u + v * step_size);
        }
        proof {
            lemma_pow1(step_elem as int);
            lemma_pow_adds(step_elem as int, v as nat, 1nat);
            lemma_mul_mod_noop_general(
                pow(step_elem as int, v as nat),
                step_elem as int,
                p as int,
            );
            lemma_small_mod(step_elem as nat, p as nat);
        }
        acc = mul_mod(acc, step_elem, p);
        v = v + 1;
    }
    Err(SolveError::SearchExhausted)
}

} // verus!
