// Exercises the discrete-logarithm engine on a toy group: the subgroup
// of order 1009 (prime) inside the multiplicative residues modulo the
// prime 10091, generated by g = 2^10 mod 10091 = 1024.

use bsgs_dlog::arith::mul_mod;
use bsgs_dlog::arith::pow_mod_u64;
use bsgs_dlog::decomposer::decompose;
use bsgs_dlog::decomposer::recompose;
use bsgs_dlog::decomposer::Decomposition;
use bsgs_dlog::decomposer::SolveError;
use bsgs_dlog::searcher::giant_search;
use bsgs_dlog::solver::attack;
use bsgs_dlog::solver::calc_k0;
use bsgs_dlog::solver::calc_k1;
use bsgs_dlog::solver::invert_in_group;
use bsgs_dlog::solver::verify_k0;
use bsgs_dlog::solver::DlSolver;
use bsgs_dlog::table::build_table;
use bsgs_dlog::table::BabyStepTable;
use bsgs_dlog::table::SearchRange;

const P: u64 = 10091;
const Q: u128 = 1009;
const G: u64 = 1024;

#[test]
fn pow_mod_small_values() {
    assert_eq!(pow_mod_u64(2, 10, P), 1024);
    assert_eq!(pow_mod_u64(G, 0, P), 1);
    assert_eq!(pow_mod_u64(G, 1009, P), 1);
    assert_eq!(pow_mod_u64(2, 377, 1009), 739);
    assert_eq!(mul_mod(739, 568, 1009), 8);
}

#[test]
fn decompose_exact_split() {
    let d = decompose(10, 4, 3, 5);
    assert_eq!(
        d,
        Ok(Decomposition { known_high: 192, step: 32, u_bound: 32, v_bound: 32 })
    );
}

#[test]
fn decompose_full_scale_split() {
    // a 50-bit exponent with 14 known high bits, split 18 bits per
    // unknown segment
    let d = decompose(50, 14, 15854, 18).unwrap();
    assert_eq!(d.known_high, 1089478584172544);
    assert_eq!(d.step, 262144);
    assert_eq!(d.u_bound, 262144);
    assert_eq!(d.v_bound, 262144);
}

#[test]
fn decompose_rejects_uncovered_width() {
    assert_eq!(decompose(10, 4, 3, 2), Err(SolveError::PreconditionViolation));
}

#[test]
fn recompose_round_trip() {
    let d = decompose(10, 4, 3, 5).unwrap();
    let low: u128 = 377 - 192;
    assert_eq!(recompose(&d, low / d.step, low % d.step), 377);
}

#[test]
fn inversion_in_subgroup() {
    let y = invert_in_group(G, Q, P).unwrap();
    assert_eq!(y, 6908);
    assert_eq!(mul_mod(G, y, P), 1);
}

#[test]
fn inversion_of_zero_fails() {
    assert_eq!(invert_in_group(0, Q, P), Err(SolveError::ComputationFailure));
}

#[test]
fn table_holds_every_power() {
    let range = SearchRange { bound: 32, n_threads: 6 };
    let table = build_table(G, P, &range);
    assert_eq!(table.entry_count(), 32);
    for u in 0..32u128 {
        let elem = pow_mod_u64(G, u, P);
        assert_eq!(table.lookup(elem), Some(u));
    }
    assert_eq!(table.lookup(pow_mod_u64(G, 32, P)), None);
}

#[test]
fn table_same_for_one_and_six_threads() {
    let t1 = build_table(G, P, &SearchRange { bound: 50, n_threads: 1 });
    let t6 = build_table(G, P, &SearchRange { bound: 50, n_threads: 6 });
    assert_eq!(t1.entry_count(), 50);
    assert_eq!(t6.entry_count(), 50);
    for u in 0..50u128 {
        let elem = pow_mod_u64(G, u, P);
        assert_eq!(t1.lookup(elem), t6.lookup(elem));
        assert_eq!(t1.lookup(elem), Some(u));
    }
}

#[test]
fn seeded_search_hits_exact_value() {
    let mut table = BabyStepTable::empty();
    table.insert_entry(pow_mod_u64(G, 7, P), 7);
    let g_inv = invert_in_group(G, Q, P).unwrap();
    // target g^9 combined with two inverse steps lands on the seeded g^7
    let target = pow_mod_u64(G, 9, P);
    assert_eq!(giant_search(&table, target, g_inv, 1, 8, P), Ok(9));
    // a direct hit at the first probe
    assert_eq!(giant_search(&table, pow_mod_u64(G, 7, P), g_inv, 1, 8, P), Ok(7));
}

#[test]
fn search_out_of_range_exhausts() {
    let mut table = BabyStepTable::empty();
    table.insert_entry(pow_mod_u64(G, 7, P), 7);
    let g_inv = invert_in_group(G, Q, P).unwrap();
    let target = pow_mod_u64(G, 50, P);
    assert_eq!(
        giant_search(&table, target, g_inv, 1, 3, P),
        Err(SolveError::SearchExhausted)
    );
}

#[test]
fn stage_a_recovers_k0() {
    let h0 = pow_mod_u64(G, 377, P);
    assert_eq!(h0, 9776);
    let r = calc_k0(P, Q, G, h0, 10, 4, 3, 5, 6);
    assert_eq!(r, Ok(377));
    assert!(verify_k0(P, G, h0, 377));
    assert!(!verify_k0(P, G, h0, 378));
}

#[test]
fn stage_a_precondition_violation() {
    assert_eq!(
        calc_k0(P, Q, G, 9776, 10, 4, 3, 2, 1),
        Err(SolveError::PreconditionViolation)
    );
}

#[test]
fn stage_a_search_exhausted() {
    // the true exponent 500 lies outside the window [192, 192 + 64)
    let h0 = pow_mod_u64(G, 500, P);
    assert_eq!(
        calc_k0(P, Q, G, h0, 8, 2, 3, 3, 2),
        Err(SolveError::SearchExhausted)
    );
}

#[test]
fn stage_b_recovers_k1() {
    let h1 = pow_mod_u64(G, 377 + 7 * 13, P);
    assert_eq!(h1, 4744);
    assert_eq!(calc_k1(P, Q, G, h1, 377, 7, 25, 5, 2), Ok(13));
}

#[test]
fn stage_b_precondition_violation() {
    assert_eq!(
        calc_k1(P, Q, G, 4744, 377, 7, 25, 4, 2),
        Err(SolveError::PreconditionViolation)
    );
}

#[test]
fn reconstruction_combines_multiplicatively() {
    assert_eq!(attack(2, 377, 13, 10, 1009), 8);
}

#[test]
fn end_to_end_recovers_secret() {
    let solver = DlSolver {
        p: P,
        q: Q,
        g: G,
        h0: 9776,
        h1: 4744,
        bit_len: 10,
        high_width: 4,
        high_pattern: 3,
        split: 5,
        c: 7,
        d: 25,
        s1: 5,
        n_threads: 6,
        base: 2,
        order: 10,
        r_mod: 1009,
    };
    assert_eq!(solver.solve(), Ok(8));
}

#[test]
fn end_to_end_single_threaded_matches() {
    let solver = DlSolver {
        p: P,
        q: Q,
        g: G,
        h0: 9776,
        h1: 4744,
        bit_len: 10,
        high_width: 4,
        high_pattern: 3,
        split: 5,
        c: 7,
        d: 25,
        s1: 5,
        n_threads: 1,
        base: 2,
        order: 10,
        r_mod: 1009,
    };
    assert_eq!(solver.solve(), Ok(8));
}

#[test]
fn end_to_end_aborts_on_bad_split() {
    let solver = DlSolver {
        p: P,
        q: Q,
        g: G,
        h0: 9776,
        h1: 4744,
        bit_len: 10,
        high_width: 4,
        high_pattern: 3,
        split: 2,
        c: 7,
        d: 25,
        s1: 5,
        n_threads: 6,
        base: 2,
        order: 10,
        r_mod: 1009,
    };
    assert_eq!(solver.solve(), Err(SolveError::PreconditionViolation));
}
