//! Splitting an unknown exponent into a known high segment and two
//! square-root-sized unknown segments, so that a linear search of the
//! full width is replaced by two searches of its square root.

use vstd::prelude::*;

verus! {

use vstd::arithmetic::power2::pow2;
use vstd::arithmetic::power2::lemma_pow2_strictly_increases;
use vstd::arithmetic::div_mod::lemma_fundamental_div_mod;

/// Why a solve stage failed.
#[derive(Clone, Copy, PartialEq, Eq, Structural, Debug)]
pub enum SolveError {
    /// The decomposition parameters cannot cover the claimed exponent
    /// bit-width; the stage is aborted before any search work starts.
    PreconditionViolation,
    /// The giant-step walk exhausted its bound without a table hit.
    SearchExhausted,
    /// A group element that must be inverted is zero: the input is
    /// malformed and the solve is fatal.
    ComputationFailure,
}

/// How one search stage covers its exponent: the most-significant bits
/// already known, the width `step == 2^m` of the two unknown segments,
/// and the bounds of the baby-step and giant-step walks.
#[derive(Clone, Copy, PartialEq, Eq, Structural, Debug)]
pub struct Decomposition {
    /// Value contributed by the already-determined most-significant bits.
    pub known_high: u128,
    /// `2^m`: the weight of the giant-step index, and the size of each
    /// unknown segment.
    pub step: u128,
    /// Bound of the baby-step table range `[0, u_bound)`.
    pub u_bound: u128,
    /// Bound of the giant-step walk `[0, v_bound)`.
    pub v_bound: u128,
}

/// The exponent a decomposition stands for, given the two recovered
/// segments: `known_high + step * v + u`.
pub open spec fn recompose_spec(d: Decomposition, v: int, u: int) -> int {
    d.known_high + d.step * v + u
}

/// Recombines the recovered giant-step and baby-step segments with the
/// known high bits into the full exponent.
pub fn recompose(d: &Decomposition, v: u128, u: u128) -> (r: u128)
    requires
        recompose_spec(*d, v as int, u as int) <= u128::MAX,
    ensures
        r == recompose_spec(*d, v as int, u as int),
{
    d.known_high + d.step * v + u
}

/// Round trip of decomposition and recomposition: an exponent that lies
/// in the window a decomposition covers splits uniquely into a giant
/// segment `v` and a baby segment `u`, and `recompose` on those two
/// segments gives back exactly the original exponent.
pub proof fn lemma_round_trip(d: Decomposition, e: u128)
    requires
        d.step > 0,
        d.u_bound == d.step,
        d.known_high <= e,
        e - d.known_high < d.step * d.v_bound,
    ensures
        ({
            let low = e - d.known_high;
            let v = low / (d.step as int);
            let u = low % (d.step as int);
            &&& recompose_spec(d, v, u) == e
            &&& 0 <= v < d.v_bound
            &&& 0 <= u < d.u_bound
        }),
{
    let low = e - d.known_high;
    let s = d.step as int;
    let v = low / s;
    let u = low % s;
    lemma_fundamental_div_mod(low, s);
    vstd::arithmetic::div_mod::lemma_mod_bound(low, s);
    vstd::arithmetic::div_mod::lemma_div_pos_is_pos(low, s);
    assert(v < d.v_bound) by (nonlinear_arith)
        requires
            s > 0,
            low == s * v + u,
            0 <= u,
            0 <= v,
            low < s * d.v_bound,
    ;
}

/// `pow2(127)` written out, for overflow bounds on 128-bit values.
pub proof fn lemma_pow2_127()
    ensures
        pow2(127) == 0x8000_0000_0000_0000_0000_0000_0000_0000,
        pow2(126) == 0x4000_0000_0000_0000_0000_0000_0000_0000,
        pow2(63) == 0x8000_0000_0000_0000,
{
    vstd::arithmetic::power2::lemma2_to64_rest();
    vstd::arithmetic::power2::lemma_pow2_adds(64nat, 63nat);
    vstd::arithmetic::power2::lemma_pow2_adds(64nat, 62nat);
}

/// The value of the known high bits is below `2^bit_len`, which fits
/// comfortably in 128 bits.
pub proof fn lemma_known_high_bound(high_pattern: u128, bit_len: u32, high_width: u32)
    requires
        high_width <= bit_len,
        bit_len <= 126,
        high_pattern < pow2(high_width as nat),
    ensures
        0 <= high_pattern * pow2((bit_len - high_width) as nat),
        high_pattern * pow2((bit_len - high_width) as nat) < pow2(bit_len as nat),
        pow2(bit_len as nat) <= pow2(126),
{
    let hw = high_width as nat;
    let lw = (bit_len - high_width) as nat;
    vstd::arithmetic::power2::lemma_pow2_pos(lw);
    vstd::arithmetic::power2::lemma_pow2_pos(hw);
    vstd::arithmetic::power2::lemma_pow2_adds(hw, lw);
    assert(high_pattern * pow2(lw) <= (pow2(hw) - 1) * pow2(lw)) by (nonlinear_arith)
        requires
            high_pattern <= pow2(hw) - 1,
            0 < pow2(lw),
    ;
    assert((pow2(hw) - 1) * pow2(lw) == pow2(hw) * pow2(lw) - pow2(lw)) by (nonlinear_arith);
    assert(high_pattern * pow2(lw) >= 0) by (nonlinear_arith)
        requires
            high_pattern >= 0,
            0 < pow2(lw),
    ;
    if bit_len < 126 {
        lemma_pow2_strictly_increases(bit_len as nat, 126nat);
    }
}

/// `2^m` as an exec value, by repeated doubling.
pub fn pow2_u128(m: u32) -> (r: u128)
    requires
        m <= 126,
    ensures
        r == pow2(m as nat),
{
    let mut i: u32 = 0;
    let mut acc: u128 = 1;
    proof {
        vstd::arithmetic::power2::lemma2_to64();
    }
    while i < m
        invariant
            i <= m,
            m <= 126,
            acc == pow2(i as nat),
        decreases m - i,
    {
        proof {
            lemma_pow2_strictly_increases((i + 1) as nat, 127nat);
            vstd::arithmetic::power2::lemma_pow2_unfold((i + 1) as nat);
            lemma_pow2_127();
        }
        acc = acc * 2;
        i = i + 1;
    }
    acc
}

/// Splits an exponent of `bit_len` bits, of which the top `high_width`
/// bits are known to be `high_pattern`, at `split` bits per unknown
/// segment.  Fails with `PreconditionViolation` exactly when the three
/// widths cannot cover the exponent, that is when
/// `high_width + 2 * split < bit_len`.
pub fn decompose(bit_len: u32, high_width: u32, high_pattern: u128, split: u32) -> (r: Result<
    Decomposition,
    SolveError,
>)
    requires
        high_width <= bit_len,
        bit_len <= 126,
        split <= 63,
        high_pattern < pow2((high_width) as nat),
    ensures
        r is Ok <==> high_width + 2 * split >= bit_len,
        r matches Ok(d) ==> {
            &&& d.known_high == high_pattern * pow2((bit_len - high_width) as nat)
            &&& d.step == pow2(split as nat)
            &&& d.u_bound == d.step
            &&& d.v_bound == d.step
        },
        r matches Err(e) ==> e == SolveError::PreconditionViolation,
{
    if high_width + 2 * split < bit_len {
        return Err(SolveError::PreconditionViolation);
    }
    let low_width: u32 = bit_len - high_width;
    let shift = pow2_u128(low_width);
    proof {
        vstd::arithmetic::power2::lemma_pow2_pos(low_width as nat);
        if high_pattern > 0 {
            assert(high_pattern * shift <= (pow2(high_width as nat) - 1) * pow2(low_width as nat))
                by (nonlinear_arith)
                requires
                    high_pattern <= pow2(high_width as nat) - 1,
                    shift == pow2(low_width as nat),
                    0 < shift,
            ;
            vstd::arithmetic::power2::lemma_pow2_adds(high_width as nat, low_width as nat);
            lemma_pow2_strictly_increases(bit_len as nat, 127nat);
            lemma_pow2_127();
            assert((pow2(high_width as nat) - 1) * pow2(low_width as nat) == pow2(
                high_width as nat,
            ) * pow2(low_width as nat) - pow2(low_width as nat)) by (nonlinear_arith);
        }
    }
    let known_high = high_pattern * shift;
    let step = pow2_u128(split);
    Ok(
        Decomposition {
            known_high,
            step,
            u_bound: step,
            v_bound: step,
        },
    )
}

} // verus!
