//! The baby-step table: a shared lookup table from group elements to
//! small exponents, filled in parallel over a partitioned range and
//! read only after every worker has finished.

use vstd::prelude::*;
use std::collections::hash_map::RandomState;
use rayon::iter::IntoParallelIterator;
use rayon::iter::ParallelIterator;

verus! {

use crate::arith::pow_mod;
use crate::arith::power_key;
use crate::arith::mul_mod;
use crate::arith::pow_mod_u64;
use vstd::arithmetic::power::pow;
use vstd::arithmetic::power::lemma_pow1;
use vstd::arithmetic::power::lemma_pow_adds;
use vstd::arithmetic::div_mod::lemma_mul_mod_noop_general;
use vstd::arithmetic::div_mod::lemma_fundamental_div_mod;

#[verifier::external_type_specification]
#[verifier::external_body]
#[verifier::reject_recursive_types(K)]
#[verifier::reject_recursive_types(V)]
#[verifier::reject_recursive_types(S)]
pub struct ExDashMap<K, V, S>(dashmap::DashMap<K, V, S>);

/// The concrete concurrent map type that backs a baby-step table.
pub type ElemMap = dashmap::DashMap<u64, u128, RandomState>;

/// What a concurrent element table holds: a finite mapping from group
/// elements to exponents.
pub uninterp spec fn dm_contents(m: ElemMap) -> Map<u64, u128>;

/// The contents of a table with no entries.
pub open spec fn no_entries() -> Map<u64, u128> {
    Map::empty()
}

/// Relies on dashmap::DashMap::new: creates an empty map.
#[verifier::external_body]
fn dm_new() -> (r: ElemMap)
    ensures
        dm_contents(r) == no_entries(),
{
    dashmap::DashMap::new()
}

/// Relies on dashmap::DashMap::insert: binds the key to the value,
/// replacing any previous binding of that key.
#[verifier::external_body]
fn dm_insert(m: &mut ElemMap, k: u64, v: u128)
    ensures
        dm_contents(*final(m)) == dm_contents(*old(m)).insert(k, v),
{
    m.insert(k, v);
}

/// Relies on dashmap::DashMap::get: returns the value bound to the key,
/// or nothing when the key is absent.
#[verifier::external_body]
fn dm_get(m: &ElemMap, k: u64) -> (r: Option<u128>)
    ensures
        r == (if dm_contents(*m).contains_key(k) {
            Some(dm_contents(*m)[k])
        } else {
            None::<u128>
        }),
{
    m.get(&k).map(|guard| *guard)
}

/// Relies on dashmap::DashMap::len: the number of entries in the map.
#[verifier::external_body]
fn dm_len(m: &ElemMap) -> (r: usize)
    ensures
        r == dm_contents(*m).dom().len(),
{
    m.len()
}

/// A half-open range `[0, bound)` of baby-step exponents together with
/// the number of worker threads that fill it.
#[derive(Clone, Copy, PartialEq, Eq, Structural, Debug)]
pub struct SearchRange {
    /// One past the largest baby-step exponent of the table.
    pub bound: u128,
    /// How many contiguous sub-ranges the work is partitioned into.
    pub n_threads: u128,
}

/// One worker's contiguous share `[start, end)` of a table build, with
/// the group base and modulus it exponentiates.
#[derive(Clone, Copy, PartialEq, Eq, Structural, Debug)]
pub struct SliceJob {
    /// Base group element whose powers are tabulated.
    pub g: u64,
    /// The group lives in the multiplicative residues modulo this prime.
    pub p: u64,
    /// First exponent of the slice.
    pub start: u128,
    /// One past the last exponent of the slice.
    pub end: u128,
}

/// The entries one worker produces: `(g^u mod p, u)` for every `u` of
/// its slice, in ascending order.
pub open spec fn slice_entries(job: SliceJob) -> Seq<(u64, u128)> {
    Seq::new(
        (job.end - job.start) as nat,
        |i: int| (power_key(job.g as int, job.p as int, (job.start + i) as u128), (job.start
            + i) as u128),
    )
}

/// The table holds every power of `g` with exponent below `c`, and
/// nothing else: each key is some `g^u mod p` with `u < c`, bound to
/// such a `u`.
pub open spec fn table_covers(m: Map<u64, u128>, g: int, p: int, c: int) -> bool {
    &&& forall|u: u128| u < c ==> m.contains_key(#[trigger] power_key(g, p, u))
    &&& forall|k: u64| #[trigger] m.contains_key(k) ==> exists|u: u128|
        u < c && #[trigger] power_key(g, p, u) == k && m[k] == u
}

/// The full contract of a built baby-step table over `[0, bound)`.
pub open spec fn is_baby_table(m: Map<u64, u128>, g: int, p: int, bound: u128) -> bool {
    table_covers(m, g, p, bound as int)
}

/// The baby-step lookup table: group elements mapped to the exponents
/// that produce them.  Written during construction only; the search
/// phase only reads it.
pub struct BabyStepTable {
    entries: ElemMap,
}

impl View for BabyStepTable {
    type V = Map<u64, u128>;

    closed spec fn view(&self) -> Map<u64, u128> {
        dm_contents(self.entries)
    }
}

impl BabyStepTable {
    /// A table with no entries.
    pub fn empty() -> (r: Self)
        ensures
            r@ == no_entries(),
    {
        BabyStepTable { entries: dm_new() }
    }

    /// Records that `elem` is produced by exponent `exp`, replacing any
    /// previous binding of `elem`.
    pub fn insert_entry(&mut self, elem: u64, exp: u128)
        ensures
            final(self)@ == old(self)@.insert(elem, exp),
    {
        dm_insert(&mut self.entries, elem, exp);
    }

    /// The exponent recorded for `elem`, if any.
    pub fn lookup(&self, elem: u64) -> (r: Option<u128>)
        ensures
            r == (if self@.contains_key(elem) {
                Some(self@[elem])
            } else {
                None::<u128>
            }),
    {
        dm_get(&self.entries, elem)
    }

    /// How many distinct elements the table holds.
    pub fn entry_count(&self) -> (r: usize)
        ensures
            r == self@.dom().len(),
    {
        dm_len(&self.entries)
    }
}

/// Computes one slice of baby steps: `(g^u mod p, u)` for `u` in
/// `[start, end)`, each element obtained from the previous one by a
/// single multiplication by `g`.
fn fill_slice(job: &SliceJob) -> (r: Vec<(u64, u128)>)
    requires
        1 < job.p,
        job.g < job.p,
        job.start <= job.end,
        job.end - job.start <= usize::MAX,
    ensures
        r@ == slice_entries(*job),
{
    let g = job.g;
    let p = job.p;
    let mut out: Vec<(u64, u128)> = Vec::new();
    let mut elem: u64 = pow_mod_u64(g, job.start, p);
    let mut u: u128 = job.start;
    while u < job.end
        invariant
            1 < p,
            g < p,
            job.start <= u <= job.end,
            job.end - job.start <= usize::MAX,
            elem == pow_mod(g as int, u as nat, p as int),
            out@.len() == u - job.start,
            forall|i: int|
                0 <= i < out@.len() ==> out@[i] == (power_key(g as int, p as int, (job.start
                    + i) as u128), (job.start + i) as u128),
        decreases job.end - u,
    {
        out.push((elem, u));
        proof {
            lemma_pow1(g as int);
            lemma_pow_adds(g as int, u as nat, 1nat);
            lemma_mul_mod_noop_general(pow(g as int, u as nat), g as int, p as int);
            vstd::arithmetic::div_mod::lemma_small_mod(g as nat, p as nat);
        }
        elem = mul_mod(elem, g, p);
        u = u + 1;
    }
    proof {
        assert(out@ =~= slice_entries(*job));
    }
    out
}

/// How far the table is filled when the merge stands at the start of
/// slice `j`: everything below that slice's first exponent.
spec fn covered_to(jobs: Seq<SliceJob>, j: int, bound: u128) -> int {
    if j < jobs.len() {
        jobs[j].start as int
    } else {
        bound as int
    }
}

/// Relies on rayon's into_par_iter/map/collect on a vector: the worker
/// runs once per job, in parallel across jobs, and the results are
/// collected in the jobs' order.
#[verifier::external_body]
fn par_fill_slices(jobs: Vec<SliceJob>) -> (r: Vec<Vec<(u64, u128)>>)
    requires
        forall|i: int|
            0 <= i < jobs@.len() ==> {
                &&& 1 < #[trigger] jobs@[i].p
                &&& jobs@[i].g < jobs@[i].p
                &&& jobs@[i].start <= jobs@[i].end
                &&& jobs@[i].end - jobs@[i].start <= usize::MAX
            },
    ensures
        r@.len() == jobs@.len(),
        forall|i: int| 0 <= i < jobs@.len() ==> #[trigger] r@[i]@ == slice_entries(jobs@[i]),
{
    jobs.into_par_iter().map(|job| fill_slice(&job)).collect()
}

/// Builds the baby-step table for the range `[0, range.bound)`: the
/// range is cut into `n_threads` contiguous slices of ceiling size,
/// every slice is filled by a parallel worker, and the results are
/// merged after all workers have finished, so the caller never sees a
/// partially built table.
#[verifier::loop_isolation(false)]
#[verifier::rlimit(100)]
pub fn build_table(g: u64, p: u64, range: &SearchRange) -> (t: BabyStepTable)
    requires
        1 < p,
        g < p,
        1 <= range.n_threads <= u64::MAX,
        range.bound <= usize::MAX,
    ensures
        is_baby_table(t@, g as int, p as int, range.bound),
{
    let bound = range.bound;
    let n = range.n_threads;
    let chunk: u128 = (bound + n - 1) / n;
    proof {
        // ceiling division: n slices of size chunk cover the whole range
        lemma_fundamental_div_mod((bound + n - 1) as int, n as int);
        vstd::arithmetic::div_mod::lemma_mod_bound((bound + n - 1) as int, n as int);
    }
    let mut jobs: Vec<SliceJob> = Vec::new();
    let mut cursor: u128 = 0;
    let mut t_i: u128 = 0;
    while t_i < n
        invariant
            t_i <= n,
            jobs@.len() == t_i,
            cursor <= bound,
            bound - cursor <= (n - t_i) * chunk,
            forall|i: int|
                0 <= i < t_i ==> {
                    &&& (#[trigger] jobs@[i]).g == g
                    &&& jobs@[i].p == p
                    &&& jobs@[i].start <= jobs@[i].end
                    &&& jobs@[i].end <= bound
                },
            forall|i: int|
                0 <= i < t_i ==> (#[trigger] jobs@[i]).start == (if i == 0 {
                    0int
                } else {
                    jobs@[i - 1].end as int
                }),
            t_i > 0 ==> jobs@[t_i - 1].end == cursor,
            t_i == 0 ==> cursor == 0,
        decreases n - t_i,
    {
        let start = cursor;
        let end = if bound - cursor > chunk {
            cursor + chunk
        } else {
            bound
        };
        jobs.push(SliceJob { g, p, start, end });
        cursor = end;
        t_i = t_i + 1;
        proof {
            assert((n - (t_i - 1)) * chunk - chunk == (n - t_i) * chunk) by (nonlinear_arith);
            assert((n - t_i) * chunk >= 0) by (nonlinear_arith)
                requires
                    t_i <= n,
                    chunk >= 0,
            ;
        }
    }
    let ghost jobs_v = jobs@;
    proof {
        assert((n - n) * chunk == 0) by (nonlinear_arith);
    }
    let results = par_fill_slices(jobs);
    let mut table = BabyStepTable::empty();
    let mut j: usize = 0;
    while j < results.len()
        invariant
            j <= results@.len(),
            table_covers(table@, g as int, p as int, covered_to(jobs_v, j as int, bound)),
        decreases results@.len() - j,
    {
        let entries = &results[j];
        let ghost job = jobs_v[j as int];
        let ghost c0 = job.start as int;
        let mut i: usize = 0;
        while i < entries.len()
            invariant
                i <= entries@.len(),
                table_covers(table@, g as int, p as int, c0 + i),
        decreases entries@.len() - i,
        {
            let pair = entries[i];
            let ghost before = table@;
            let ghost c = c0 + i;
            table.insert_entry(pair.0, pair.1);
            proof {
                assert(pair.0 == power_key(g as int, p as int, c as u128));
                assert(pair.1 == c as u128);
                assert forall|u: u128| u < c + 1 implies table@.contains_key(
                    #[trigger] power_key(g as int, p as int, u),
                ) by {
                    if u < c {
                        assert(before.contains_key(power_key(g as int, p as int, u)));
                    } else {
                        assert(power_key(g as int, p as int, u) == pair.0);
                    }
                }
                assert forall|k: u64| #[trigger] table@.contains_key(k) implies exists|u: u128|
                    u < c + 1 && #[trigger] power_key(g as int, p as int, u) == k && table@[k]
                        == u by {
                    if k == pair.0 {
                        assert((c as u128) < c + 1 && power_key(g as int, p as int, c as u128) == k
                            && table@[k] == c as u128);
                    } else {
                        assert(before.contains_key(k));
                        let u0 = choose|u: u128|
                            u < c && #[trigger] power_key(g as int, p as int, u) == k && before[k]
                                == u;
                        assert(u0 < c + 1 && power_key(g as int, p as int, u0) == k
                            && table@[k] == u0);
                    }
                }
            }
            i = i + 1;
        }
        j = j + 1;
        proof {
            assert(covered_to(jobs_v, j as int, bound) == c0 + entries@.len());
        }
    }
    table
}

/// The table's thread count leaves no trace: any two tables built over
/// the same base, modulus and collision-free range hold exactly the
/// same mapping, however many workers filled each.
pub proof fn lemma_table_deterministic(
    m1: Map<u64, u128>,
    m2: Map<u64, u128>,
    g: int,
    p: int,
    bound: u128,
)
    requires
        0 < p <= 0x1_0000_0000_0000_0000,
        is_baby_table(m1, g, p, bound),
        is_baby_table(m2, g, p, bound),
        crate::arith::distinct_powers(g, p, bound),
    ensures
        m1 == m2,
{
    assert forall|k: u64| #[trigger] m1.contains_key(k) implies m2.contains_key(k) && m1[k]
        == m2[k] by {
        let u1 = choose|u: u128| u < bound && #[trigger] power_key(g, p, u) == k && m1[k] == u;
        assert(m2.contains_key(power_key(g, p, u1)));
        let u2 = choose|u: u128| u < bound && #[trigger] power_key(g, p, u) == k && m2[k] == u;
        lemma_key_inject(g, p, bound, u1, u2);
    }
    assert forall|k: u64| #[trigger] m2.contains_key(k) implies m1.contains_key(k) by {
        let u2 = choose|u: u128| u < bound && #[trigger] power_key(g, p, u) == k && m2[k] == u;
        assert(m1.contains_key(power_key(g, p, u2)));
    }
    assert(m1 =~= m2);
}

/// Below a collision-free bound, equal table keys come from equal
/// exponents: the cast to the key type keeps residues apart because
/// the modulus fits the key.
proof fn lemma_key_inject(g: int, p: int, bound: u128, u1: u128, u2: u128)
    requires
        0 < p <= 0x1_0000_0000_0000_0000,
        crate::arith::distinct_powers(g, p, bound),
        u1 < bound,
        u2 < bound,
        power_key(g, p, u1) == power_key(g, p, u2),
    ensures
        u1 == u2,
{
    vstd::arithmetic::div_mod::lemma_mod_bound(pow(g, u1 as nat), p);
    vstd::arithmetic::div_mod::lemma_mod_bound(pow(g, u2 as nat), p);
    crate::arith::lemma_distinct_inject(g, p, bound, u1, u2);
}

/// The distinct group elements reached by the exponents `[0, n)`.
spec fn power_image(g: int, p: int, n: nat) -> Set<u64>
    decreases n,
{
    if n == 0 {
        Set::empty()
    } else {
        power_image(g, p, (n - 1) as nat).insert(power_key(g, p, ((n - 1) as u128)))
    }
}

/// Size and membership of the image of a collision-free exponent
/// range: exactly one element per exponent.
proof fn lemma_power_image(g: int, p: int, n: u128, bound: u128)
    requires
        0 < p <= 0x1_0000_0000_0000_0000,
        crate::arith::distinct_powers(g, p, bound),
        n <= bound,
    ensures
        power_image(g, p, n as nat).finite(),
        power_image(g, p, n as nat).len() == n,
        forall|k: u64|
            power_image(g, p, n as nat).contains(k) <==> exists|u: u128|
                u < n && #[trigger] power_key(g, p, u) == k,
    decreases n,
{
    if n == 0 {
        assert forall|k: u64| !power_image(g, p, 0nat).contains(k) by {}
    } else {
        lemma_power_image(g, p, (n - 1) as u128, bound);
        let prev = power_image(g, p, (n - 1) as nat);
        let kn = power_key(g, p, ((n - 1) as u128));
        if prev.contains(kn) {
            let u0 = choose|u: u128| u < n - 1 && #[trigger] power_key(g, p, u) == kn;
            lemma_key_inject(g, p, bound, u0, (n - 1) as u128);
            assert(false);
        }
        assert forall|k: u64|
            power_image(g, p, n as nat).contains(k) <==> exists|u: u128|
                u < n && #[trigger] power_key(g, p, u) == k by {
            if power_image(g, p, n as nat).contains(k) {
                if k == kn {
                    assert(power_key(g, p, ((n - 1) as u128)) == k);
                } else {
                    let u0 = choose|u: u128| u < n - 1 && #[trigger] power_key(g, p, u) == k;
                    assert(u0 < n && power_key(g, p, u0) == k);
                }
            }
            if exists|u: u128| u < n && #[trigger] power_key(g, p, u) == k {
                let u0 = choose|u: u128| u < n && #[trigger] power_key(g, p, u) == k;
                if u0 < n - 1 {
                    assert(prev.contains(k));
                } else {
                    assert(k == kn);
                }
            }
        }
    }
}

/// A collision-free baby-step table over `[0, bound)` holds exactly
/// `bound` distinct entries.
pub proof fn lemma_table_entry_count(m: Map<u64, u128>, g: int, p: int, bound: u128)
    requires
        0 < p <= 0x1_0000_0000_0000_0000,
        is_baby_table(m, g, p, bound),
        crate::arith::distinct_powers(g, p, bound),
    ensures
        m.dom().finite(),
        m.dom().len() == bound,
{
    lemma_power_image(g, p, bound, bound);
    assert forall|k: u64| m.dom().contains(k) <==> power_image(g, p, bound as nat).contains(
        k,
    ) by {
        if m.dom().contains(k) {
            let u0 = choose|u: u128| u < bound && #[trigger] power_key(g, p, u) == k && m[k] == u;
        }
        if power_image(g, p, bound as nat).contains(k) {
            let u0 = choose|u: u128| u < bound && #[trigger] power_key(g, p, u) == k;
        }
    }
    assert(m.dom() =~= power_image(g, p, bound as nat));
}

} // verus!
