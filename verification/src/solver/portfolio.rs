//! Deterministic fixed-work portfolio over constructive orders.
use vstd::prelude::*;

use crate::objective::{lemma_objective_order, objective_of, objective_order, ObjectiveValue, ObjectiveView};
use crate::solution::{PlacementView, Solution};
use crate::solver::constructive::{
    canonical_order, construction_explored, construction_overflows, construction_result, greedy_up_to, item_positions,
    lemma_plan_of_order_unique, plan_of_order, solve_with_item_order, ItemOrder,
};
use crate::validate::ItemId;
use crate::solver::improve::splitmix_mix;
use crate::solver::{
    clock_now, nanos_between, OptimalityStatus, SolveRequest, SolverBackend, SolverError, SolverMetrics,
    SolverOutcome,
};
use crate::validate::{solution_valid, summary_spec, validate_solution, PackingInstance};
use vstd::string::StringExecFns;
use std::collections::BTreeMap;
use crate::solver::stop::StopSignal;
use vstd::std_specs::cmp::OrdSpec;

verus! {

/// Deterministic fixed-work portfolio over clean-room constructive orders.
#[derive(Copy, Debug)]
pub struct PortfolioBackend {
    work_units: usize,
}

impl PortfolioBackend {
    #[verifier::type_invariant]
    spec fn some_work(self) -> bool {
        self.work_units > 0
    }

    pub closed spec fn work_units_spec(self) -> usize {
        self.work_units
    }

    /// A portfolio of `work_units` construction work units, the canonical one included.
    pub fn new(work_units: usize) -> (r: PortfolioBackend)
        requires
            work_units > 0,
        ensures
            r.work_units_spec() == work_units,
    {
        PortfolioBackend { work_units }
    }

    pub fn work_units(self) -> (r: usize)
        ensures
            r == self.work_units_spec(),
            r > 0,
    {
        proof {
            use_type_invariant(&self);
        }
        self.work_units
    }
}

impl Clone for PortfolioBackend {
    fn clone(&self) -> (r: PortfolioBackend)
        ensures
            r.work_units_spec() == self.work_units_spec(),
    {
        *self
    }
}

impl Default for PortfolioBackend {
    fn default() -> (r: PortfolioBackend)
        ensures
            r.work_units_spec() == 8,
    {
        PortfolioBackend::new(8)
    }
}

/// The seed of work unit `index`: the SplitMix64 output for the portfolio
/// seed xor the index times the SplitMix64 increment (wrapping).
pub open spec fn derive_seed_spec(seed: u64, index: nat) -> u64 {
    splitmix_mix(seed ^ ((index * 0x9e37_79b9_7f4a_7c15u64) as u64))
}

/// Seed of the work unit with index `work_index`.
pub fn derive_seed(seed: u64, work_index: usize) -> (r: u64)
    ensures
        r == derive_seed_spec(seed, work_index as nat),
{
    let index = work_index as u64;
    let z = seed ^ (((index as u128) * (0x9e37_79b9_7f4a_7c15u64 as u128)) as u64);
    let a = (((z ^ (z >> 30u64)) as u128) * (0xbf58_476d_1ce4_e5b9u64 as u128)) as u64;
    let b = (((a ^ (a >> 27u64)) as u128) * (0x94d0_49bb_1331_11ebu64 as u128)) as u64;
    b ^ (b >> 31u64)
}

/// One unit of construction work: its stable index and its item order.
#[derive(Clone, Copy, Debug, Eq, PartialEq, Structural)]
pub struct WorkUnit {
    pub index: usize,
    pub item_order: ItemOrder,
}

/// The work unit with index `index` under portfolio seed `seed`.
pub open spec fn work_unit_spec(seed: u64, index: nat) -> WorkUnit {
    WorkUnit { index: index as usize, item_order: ItemOrder::Seeded(derive_seed_spec(seed, index)) }
}

/// The canonical work unit and the seeded units dealt round-robin to workers.
#[derive(Debug, Eq, PartialEq)]
pub struct WorkPlan {
    pub canonical: WorkUnit,
    pub partitions: Vec<Vec<WorkUnit>>,
}

/// Number of workers: the thread bound, but no more than there are seeded units.
pub open spec fn worker_count(work_units: nat, threads: nat) -> nat {
    if threads < work_units - 1 {
        threads
    } else {
        (work_units - 1) as nat
    }
}

/// Worker `w` of `k` gets the seeded units `1 + w`, `1 + w + k`,
/// `1 + w + 2k`, ... below `n`, in that order.
pub open spec fn partitions_spec(partitions: Seq<Seq<WorkUnit>>, seed: u64, n: nat, k: nat) -> bool {
    &&& partitions.len() == k
    &&& forall|w: int, t: int|
        #![trigger partitions[w][t]]
        0 <= w < k && 0 <= t < partitions[w].len() ==> {
            &&& 1 + w + t * k < n
            &&& partitions[w][t] == work_unit_spec(seed, (1 + w + t * k) as nat)
        }
    &&& forall|w: int| 0 <= w < k ==> 1 + w + (#[trigger] partitions[w].len()) * k >= n
}

/// The partitions of a plan, as sequences.
pub open spec fn partition_views(partitions: Seq<Vec<WorkUnit>>) -> Seq<Seq<WorkUnit>> {
    partitions.map_values(|p: Vec<WorkUnit>| p@)
}

proof fn lemma_round_robin_unique(k: int, w1: int, t1: int, w2: int, t2: int)
    requires
        k > 0,
        0 <= w1 < k,
        0 <= w2 < k,
        0 <= t1,
        0 <= t2,
        w1 + t1 * k == w2 + t2 * k,
    ensures
        w1 == w2,
        t1 == t2,
{
    if t1 < t2 {
        assert((t2 - t1) * k >= k) by (nonlinear_arith)
            requires
                t2 - t1 >= 1,
                k > 0,
        ;
        assert(t2 * k - t1 * k == (t2 - t1) * k) by (nonlinear_arith);
    } else if t2 < t1 {
        assert((t1 - t2) * k >= k) by (nonlinear_arith)
            requires
                t1 - t2 >= 1,
                k > 0,
        ;
        assert(t1 * k - t2 * k == (t1 - t2) * k) by (nonlinear_arith);
    }
}

proof fn lemma_index_dealt(partitions: Seq<Seq<WorkUnit>>, seed: u64, n: nat, k: nat, i: nat) -> (wt: (int, int))
    requires
        k > 0,
        partitions_spec(partitions, seed, n, k),
        1 <= i < n,
    ensures
        0 <= wt.0 < k,
        0 <= wt.1 < partitions[wt.0].len(),
        partitions[wt.0][wt.1] == work_unit_spec(seed, i),
{
    let j: int = i - 1;
    let kk: int = k as int;
    vstd::arithmetic::div_mod::lemma_fundamental_div_mod(j, kk);
    let w = j % kk;
    let t = j / kk;
    assert(j == w + t * kk) by (nonlinear_arith)
        requires
            j == kk * (j / kk) + j % kk,
            w == j % kk,
            t == j / kk,
    ;
    assert(t >= 0) by (nonlinear_arith)
        requires
            j >= 0,
            kk > 0,
            t == j / kk,
    ;
    let len = partitions[w].len() as int;
    assert(1 + w + len * kk >= n);
    assert(t < len) by (nonlinear_arith)
        requires
            len * kk > t * kk,
            kk > 0,
    ;
    assert(partitions[w][t] == work_unit_spec(seed, (1 + w + t * kk) as nat));
    (w, t)
}

proof fn lemma_index_unique(
    partitions: Seq<Seq<WorkUnit>>,
    seed: u64,
    n: nat,
    k: nat,
    w1: int,
    t1: int,
    w2: int,
    t2: int,
)
    requires
        k > 0,
        n <= usize::MAX,
        partitions_spec(partitions, seed, n, k),
        0 <= w1 < k && 0 <= t1 < partitions[w1].len(),
        0 <= w2 < k && 0 <= t2 < partitions[w2].len(),
        partitions[w1][t1].index == partitions[w2][t2].index,
    ensures
        w1 == w2 && t1 == t2,
{
    let kk: int = k as int;
    let i1 = 1 + w1 + t1 * kk;
    let i2 = 1 + w2 + t2 * kk;
    assert(i1 < n && partitions[w1][t1] == work_unit_spec(seed, i1 as nat));
    assert(i2 < n && partitions[w2][t2] == work_unit_spec(seed, i2 as nat));
    assert(t1 * kk >= 0 && t2 * kk >= 0) by (nonlinear_arith)
        requires
            t1 >= 0,
            t2 >= 0,
            kk > 0,
    ;
    lemma_round_robin_unique(kk, w1, t1, w2, t2);
}

/// Every seeded index `1..n` is dealt to exactly one worker, at exactly one
/// position, and carries its own seed whatever the number of workers.
pub proof fn lemma_partitions_exactly_once(partitions: Seq<Seq<WorkUnit>>, seed: u64, n: nat, k: nat)
    requires
        k > 0,
        n <= usize::MAX,
        partitions_spec(partitions, seed, n, k),
    ensures
        forall|i: nat|
            #![trigger work_unit_spec(seed, i)]
            1 <= i < n ==> exists|w: int, t: int|
                #![trigger partitions[w][t]]
                0 <= w < k && 0 <= t < partitions[w].len() && partitions[w][t] == work_unit_spec(seed, i),
        forall|w1: int, t1: int, w2: int, t2: int|
            0 <= w1 < k && 0 <= t1 < partitions[w1].len() && 0 <= w2 < k && 0 <= t2 < partitions[w2].len()
                && (#[trigger] partitions[w1][t1]).index == (#[trigger] partitions[w2][t2]).index ==> w1 == w2
                && t1 == t2,
{
    assert forall|i: nat| #![trigger work_unit_spec(seed, i)] 1 <= i < n implies exists|w: int, t: int|
        #![trigger partitions[w][t]]
        0 <= w < k && 0 <= t < partitions[w].len() && partitions[w][t] == work_unit_spec(seed, i) by {
        let (w, t) = lemma_index_dealt(partitions, seed, n, k, i);
        assert(partitions[w][t] == work_unit_spec(seed, i));
    }
    assert forall|w1: int, t1: int, w2: int, t2: int|
        0 <= w1 < k && 0 <= t1 < partitions[w1].len() && 0 <= w2 < k && 0 <= t2 < partitions[w2].len()
            && (#[trigger] partitions[w1][t1]).index == (#[trigger] partitions[w2][t2]).index implies w1 == w2
            && t1 == t2 by {
        lemma_index_unique(partitions, seed, n, k, w1, t1, w2, t2);
    }
}

proof fn lemma_unit_dealt_again(
    first: Seq<Seq<WorkUnit>>,
    second: Seq<Seq<WorkUnit>>,
    seed: u64,
    n1: nat,
    n2: nat,
    k1: nat,
    k2: nat,
    w: int,
    t: int,
) -> (vu: (int, int))
    requires
        k1 > 0,
        k2 > 0,
        n1 <= n2,
        partitions_spec(first, seed, n1, k1),
        partitions_spec(second, seed, n2, k2),
        0 <= w < k1,
        0 <= t < first[w].len(),
    ensures
        0 <= vu.0 < k2,
        0 <= vu.1 < second[vu.0].len(),
        second[vu.0][vu.1] == first[w][t],
{
    let kk: int = k1 as int;
    let i = 1 + w + t * kk;
    assert(t * kk >= 0) by (nonlinear_arith)
        requires
            t >= 0,
            kk > 0,
    ;
    assert(first[w][t] == work_unit_spec(seed, i as nat));
    lemma_index_dealt(second, seed, n2, k2, i as nat)
}

/// `unit` is dealt to some worker of `partitions`.
pub open spec fn dealt(partitions: Seq<Seq<WorkUnit>>, unit: WorkUnit) -> bool {
    exists|v: int, u: int| 0 <= v < partitions.len() && 0 <= u < partitions[v].len() && #[trigger] partitions[v][u] == unit
}

/// A fixed seed and number of work units define the same work whatever the
/// thread bound: every seeded unit dealt to some worker under one bound is
/// dealt to some worker under another.
pub proof fn lemma_work_independent_of_threads(
    first: Seq<Seq<WorkUnit>>,
    second: Seq<Seq<WorkUnit>>,
    seed: u64,
    n: nat,
    k1: nat,
    k2: nat,
)
    requires
        k1 > 0,
        k2 > 0,
        partitions_spec(first, seed, n, k1),
        partitions_spec(second, seed, n, k2),
    ensures
        forall|w: int, t: int| 0 <= w < k1 && 0 <= t < first[w].len() ==> dealt(second, #[trigger] first[w][t]),
{
    lemma_more_work_is_a_superset(first, second, seed, n, n, k1, k2);
}

/// The same work under any two thread bounds: with a fixed seed and number
/// of work units, a unit is dealt under one bound exactly when it is dealt
/// under the other.
pub proof fn lemma_same_work_any_threads(
    first: Seq<Seq<WorkUnit>>,
    second: Seq<Seq<WorkUnit>>,
    seed: u64,
    n: nat,
    k1: nat,
    k2: nat,
)
    requires
        k1 > 0,
        k2 > 0,
        partitions_spec(first, seed, n, k1),
        partitions_spec(second, seed, n, k2),
    ensures
        forall|unit: WorkUnit| dealt(first, unit) <==> dealt(second, unit),
{
    lemma_work_independent_of_threads(first, second, seed, n, k1, k2);
    lemma_work_independent_of_threads(second, first, seed, n, k2, k1);
    assert forall|unit: WorkUnit| dealt(first, unit) <==> dealt(second, unit) by {
        if dealt(first, unit) {
            let (v, u) = choose|v: int, u: int| 0 <= v < first.len() && 0 <= u < first[v].len() && #[trigger] first[v][u] == unit;
            assert(dealt(second, first[v][u]));
        }
        if dealt(second, unit) {
            let (v, u) = choose|v: int, u: int| 0 <= v < second.len() && 0 <= u < second[v].len() && #[trigger] second[v][u] == unit;
            assert(dealt(first, second[v][u]));
        }
    }
}

/// More work deals a superset of the work: with the same seed, every seeded
/// unit of a plan of `n1` work units is dealt in a plan of `n2 >= n1` work
/// units, whatever the two thread bounds.
pub proof fn lemma_more_work_is_a_superset(
    first: Seq<Seq<WorkUnit>>,
    second: Seq<Seq<WorkUnit>>,
    seed: u64,
    n1: nat,
    n2: nat,
    k1: nat,
    k2: nat,
)
    requires
        k1 > 0,
        k2 > 0,
        n1 <= n2,
        partitions_spec(first, seed, n1, k1),
        partitions_spec(second, seed, n2, k2),
    ensures
        forall|w: int, t: int| 0 <= w < k1 && 0 <= t < first[w].len() ==> dealt(second, #[trigger] first[w][t]),
{
    assert forall|w: int, t: int| 0 <= w < k1 && 0 <= t < first[w].len() implies dealt(second, #[trigger] first[w][t]) by {
        let (v, u) = lemma_unit_dealt_again(first, second, seed, n1, n2, k1, k2, w, t);
        assert(second[v][u] == first[w][t]);
    }
}

impl WorkPlan {
    /// Deal the seeded work units `1..work_units` round-robin to at most
    /// `threads` workers; the canonical unit has index 0.
    pub fn new(seed: u64, work_units: usize, threads: usize) -> (r: WorkPlan)
        requires
            work_units > 0,
            threads > 0,
        ensures
            r.canonical == (WorkUnit { index: 0, item_order: ItemOrder::Canonical }),
            partitions_spec(
                partition_views(r.partitions@),
                seed,
                work_units as nat,
                worker_count(work_units as nat, threads as nat),
            ),
    {
        let canonical = WorkUnit { index: 0, item_order: ItemOrder::Canonical };
        let seeded_count = work_units - 1;
        let worker_count = if threads < seeded_count {
            threads
        } else {
            seeded_count
        };
        let ghost k = worker_count as int;
        let mut partitions: Vec<Vec<WorkUnit>> = Vec::new();
        let mut w: usize = 0;
        while w < worker_count
            invariant
                0 <= w <= worker_count,
                worker_count < work_units,
                k == worker_count,
                partitions@.len() == w,
                forall|v: int, t: int|
                    #![trigger partitions@[v]@[t]]
                    0 <= v < w && 0 <= t < partitions@[v]@.len() ==> {
                        &&& 1 + v + t * k < work_units
                        &&& partitions@[v]@[t] == work_unit_spec(seed, (1 + v + t * k) as nat)
                    },
                forall|v: int| 0 <= v < w ==> 1 + v + (#[trigger] partitions@[v]@.len()) * k >= work_units,
            decreases worker_count - w,
        {
            let mut part: Vec<WorkUnit> = Vec::new();
            let mut index: usize = 1 + w;
            let ghost mut t: int = 0;
            while index < work_units
                invariant
                    0 <= w < worker_count < work_units,
                    k == worker_count,
                    t == part@.len(),
                    index as int == 1 + w + t * k || (index == work_units && 1 + w + t * k >= work_units),
                    forall|j: int|
                        #![trigger part@[j]]
                        0 <= j < part@.len() ==> {
                            &&& 1 + w + j * k < work_units
                            &&& part@[j] == work_unit_spec(seed, (1 + w + j * k) as nat)
                        },
                decreases work_units - index,
            {
                assert(index as int == 1 + w + t * k);
                part.push(WorkUnit { index, item_order: ItemOrder::Seeded(derive_seed(seed, index)) });
                proof {
                    assert((t + 1) * k == t * k + k) by (nonlinear_arith);
                    t = t + 1;
                }
                if work_units - index <= worker_count {
                    index = work_units;
                } else {
                    index = index + worker_count;
                }
            }
            partitions.push(part);
            w = w + 1;
        }
        proof {
            let views = partition_views(partitions@);
            assert forall|v: int| 0 <= v < k implies #[trigger] views[v] == partitions@[v]@ by {}
        }
        WorkPlan { canonical, partitions }
    }
}

/// What the reduction keeps of one validated candidate.
pub struct CandidateView {
    pub index: usize,
    pub objective: ObjectiveView,
    pub solution: (Seq<PlacementView>, Seq<usize>),
    pub explored: u64,
}

/// An independently validated candidate of one work unit.
#[derive(Debug)]
struct ValidatedCandidate {
    index: usize,
    objective: ObjectiveValue,
    solution: Solution,
    explored_candidates: u64,
}

impl View for ValidatedCandidate {
    type V = CandidateView;

    closed spec fn view(&self) -> CandidateView {
        CandidateView {
            index: self.index,
            objective: self.objective@,
            solution: self.solution@,
            explored: self.explored_candidates,
        }
    }
}

/// Work indices strictly increase along the sequence.
pub open spec fn indices_increasing(cs: Seq<CandidateView>) -> bool {
    forall|i: int, j: int| 0 <= i < j < cs.len() ==> #[trigger] cs[i].index < #[trigger] cs[j].index
}

/// Some candidate has work index `index`.
pub open spec fn has_index(cs: Seq<CandidateView>, index: usize) -> bool {
    exists|i: int| 0 <= i < cs.len() && #[trigger] cs[i].index == index
}

/// Candidate `p` is the best: no candidate has a better objective, and
/// every candidate with an equal objective has a larger work index.
pub open spec fn is_best(cs: Seq<CandidateView>, p: int) -> bool {
    &&& 0 <= p < cs.len()
    &&& forall|q: int|
        0 <= q < cs.len() ==> {
            &&& objective_order(cs[p].objective, #[trigger] cs[q].objective) >= 0
            &&& objective_order(cs[p].objective, cs[q].objective) == 0 ==> cs[p].index <= cs[q].index
        }
}

/// `c` placed among `cs` by work index.
pub open spec fn insert_by_index(cs: Seq<CandidateView>, c: CandidateView) -> Seq<CandidateView>
    decreases cs.len(),
{
    if cs.len() == 0 {
        seq![c]
    } else if c.index < cs[0].index {
        seq![c] + cs
    } else {
        seq![cs[0]] + insert_by_index(cs.drop_first(), c)
    }
}

/// Inserting by work index keeps every candidate and adds `c`.
proof fn lemma_insert_by_index_contents(cs: Seq<CandidateView>, c: CandidateView)
    ensures
        insert_by_index(cs, c).contains(c),
        forall|x: CandidateView| #[trigger] cs.contains(x) ==> insert_by_index(cs, c).contains(x),
        forall|x: CandidateView| #[trigger] insert_by_index(cs, c).contains(x) ==> cs.contains(x) || x == c,
    decreases cs.len(),
{
    let r = insert_by_index(cs, c);
    if cs.len() == 0 {
        assert(r[0] == c);
    } else if c.index < cs[0].index {
        assert(r[0] == c);
        assert forall|x: CandidateView| #[trigger] cs.contains(x) implies r.contains(x) by {
            let i = choose|i: int| 0 <= i < cs.len() && cs[i] == x;
            assert(r[i + 1] == x);
        }
        assert forall|x: CandidateView| #[trigger] r.contains(x) implies cs.contains(x) || x == c by {
            let i = choose|i: int| 0 <= i < r.len() && r[i] == x;
            if i > 0 {
                assert(cs[i - 1] == x);
            }
        }
    } else {
        let rest = cs.drop_first();
        lemma_insert_by_index_contents(rest, c);
        let tail = insert_by_index(rest, c);
        assert(r == seq![cs[0]] + tail);
        let k = choose|k: int| 0 <= k < tail.len() && tail[k] == c;
        assert(r[k + 1] == c);
        assert forall|x: CandidateView| #[trigger] cs.contains(x) implies r.contains(x) by {
            let i = choose|i: int| 0 <= i < cs.len() && cs[i] == x;
            if i == 0 {
                assert(r[0] == x);
            } else {
                assert(rest[i - 1] == x);
                assert(rest.contains(x));
                let m = choose|m: int| 0 <= m < tail.len() && tail[m] == x;
                assert(r[m + 1] == x);
            }
        }
        assert forall|x: CandidateView| #[trigger] r.contains(x) implies cs.contains(x) || x == c by {
            let i = choose|i: int| 0 <= i < r.len() && r[i] == x;
            if i == 0 {
                assert(cs[0] == x);
            } else {
                assert(tail[i - 1] == x);
                assert(tail.contains(x));
                if rest.contains(x) {
                    let m = choose|m: int| 0 <= m < rest.len() && rest[m] == x;
                    assert(cs[m + 1] == x);
                }
            }
        }
    }
}

/// The best of a superset of candidates is at least as good as the best of
/// the subset.
pub proof fn lemma_best_of_superset(small: Seq<CandidateView>, large: Seq<CandidateView>, p: int, q: int)
    requires
        is_best(small, p),
        is_best(large, q),
        forall|x: CandidateView| #[trigger] small.contains(x) ==> large.contains(x),
    ensures
        objective_order(large[q].objective, small[p].objective) >= 0,
{
    assert(small.contains(small[p]));
    let m = choose|m: int| 0 <= m < large.len() && large[m] == small[p];
    assert(objective_order(large[q].objective, large[m].objective) >= 0);
}

/// Each candidate's objective is that of its solution.
pub open spec fn objectives_match(instance: PackingInstance, cs: Seq<CandidateView>) -> bool {
    forall|i: int|
        0 <= i < cs.len() ==> (#[trigger] cs[i]).objective == objective_of(summary_spec(instance, cs[i].solution))
}

/// Publishing keeps every candidate, adds the new one, and keeps each
/// objective that of its solution.
proof fn lemma_publish_keeps(
    instance: PackingInstance,
    old_cs: Seq<CandidateView>,
    c: CandidateView,
    new_cs: Seq<CandidateView>,
)
    requires
        new_cs == insert_by_index(old_cs, c),
        objectives_match(instance, old_cs),
        c.objective == objective_of(summary_spec(instance, c.solution)),
    ensures
        objectives_match(instance, new_cs),
        new_cs.contains(c),
        forall|x: CandidateView| #[trigger] old_cs.contains(x) ==> new_cs.contains(x),
{
    lemma_insert_by_index_contents(old_cs, c);
    assert forall|i: int| 0 <= i < new_cs.len() implies (#[trigger] new_cs[i]).objective == objective_of(
        summary_spec(instance, new_cs[i].solution),
    ) by {
        assert(new_cs.contains(new_cs[i]));
        if new_cs[i] != c {
            assert(old_cs.contains(new_cs[i]));
            let k = choose|k: int| 0 <= k < old_cs.len() && old_cs[k] == new_cs[i];
        }
    }
}

/// Candidate `c` is an outcome of work unit `u`: a construction with the
/// unit's plan that is greedy up to where it stopped, and, where it did not
/// stop, the construction that the plan determines.
pub open spec fn unit_outcome(instance: PackingInstance, u: WorkUnit, c: CandidateView) -> bool {
    &&& c.index == u.index
    &&& exists|ids: Seq<ItemId>, forced: Seq<(ItemId, usize)>, cut: int|
        plan_of_order(instance, u.item_order, ids, forced) && #[trigger] greedy_up_to(
            instance,
            item_positions(ids),
            forced,
            c.solution,
            cut,
        ) && (cut == ids.len() ==> completed(instance, u, c))
}

/// Candidate `c` is work unit `u` run to the end: the construction that the
/// unit's plan determines, with the tries it explores.
pub open spec fn completed(instance: PackingInstance, u: WorkUnit, c: CandidateView) -> bool {
    &&& c.index == u.index
    &&& exists|ids: Seq<ItemId>, forced: Seq<(ItemId, usize)>|
        #[trigger] plan_of_order(instance, u.item_order, ids, forced) && c.solution == construction_result(
            instance,
            item_positions(ids),
            forced,
        ) && c.explored == construction_explored(instance, item_positions(ids), forced, ids.len() as nat)
}

/// Work unit `index` of a portfolio with seed `seed`: the canonical unit
/// first, then the seeded ones.
pub open spec fn unit_of(seed: u64, index: nat) -> WorkUnit {
    if index == 0 {
        WorkUnit { index: 0, item_order: ItemOrder::Canonical }
    } else {
        work_unit_spec(seed, index)
    }
}

/// `cs` holds, in work-index order, every work unit below `n` of a
/// portfolio with seed `seed`, each run to the end.
pub open spec fn complete_candidates(instance: PackingInstance, seed: u64, n: nat, cs: Seq<CandidateView>) -> bool {
    &&& cs.len() == n
    &&& objectives_match(instance, cs)
    &&& forall|i: int| 0 <= i < n ==> completed(instance, unit_of(seed, i as nat), #[trigger] cs[i])
}

/// Two runs of a portfolio with the same seed and the same number of work
/// units, each of whose units ran to the end, give the same answer and the
/// same explored, validated and improvement counts, whatever the thread
/// counts were.
pub proof fn lemma_complete_runs_agree(
    instance: PackingInstance,
    seed: u64,
    n: nat,
    cs1: Seq<CandidateView>,
    p1: int,
    cs2: Seq<CandidateView>,
    p2: int,
)
    requires
        instance.wf(),
        n <= usize::MAX,
        complete_candidates(instance, seed, n, cs1),
        complete_candidates(instance, seed, n, cs2),
        is_best(cs1, p1),
        is_best(cs2, p2),
    ensures
        cs1[p1].solution == cs2[p2].solution,
        explored_total(cs1) == explored_total(cs2),
        cs1.len() == cs2.len(),
        improvement_count(cs1) == improvement_count(cs2),
{
    assert forall|i: int| 0 <= i < n implies cs1[i] == cs2[i] by {
        let u = unit_of(seed, i as nat);
        assert(completed(instance, u, cs1[i]));
        assert(completed(instance, u, cs2[i]));
        lemma_completed_unique(instance, u, cs1[i], cs2[i]);
    }
    assert(cs1 =~= cs2);
    assert(indices_increasing(cs1)) by {
        assert forall|i: int, j: int| 0 <= i < j < cs1.len() implies #[trigger] cs1[i].index < #[trigger] cs1[j].index by {
            assert(completed(instance, unit_of(seed, i as nat), cs1[i]));
            assert(completed(instance, unit_of(seed, j as nat), cs1[j]));
        }
    }
    lemma_best_unique(cs1, p1, p2);
}

/// Two completed runs of one work unit give the same candidate.
proof fn lemma_completed_unique(instance: PackingInstance, u: WorkUnit, c1: CandidateView, c2: CandidateView)
    requires
        instance.wf(),
        completed(instance, u, c1),
        completed(instance, u, c2),
        c1.objective == objective_of(summary_spec(instance, c1.solution)),
        c2.objective == objective_of(summary_spec(instance, c2.solution)),
    ensures
        c1 == c2,
{
    let (ids1, f1) = choose|ids: Seq<ItemId>, forced: Seq<(ItemId, usize)>|
        #[trigger] plan_of_order(instance, u.item_order, ids, forced) && c1.solution == construction_result(
            instance,
            item_positions(ids),
            forced,
        ) && c1.explored == construction_explored(instance, item_positions(ids), forced, ids.len() as nat);
    let (ids2, f2) = choose|ids: Seq<ItemId>, forced: Seq<(ItemId, usize)>|
        #[trigger] plan_of_order(instance, u.item_order, ids, forced) && c2.solution == construction_result(
            instance,
            item_positions(ids),
            forced,
        ) && c2.explored == construction_explored(instance, item_positions(ids), forced, ids.len() as nat);
    lemma_plan_of_order_unique(instance, u.item_order, ids1, f1, ids2, f2);
}

/// More work units never give a worse answer: of two completed runs with
/// the same seed, the one with at least as many work units has a best
/// objective at least as good.
pub proof fn lemma_more_work_never_worse(
    instance: PackingInstance,
    seed: u64,
    n1: nat,
    cs1: Seq<CandidateView>,
    p1: int,
    n2: nat,
    cs2: Seq<CandidateView>,
    p2: int,
)
    requires
        instance.wf(),
        n1 <= n2,
        complete_candidates(instance, seed, n1, cs1),
        complete_candidates(instance, seed, n2, cs2),
        is_best(cs1, p1),
        is_best(cs2, p2),
    ensures
        objective_order(cs2[p2].objective, cs1[p1].objective) >= 0,
{
    assert forall|x: CandidateView| #[trigger] cs1.contains(x) implies cs2.contains(x) by {
        let i = choose|i: int| 0 <= i < cs1.len() && cs1[i] == x;
        let u = unit_of(seed, i as nat);
        assert(completed(instance, u, cs1[i]));
        assert(completed(instance, u, cs2[i]));
        lemma_completed_unique(instance, u, cs1[i], cs2[i]);
        assert(cs2[i] == x);
    }
    lemma_best_of_superset(cs1, cs2, p1, p2);
}

/// `outcome` is a portfolio answer of `n` work units with seed `seed` in
/// which every work unit ran to the end: the best of their candidates, with
/// their explored total, their number and their improvement count.
pub open spec fn complete_answer(instance: PackingInstance, n: nat, seed: u64, outcome: SolverOutcome) -> bool {
    exists|cs: Seq<CandidateView>, p: int|
        #![trigger is_best(cs, p)]
        {
            &&& complete_candidates(instance, seed, n, cs)
            &&& is_best(cs, p)
            &&& outcome.solution_spec()@ == cs[p].solution
            &&& outcome.metrics_spec()@.0 == explored_total(cs)
            &&& outcome.metrics_spec()@.1 == cs.len()
            &&& outcome.metrics_spec()@.2 == improvement_count(cs)
        }
}

/// Results do not depend on the thread count: two answers of a portfolio
/// with the same seed and number of work units, each unit run to the end,
/// have the same solution and the same explored, validated and improvement
/// counts, however the units were spread over threads.
pub proof fn lemma_complete_answers_agree(
    instance: PackingInstance,
    n: nat,
    seed: u64,
    first: SolverOutcome,
    second: SolverOutcome,
)
    requires
        instance.wf(),
        n <= usize::MAX,
        complete_answer(instance, n, seed, first),
        complete_answer(instance, n, seed, second),
    ensures
        first.solution_spec()@ == second.solution_spec()@,
        first.metrics_spec()@.0 == second.metrics_spec()@.0,
        first.metrics_spec()@.1 == second.metrics_spec()@.1,
        first.metrics_spec()@.2 == second.metrics_spec()@.2,
{
    let (cs1, p1) = choose|cs: Seq<CandidateView>, p: int|
        #![trigger is_best(cs, p)]
        {
            &&& complete_candidates(instance, seed, n, cs)
            &&& is_best(cs, p)
            &&& first.solution_spec()@ == cs[p].solution
            &&& first.metrics_spec()@.0 == explored_total(cs)
            &&& first.metrics_spec()@.1 == cs.len()
            &&& first.metrics_spec()@.2 == improvement_count(cs)
        };
    let (cs2, p2) = choose|cs: Seq<CandidateView>, p: int|
        #![trigger is_best(cs, p)]
        {
            &&& complete_candidates(instance, seed, n, cs)
            &&& is_best(cs, p)
            &&& second.solution_spec()@ == cs[p].solution
            &&& second.metrics_spec()@.0 == explored_total(cs)
            &&& second.metrics_spec()@.1 == cs.len()
            &&& second.metrics_spec()@.2 == improvement_count(cs)
        };
    lemma_complete_runs_agree(instance, seed, n, cs1, p1, cs2, p2);
}

/// More work units never give a worse answer: of two answers of a
/// portfolio with the same seed, each unit run to the end, the one with at
/// least as many work units has an objective at least as good.
pub proof fn lemma_more_work_answer_never_worse(
    instance: PackingInstance,
    seed: u64,
    n1: nat,
    first: SolverOutcome,
    n2: nat,
    second: SolverOutcome,
)
    requires
        instance.wf(),
        n1 <= n2,
        complete_answer(instance, n1, seed, first),
        complete_answer(instance, n2, seed, second),
    ensures
        objective_order(
            objective_of(summary_spec(instance, second.solution_spec()@)),
            objective_of(summary_spec(instance, first.solution_spec()@)),
        ) >= 0,
{
    let (cs1, p1) = choose|cs: Seq<CandidateView>, p: int|
        #![trigger is_best(cs, p)]
        {
            &&& complete_candidates(instance, seed, n1, cs)
            &&& is_best(cs, p)
            &&& first.solution_spec()@ == cs[p].solution
            &&& first.metrics_spec()@.0 == explored_total(cs)
            &&& first.metrics_spec()@.1 == cs.len()
            &&& first.metrics_spec()@.2 == improvement_count(cs)
        };
    let (cs2, p2) = choose|cs: Seq<CandidateView>, p: int|
        #![trigger is_best(cs, p)]
        {
            &&& complete_candidates(instance, seed, n2, cs)
            &&& is_best(cs, p)
            &&& second.solution_spec()@ == cs[p].solution
            &&& second.metrics_spec()@.0 == explored_total(cs)
            &&& second.metrics_spec()@.1 == cs.len()
            &&& second.metrics_spec()@.2 == improvement_count(cs)
        };
    lemma_more_work_never_worse(instance, seed, n1, cs1, p1, n2, cs2, p2);
    assert(cs1[p1].objective == objective_of(summary_spec(instance, cs1[p1].solution)));
    assert(cs2[p2].objective == objective_of(summary_spec(instance, cs2[p2].solution)));
}

/// The candidates after publishing `pubs` in turn, each placed by work
/// index.
pub open spec fn published(pubs: Seq<CandidateView>) -> Seq<CandidateView>
    decreases pubs.len(),
{
    if pubs.len() == 0 {
        Seq::empty()
    } else {
        insert_by_index(published(pubs.drop_last()), pubs.last())
    }
}

/// No two candidates share a work index.
pub open spec fn distinct_indices(pubs: Seq<CandidateView>) -> bool {
    forall|i: int, j: int| 0 <= i < j < pubs.len() ==> #[trigger] pubs[i].index != #[trigger] pubs[j].index
}

/// Inserting a candidate of a new work index keeps the order by work index.
proof fn lemma_insert_keeps_increasing(cs: Seq<CandidateView>, c: CandidateView)
    requires
        indices_increasing(cs),
        forall|i: int| 0 <= i < cs.len() ==> #[trigger] cs[i].index != c.index,
    ensures
        indices_increasing(insert_by_index(cs, c)),
    decreases cs.len(),
{
    let r = insert_by_index(cs, c);
    if cs.len() == 0 {
    } else if c.index < cs[0].index {
        assert forall|i: int, j: int| 0 <= i < j < r.len() implies #[trigger] r[i].index < #[trigger] r[j].index by {
            if i > 0 {
                assert(r[i] == cs[i - 1] && r[j] == cs[j - 1]);
            } else {
                assert(r[j] == cs[j - 1]);
                assert(cs[0].index <= cs[j - 1].index);
            }
        }
    } else {
        let rest = cs.drop_first();
        assert forall|i: int| 0 <= i < rest.len() implies #[trigger] rest[i].index != c.index by {
            assert(rest[i] == cs[i + 1]);
        }
        lemma_insert_keeps_increasing(rest, c);
        lemma_insert_by_index_contents(rest, c);
        let tail = insert_by_index(rest, c);
        assert(r == seq![cs[0]] + tail);
        assert forall|i: int, j: int| 0 <= i < j < r.len() implies #[trigger] r[i].index < #[trigger] r[j].index by {
            if i > 0 {
                assert(r[i] == tail[i - 1] && r[j] == tail[j - 1]);
            } else {
                assert(r[j] == tail[j - 1]);
                assert(tail.contains(tail[j - 1]));
                if rest.contains(tail[j - 1]) {
                    let m = choose|m: int| 0 <= m < rest.len() && rest[m] == tail[j - 1];
                    assert(cs[m + 1] == rest[m]);
                }
            }
        }
    }
}

/// Publishing candidates of distinct work units keeps them ordered by work
/// index and keeps exactly the candidates published.
proof fn lemma_published(pubs: Seq<CandidateView>)
    requires
        distinct_indices(pubs),
    ensures
        indices_increasing(published(pubs)),
        published(pubs).to_set() == pubs.to_set(),
    decreases pubs.len(),
{
    if pubs.len() == 0 {
        assert(published(pubs).to_set() =~= pubs.to_set());
    } else {
        let front = pubs.drop_last();
        let c = pubs.last();
        assert(distinct_indices(front)) by {
            assert forall|i: int, j: int| 0 <= i < j < front.len() implies #[trigger] front[i].index
                != #[trigger] front[j].index by {
                assert(front[i] == pubs[i] && front[j] == pubs[j]);
            }
        }
        lemma_published(front);
        let before = published(front);
        assert forall|i: int| 0 <= i < before.len() implies #[trigger] before[i].index != c.index by {
            assert(before.to_set().contains(before[i]));
            assert(front.to_set().contains(before[i]));
            let m = choose|m: int| 0 <= m < front.len() && front[m] == before[i];
            assert(pubs[m] == front[m]);
            assert(pubs[pubs.len() - 1] == c);
        }
        lemma_insert_keeps_increasing(before, c);
        lemma_insert_by_index_contents(before, c);
        let after = published(pubs);
        assert forall|x: CandidateView| after.to_set().contains(x) <==> pubs.to_set().contains(x) by {
            if after.contains(x) {
                if before.contains(x) {
                    assert(front.to_set().contains(x));
                    let m = choose|m: int| 0 <= m < front.len() && front[m] == x;
                    assert(pubs[m] == x);
                } else {
                    assert(pubs[pubs.len() - 1] == x);
                }
            }
            if pubs.contains(x) {
                let m = choose|m: int| 0 <= m < pubs.len() && pubs[m] == x;
                if m < pubs.len() - 1 {
                    assert(front[m] == x);
                    assert(front.to_set().contains(x));
                    assert(before.to_set().contains(x));
                } else {
                    assert(x == c);
                }
            }
        }
        assert(after.to_set() =~= pubs.to_set());
    }
}

/// Publishing the same candidates of distinct work units in any order
/// leaves the same candidates in the same order, and so the same best.
pub proof fn lemma_publish_order_irrelevant(
    pubs1: Seq<CandidateView>,
    pubs2: Seq<CandidateView>,
    p1: int,
    p2: int,
)
    requires
        distinct_indices(pubs1),
        distinct_indices(pubs2),
        pubs1.to_set() == pubs2.to_set(),
        is_best(published(pubs1), p1),
        is_best(published(pubs2), p2),
    ensures
        published(pubs1) == published(pubs2),
        published(pubs1)[p1] == published(pubs2)[p2],
{
    lemma_published(pubs1);
    lemma_published(pubs2);
    lemma_increasing_unique(published(pubs1), published(pubs2));
    lemma_best_unique(published(pubs1), p1, p2);
}

/// `outcome` is the answer of a portfolio of `n` work units with seed
/// `seed`: of some validated outcomes of its units, in work-index order and
/// starting with the canonical unit, the one with the best objective (the
/// smallest work index among equals), with the total of their explored
/// tries, their number, and the number of them that improved on every
/// earlier one.
pub open spec fn portfolio_answer(instance: PackingInstance, n: nat, seed: u64, outcome: SolverOutcome) -> bool {
    exists|cs: Seq<CandidateView>, p: int|
        #![trigger is_best(cs, p)]
        {
            &&& indices_increasing(cs)
            &&& objectives_match(instance, cs)
            &&& all_valid(instance, cs)
            &&& is_best(cs, p)
            &&& outcome.solution_spec()@ == cs[p].solution
            &&& unit_outcome(instance, unit_of(seed, 0), cs[0])
            &&& forall|i: int|
                0 < i < cs.len() ==> 0 < (#[trigger] cs[i]).index < n && unit_outcome(
                    instance,
                    unit_of(seed, cs[i].index as nat),
                    cs[i],
                )
            &&& outcome.metrics_spec()@.0 == explored_total(cs)
            &&& outcome.metrics_spec()@.1 == cs.len()
            &&& outcome.metrics_spec()@.2 == improvement_count(cs)
        }
}

/// The construction of work unit `u` overflows the exact arithmetic of a
/// score or of its count of tries.
pub open spec fn unit_overflows(instance: PackingInstance, u: WorkUnit) -> bool {
    exists|ids: Seq<ItemId>, forced: Seq<(ItemId, usize)>|
        #[trigger] plan_of_order(instance, u.item_order, ids, forced) && construction_overflows(
            instance,
            item_positions(ids),
            forced,
        )
}

/// Some validated outcomes of distinct work units below `n`, in work-index
/// order, explore more than `u64::MAX` tries in total.
pub open spec fn explored_may_overflow(instance: PackingInstance, n: nat, seed: u64) -> bool {
    exists|cs: Seq<CandidateView>|
        #![trigger explored_total(cs)]
        {
            &&& indices_increasing(cs)
            &&& explored_total(cs) > u64::MAX
            &&& forall|i: int|
                0 <= i < cs.len() ==> (#[trigger] cs[i]).index < n && unit_outcome(
                    instance,
                    unit_of(seed, cs[i].index as nat),
                    cs[i],
                )
        }
}

/// The work units of the partitions have distinct positive indices.
pub open spec fn distinct_units(partitions: Seq<Seq<WorkUnit>>) -> bool {
    &&& forall|v: int, u: int|
        0 <= v < partitions.len() && 0 <= u < partitions[v].len() ==> (#[trigger] partitions[v][u]).index > 0
    &&& forall|v1: int, u1: int, v2: int, u2: int|
        0 <= v1 < partitions.len() && 0 <= u1 < partitions[v1].len() && 0 <= v2 < partitions.len() && 0 <= u2
            < partitions[v2].len() && (#[trigger] partitions[v1][u1]).index == (#[trigger] partitions[v2][u2]).index
            ==> v1 == v2 && u1 == u2
}

/// Round-robin partitions deal units of distinct positive indices.
proof fn lemma_plan_units_distinct(partitions: Seq<Seq<WorkUnit>>, seed: u64, n: nat, k: nat)
    requires
        n <= usize::MAX,
        partitions_spec(partitions, seed, n, k),
    ensures
        distinct_units(partitions),
{
    assert forall|v: int, u: int| 0 <= v < partitions.len() && 0 <= u < partitions[v].len() implies (#[trigger] partitions[
        v][u]).index > 0 by {
        assert(u * k >= 0) by (nonlinear_arith)
            requires
                u >= 0,
                k >= 0,
        ;
        assert(partitions[v][u] == work_unit_spec(seed, (1 + v + u * k) as nat));
    }
    assert forall|v1: int, u1: int, v2: int, u2: int|
        0 <= v1 < partitions.len() && 0 <= u1 < partitions[v1].len() && 0 <= v2 < partitions.len() && 0 <= u2
            < partitions[v2].len() && (#[trigger] partitions[v1][u1]).index == (#[trigger] partitions[v2][u2]).index
        implies v1 == v2 && u1 == u2 by {
        lemma_index_unique(partitions, seed, n, k, v1, u1, v2, u2);
    }
}

/// The sum of the counts.
pub open spec fn runs_total(runs: Seq<int>) -> int
    decreases runs.len(),
{
    if runs.len() == 0 {
        0
    } else {
        runs_total(runs.drop_last()) + runs.last()
    }
}

/// Some candidate of `cs` is an outcome of work unit `u`.
pub open spec fn has_outcome(instance: PackingInstance, u: WorkUnit, cs: Seq<CandidateView>) -> bool {
    exists|x: CandidateView| cs.contains(x) && #[trigger] unit_outcome(instance, u, x)
}

/// Of each partition, the first `runs[w]` work units ran: each added one
/// outcome of its own to the candidates `before`, giving `after`, and
/// nothing else was added.
pub open spec fn runs_prefixes(
    instance: PackingInstance,
    partitions: Seq<Vec<WorkUnit>>,
    before: Seq<CandidateView>,
    after: Seq<CandidateView>,
    runs: Seq<int>,
) -> bool {
    &&& runs.len() == partitions.len()
    &&& forall|w: int| 0 <= w < runs.len() ==> 0 <= #[trigger] runs[w] <= partitions[w]@.len()
    &&& after.len() == before.len() + runs_total(runs)
    &&& forall|w: int, t: int|
        0 <= w < runs.len() && 0 <= t < runs[w] ==> has_outcome(instance, #[trigger] partitions[w]@[t], after)
    &&& forall|x: CandidateView|
        #[trigger] after.contains(x) ==> before.contains(x) || exists|w: int, t: int|
            0 <= w < runs.len() && 0 <= t < runs[w] && unit_outcome(instance, #[trigger] partitions[w]@[t], x)
}

/// Every candidate's solution is valid for `instance`.
pub open spec fn all_valid(instance: PackingInstance, cs: Seq<CandidateView>) -> bool {
    forall|i: int| 0 <= i < cs.len() ==> solution_valid(instance, #[trigger] cs[i].solution)
}

/// The best candidate is unique: the reduction does not depend on the order
/// in which candidates were published.
pub proof fn lemma_best_unique(cs: Seq<CandidateView>, p1: int, p2: int)
    requires
        indices_increasing(cs),
        is_best(cs, p1),
        is_best(cs, p2),
    ensures
        p1 == p2,
{
    lemma_objective_order(cs[p1].objective, cs[p2].objective, cs[p2].objective);
    assert(objective_order(cs[p1].objective, cs[p2].objective) >= 0);
    assert(objective_order(cs[p2].objective, cs[p1].objective) >= 0);
    if p1 < p2 {
        assert(cs[p1].index < cs[p2].index);
    } else if p2 < p1 {
        assert(cs[p2].index < cs[p1].index);
    }
}

/// Two sequences ordered by work index with the same entries are equal:
/// the candidate sequence depends only on which candidates were published.
pub proof fn lemma_increasing_unique(s1: Seq<CandidateView>, s2: Seq<CandidateView>)
    requires
        indices_increasing(s1),
        indices_increasing(s2),
        s1.to_set() == s2.to_set(),
    ensures
        s1 == s2,
    decreases s1.len(),
{
    if s1.len() == 0 {
        if s2.len() > 0 {
            assert(s2.to_set().contains(s2[0]));
        }
        assert(s1 =~= s2);
    } else {
        assert(s1.to_set().contains(s1[0]));
        assert(s2.len() > 0);
        assert(s2.to_set().contains(s2[0]));
        let i2 = choose|i: int| 0 <= i < s2.len() && s2[i] == s1[0];
        let i1 = choose|i: int| 0 <= i < s1.len() && s1[i] == s2[0];
        if i2 > 0 {
            assert(s2[0].index < s2[i2].index);
            assert(s1[0].index <= s1[i1].index);
            assert(false);
        }
        if i1 > 0 {
            assert(s1[0].index < s1[i1].index);
        }
        assert(s1[0] == s2[0]);
        let t1 = s1.drop_first();
        let t2 = s2.drop_first();
        assert forall|x: CandidateView| t1.to_set().contains(x) implies t2.to_set().contains(x) by {
            let i = choose|i: int| 0 <= i < t1.len() && t1[i] == x;
            assert(s1[i + 1] == x);
            assert(s2.to_set().contains(x));
            let j = choose|j: int| 0 <= j < s2.len() && s2[j] == x;
            if j == 0 {
                assert(s1[0].index < s1[i + 1].index);
            } else {
                assert(t2[j - 1] == x);
            }
        }
        assert forall|x: CandidateView| t2.to_set().contains(x) implies t1.to_set().contains(x) by {
            let i = choose|i: int| 0 <= i < t2.len() && t2[i] == x;
            assert(s2[i + 1] == x);
            assert(s1.to_set().contains(x));
            let j = choose|j: int| 0 <= j < s1.len() && s1[j] == x;
            if j == 0 {
                assert(s2[0].index < s2[i + 1].index);
            } else {
                assert(t1[j - 1] == x);
            }
        }
        assert(t1.to_set() =~= t2.to_set());
        lemma_increasing_unique(t1, t2);
        assert(s1 =~= seq![s1[0]] + t1);
        assert(s2 =~= seq![s2[0]] + t2);
    }
}

proof fn lemma_insert_by_index(cs: Seq<CandidateView>, c: CandidateView, pos: int)
    requires
        indices_increasing(cs),
        0 <= pos <= cs.len(),
        forall|i: int| 0 <= i < pos ==> #[trigger] cs[i].index < c.index,
        pos < cs.len() ==> c.index < cs[pos].index,
    ensures
        insert_by_index(cs, c) == cs.insert(pos, c),
        indices_increasing(cs.insert(pos, c)),
    decreases cs.len(),
{
    if cs.len() == 0 {
        assert(cs.insert(pos, c) =~= seq![c]);
    } else if pos == 0 {
        assert(cs.insert(0, c) =~= seq![c] + cs);
    } else {
        let rest = cs.drop_first();
        assert forall|i: int| 0 <= i < pos - 1 implies #[trigger] rest[i].index < c.index by {
            assert(rest[i] == cs[i + 1]);
        }
        lemma_insert_by_index(rest, c, pos - 1);
        assert(cs.insert(pos, c) =~= seq![cs[0]] + rest.insert(pos - 1, c));
    }
    let r = cs.insert(pos, c);
    assert forall|i: int, j: int| 0 <= i < j < r.len() implies #[trigger] r[i].index < #[trigger] r[j].index by {
        if j < pos {
            assert(r[i] == cs[i] && r[j] == cs[j]);
        } else if j == pos {
            assert(r[i] == cs[i]);
        } else if i == pos {
            assert(r[j] == cs[j - 1]);
            assert(c.index < cs[pos].index);
        } else if i < pos {
            assert(r[i] == cs[i] && r[j] == cs[j - 1]);
        } else {
            assert(r[i] == cs[i - 1] && r[j] == cs[j - 1]);
        }
    }
}

/// After inserting `c` at `pos`, the best is `c` when it beats the old best
/// (or ties it with a smaller work index), and the old best otherwise.
proof fn lemma_publish_best(cs: Seq<CandidateView>, c: CandidateView, pos: int, p: int, replaces: bool)
    requires
        indices_increasing(cs),
        0 <= pos <= cs.len(),
        indices_increasing(cs.insert(pos, c)),
        is_best(cs, p),
        replaces == (objective_order(c.objective, cs[p].objective) > 0 || (objective_order(
            c.objective,
            cs[p].objective,
        ) == 0 && c.index < cs[p].index)),
    ensures
        replaces ==> is_best(cs.insert(pos, c), pos),
        !replaces ==> is_best(cs.insert(pos, c), if p < pos { p } else { p + 1 }),
{
    let r = cs.insert(pos, c);
    let b = cs[p];
    if replaces {
        assert forall|q: int| 0 <= q < r.len() implies {
            &&& objective_order(r[pos].objective, #[trigger] r[q].objective) >= 0
            &&& objective_order(r[pos].objective, r[q].objective) == 0 ==> r[pos].index <= r[q].index
        } by {
            lemma_objective_order(c.objective, c.objective, c.objective);
            if q != pos {
                let q0 = if q < pos { q } else { q - 1 };
                assert(r[q] == cs[q0]);
                lemma_objective_order(c.objective, b.objective, cs[q0].objective);
                lemma_objective_order(b.objective, cs[q0].objective, cs[q0].objective);
                if objective_order(c.objective, b.objective) == 0 {
                    assert(c.objective == b.objective);
                }
            }
        }
    } else {
        let p1 = if p < pos { p } else { p + 1 };
        assert(r[p1] == b);
        lemma_objective_order(c.objective, b.objective, b.objective);
        assert forall|q: int| 0 <= q < r.len() implies {
            &&& objective_order(r[p1].objective, #[trigger] r[q].objective) >= 0
            &&& objective_order(r[p1].objective, r[q].objective) == 0 ==> r[p1].index <= r[q].index
        } by {
            if q == pos {
                assert(r[q] == c);
                if objective_order(b.objective, c.objective) == 0 {
                    assert(c.index >= b.index);
                }
            } else {
                let q0 = if q < pos { q } else { q - 1 };
                assert(r[q] == cs[q0]);
            }
        }
    }
}

/// Sum of the explored-candidate counts.
pub open spec fn explored_total(cs: Seq<CandidateView>) -> int
    decreases cs.len(),
{
    if cs.len() == 0 {
        0
    } else {
        explored_total(cs.drop_last()) + cs.last().explored
    }
}

/// `o` is strictly better than every objective in `cs`.
pub open spec fn beats_all(o: ObjectiveView, cs: Seq<CandidateView>) -> bool {
    forall|q: int| 0 <= q < cs.len() ==> objective_order(o, #[trigger] cs[q].objective) > 0
}

/// Number of candidates, in work-index order, that improve on all earlier ones.
pub open spec fn improvement_count(cs: Seq<CandidateView>) -> int
    decreases cs.len(),
{
    if cs.len() == 0 {
        0
    } else {
        improvement_count(cs.drop_last()) + if beats_all(cs.last().objective, cs.drop_last()) {
            1int
        } else {
            0
        }
    }
}

proof fn lemma_explored_monotone(cs: Seq<CandidateView>, i: int)
    requires
        0 <= i <= cs.len(),
    ensures
        explored_total(cs.take(i)) <= explored_total(cs),
    decreases cs.len() - i,
{
    if i < cs.len() {
        lemma_explored_monotone(cs, i + 1);
        assert(cs.take(i + 1).drop_last() =~= cs.take(i));
    } else {
        assert(cs.take(i) =~= cs);
    }
}

proof fn lemma_improvement_count_bound(cs: Seq<CandidateView>)
    ensures
        0 <= improvement_count(cs) <= cs.len(),
    decreases cs.len(),
{
    if cs.len() > 0 {
        lemma_improvement_count_bound(cs.drop_last());
    }
}


/// Two increasing sequences of keys with the same elements are equal.
proof fn lemma_increasing_keys_unique(s1: Seq<usize>, s2: Seq<usize>)
    requires
        forall|i: int, j: int| 0 <= i < j < s1.len() ==> s1[i] < s1[j],
        forall|i: int, j: int| 0 <= i < j < s2.len() ==> s2[i] < s2[j],
        s1.to_set() == s2.to_set(),
    ensures
        s1 == s2,
    decreases s1.len(),
{
    if s1.len() == 0 {
        if s2.len() > 0 {
            assert(s2.to_set().contains(s2[0]));
        }
        assert(s1 =~= s2);
    } else {
        assert(s1.to_set().contains(s1[0]));
        assert(s2.to_set().contains(s2[0]));
        let i2 = choose|i: int| 0 <= i < s2.len() && s2[i] == s1[0];
        let i1 = choose|i: int| 0 <= i < s1.len() && s1[i] == s2[0];
        if i2 > 0 {
            assert(s2[0] < s2[i2]);
            assert(s1[0] <= s1[i1]);
        }
        let t1 = s1.drop_first();
        let t2 = s2.drop_first();
        assert forall|x: usize| t1.to_set().contains(x) implies t2.to_set().contains(x) by {
            let i = choose|i: int| 0 <= i < t1.len() && t1[i] == x;
            assert(s1[i + 1] == x);
            assert(s2.to_set().contains(x));
            let j = choose|j: int| 0 <= j < s2.len() && s2[j] == x;
            if j == 0 {
                assert(s1[0] < s1[i + 1]);
            } else {
                assert(t2[j - 1] == x);
            }
        }
        assert forall|x: usize| t2.to_set().contains(x) implies t1.to_set().contains(x) by {
            let i = choose|i: int| 0 <= i < t2.len() && t2[i] == x;
            assert(s2[i + 1] == x);
            assert(s1.to_set().contains(x));
            let j = choose|j: int| 0 <= j < s1.len() && s1[j] == x;
            if j == 0 {
                assert(s2[0] < s2[i + 1]);
            } else {
                assert(t1[j - 1] == x);
            }
        }
        assert(t1.to_set() =~= t2.to_set());
        lemma_increasing_keys_unique(t1, t2);
        assert(s1 =~= seq![s1[0]] + t1);
        assert(s2 =~= seq![s2[0]] + t2);
    }
}

/// Keys that `BTreeMap` reports in increasing order strictly increase.
proof fn lemma_keys_increase(key_seq: Seq<usize>)
    requires
        vstd::std_specs::btree::increasing_seq(key_seq),
    ensures
        forall|i: int, j: int| 0 <= i < j < key_seq.len() ==> key_seq[i] < key_seq[j],
{
    broadcast use vstd::laws_cmp::group_laws_cmp;

    assert(vstd::laws_cmp::obeys_cmp::<usize>());
    assert forall|i: int, j: int| 0 <= i < j < key_seq.len() implies key_seq[i] < key_seq[j] by {
        assert(key_seq[i].cmp_spec(&key_seq[j]) is Less);
    }
}

/// The selected solution and the portfolio's metrics.
#[derive(Debug)]
pub struct IncumbentSnapshot {
    pub solution: Solution,
    pub explored_candidates: u64,
    pub validated_candidates: u64,
    pub improvements: u64,
}

/// Add two metric counts, failing with "`name` metric overflowed".
pub fn checked_metric_add(current: u64, addition: u64, name: &str) -> (r: Result<u64, SolverError>)
    ensures
        r matches Ok(v) ==> v == current + addition,
        r matches Err(e) ==> current + addition > u64::MAX && e@ == name@ + " metric overflowed"@,
        r is Err <==> current + addition > u64::MAX,
{
    match current.checked_add(addition) {
        Some(v) => Ok(v),
        None => Err(SolverError::from_string(name.to_owned().concat(" metric overflowed"))),
    }
}

/// The map holds exactly the candidates of `cs`, each under its work index.
spec fn map_holds(m: Map<usize, ValidatedCandidate>, cs: Seq<CandidateView>) -> bool {
    &&& forall|k: usize| #[trigger] m.dom().contains(k) <==> has_index(cs, k)
    &&& forall|i: int| 0 <= i < cs.len() ==> (#[trigger] m[cs[i].index])@ == cs[i]
}

/// Where a candidate of a new work index goes among candidates ordered by
/// work index.
proof fn lemma_insert_position(cs: Seq<CandidateView>, index: usize) -> (pos: int)
    requires
        indices_increasing(cs),
        !has_index(cs, index),
    ensures
        0 <= pos <= cs.len(),
        forall|i: int| 0 <= i < pos ==> #[trigger] cs[i].index < index,
        pos < cs.len() ==> index < cs[pos].index,
    decreases cs.len(),
{
    if cs.len() == 0 || index < cs[0].index {
        0
    } else {
        let rest = cs.drop_first();
        assert(cs[0].index != index);
        assert(!has_index(rest, index)) by {
            if has_index(rest, index) {
                let i = choose|i: int| 0 <= i < rest.len() && #[trigger] rest[i].index == index;
                assert(cs[i + 1].index == index);
            }
        }
        let p = lemma_insert_position(rest, index);
        assert forall|i: int| 0 <= i < p + 1 implies #[trigger] cs[i].index < index by {
            if i > 0 {
                assert(cs[i] == rest[i - 1]);
            }
        }
        if p < rest.len() {
            assert(cs[p + 1] == rest[p]);
        }
        p + 1
    }
}

/// The values of a map that holds `cs`, walked in key order, are the
/// candidates of `cs` in order.
proof fn lemma_values_in_order(
    m: Map<usize, ValidatedCandidate>,
    cs: Seq<CandidateView>,
    key_seq: Seq<usize>,
    values: Seq<&ValidatedCandidate>,
)
    requires
        indices_increasing(cs),
        map_holds(m, cs),
        vstd::std_specs::btree::increasing_seq(key_seq),
        key_seq.to_set() == m.dom(),
        values == key_seq.map(|i: int, k: usize| &m[k]),
    ensures
        values.len() == cs.len(),
        forall|j: int| 0 <= j < cs.len() ==> (*#[trigger] values[j])@ == cs[j],
{
    let indices = cs.map_values(|c: CandidateView| c.index);
    lemma_keys_increase(key_seq);
    assert forall|k: usize| indices.to_set().contains(k) <==> key_seq.to_set().contains(k) by {
        if indices.to_set().contains(k) {
            let i = choose|i: int| 0 <= i < indices.len() && indices[i] == k;
            assert(cs[i].index == k);
            assert(has_index(cs, k));
        }
        if key_seq.to_set().contains(k) {
            assert(m.dom().contains(k));
            let i = choose|i: int| 0 <= i < cs.len() && #[trigger] cs[i].index == k;
            assert(indices[i] == k);
        }
    }
    assert(indices.to_set() =~= key_seq.to_set());
    lemma_increasing_keys_unique(key_seq, indices);
    assert forall|j: int| 0 <= j < cs.len() implies (*#[trigger] values[j])@ == cs[j] by {
        assert(key_seq[j] == cs[j].index);
    }
}

/// Work indices, as `usize` keys, obey the ordering laws `BTreeMap` relies
/// on.
proof fn lemma_work_indices_ordered()
    ensures
        vstd::laws_cmp::obeys_cmp::<usize>(),
{
    broadcast use vstd::laws_cmp::group_laws_cmp;

}

/// Validated candidates of the work units published so far, keyed by work
/// index, and the work index of the best one.
pub struct Incumbent {
    candidates: BTreeMap<usize, ValidatedCandidate>,
    order: Ghost<Seq<CandidateView>>,
    best_work_index: Option<usize>,
}

impl Incumbent {
    /// The candidates in work-index order.
    pub closed spec fn candidates_spec(self) -> Seq<CandidateView> {
        self.order@
    }

    pub closed spec fn best_spec(self) -> Option<usize> {
        self.best_work_index
    }

    /// The map holds the candidates under their work indices.
    pub closed spec fn stored(self) -> bool {
        map_holds(self.candidates@, self.order@)
    }

    /// Candidates ordered by work index; a best work index exactly when
    /// there is a candidate, naming the best candidate.
    pub open spec fn wf(self) -> bool {
        &&& self.stored()
        &&& indices_increasing(self.candidates_spec())
        &&& (self.best_spec() is None <==> self.candidates_spec().len() == 0)
        &&& self.best_spec() matches Some(b) ==> exists|p: int|
            is_best(self.candidates_spec(), p) && #[trigger] self.candidates_spec()[p].index == b
    }

    pub fn new() -> (r: Incumbent)
        ensures
            r.wf(),
            r.candidates_spec().len() == 0,
    {
        Incumbent { candidates: BTreeMap::new(), order: Ghost(Seq::empty()), best_work_index: None }
    }

    /// Validate the outcome of work unit `work_index` and add it. Fails,
    /// leaving the incumbent unchanged, when the solution is invalid or the
    /// work unit was already published.
    pub fn publish(&mut self, instance: &PackingInstance, work_index: usize, outcome: SolverOutcome) -> (r:
        Result<(), SolverError>)
        requires
            old(self).wf(),
            all_valid(*instance, old(self).candidates_spec()),
        ensures
            final(self).wf(),
            all_valid(*instance, final(self).candidates_spec()),
            r is Ok <==> solution_valid(*instance, outcome.solution_spec()@) && !has_index(
                old(self).candidates_spec(),
                work_index,
            ),
            r is Ok ==> final(self).candidates_spec() == insert_by_index(
                old(self).candidates_spec(),
                CandidateView {
                    index: work_index,
                    objective: objective_of(summary_spec(*instance, outcome.solution_spec()@)),
                    solution: outcome.solution_spec()@,
                    explored: outcome.metrics_spec()@.0,
                },
            ),
            r is Err ==> final(self).candidates_spec() == old(self).candidates_spec(),
    {
        let ghost old_cs = self.order@;
        let ghost old_map = self.candidates@;
        proof {
            lemma_work_indices_ordered();
        }
        let summary = match validate_solution(instance, outcome.solution()) {
            Ok(summary) => summary,
            Err(_) => {
                return Err(SolverError::new("portfolio work unit produced an invalid candidate"));
            },
        };
        let objective = ObjectiveValue::from_summary(&summary);
        let explored = outcome.metrics().explored_candidates();
        if self.candidates.contains_key(&work_index) {
            assert(old_map.dom().contains(work_index));
            return Err(SolverError::new("portfolio work unit published twice"));
        }
        assert(!has_index(old_cs, work_index));
        let ghost mut pos: int = 0;
        proof {
            pos = lemma_insert_position(old_cs, work_index);
        }
        let replaces_best = match self.best_work_index {
            None => true,
            Some(best_index) => {
                let ghost p = choose|p: int| is_best(old_cs, p) && #[trigger] old_cs[p].index == best_index;
                proof {
                    assert(has_index(old_cs, best_index));
                    assert(old_map[old_cs[p].index]@ == old_cs[p]);
                }
                match self.candidates.get(&best_index) {
                    Some(best) => {
                        assert(best@ == old_cs[p]);
                        let o = objective.compare_to(&best.objective);
                        o > 0 || (o == 0 && work_index < best_index)
                    },
                    None => {
                        assert(false);
                        true
                    },
                }
            },
        };
        let candidate = ValidatedCandidate {
            index: work_index,
            objective,
            solution: outcome.into_solution(),
            explored_candidates: explored,
        };
        let ghost c = candidate@;
        let ghost old_best = self.best_work_index;
        let ghost stored_candidate = candidate;
        self.candidates.insert(work_index, candidate);
        self.order = Ghost(old_cs.insert(pos, c));
        if replaces_best {
            self.best_work_index = Some(work_index);
        }
        proof {
            let cs = self.order@;
            let m = self.candidates@;
            assert(m == old_map.insert(work_index, stored_candidate));
            lemma_insert_by_index(old_cs, c, pos);
            assert forall|k: usize| #[trigger] m.dom().contains(k) <==> has_index(cs, k) by {
                if k == work_index {
                    assert(cs[pos].index == work_index);
                } else {
                    if old_map.dom().contains(k) {
                        let i = choose|i: int| 0 <= i < old_cs.len() && #[trigger] old_cs[i].index == k;
                        if i < pos {
                            assert(cs[i] == old_cs[i]);
                        } else {
                            assert(cs[i + 1] == old_cs[i]);
                        }
                    }
                    if has_index(cs, k) {
                        let i = choose|i: int| 0 <= i < cs.len() && #[trigger] cs[i].index == k;
                        if i < pos {
                            assert(cs[i] == old_cs[i]);
                        } else if i > pos {
                            assert(cs[i] == old_cs[i - 1]);
                        }
                        assert(has_index(old_cs, k));
                    }
                }
            }
            assert forall|i: int| 0 <= i < cs.len() implies (#[trigger] m[cs[i].index])@ == cs[i] by {
                if i < pos {
                    assert(cs[i] == old_cs[i]);
                    assert(old_map[old_cs[i].index]@ == old_cs[i]);
                } else if i > pos {
                    assert(cs[i] == old_cs[i - 1]);
                    assert(old_map[old_cs[i - 1].index]@ == old_cs[i - 1]);
                }
            }
            assert(map_holds(m, cs));
            if let Some(b) = old_best {
                let p = choose|p: int| is_best(old_cs, p) && #[trigger] old_cs[p].index == b;
                lemma_publish_best(old_cs, c, pos, p, replaces_best);
                if replaces_best {
                    assert(cs[pos].index == work_index);
                } else {
                    let p1 = if p < pos { p } else { p + 1 };
                    assert(cs[p1].index == b);
                }
            } else {
                assert(old_cs.len() == 0);
                lemma_objective_order(c.objective, c.objective, c.objective);
                assert(is_best(cs, 0));
            }
            assert forall|i: int| 0 <= i < cs.len() implies solution_valid(*instance, #[trigger] cs[i].solution) by {
                if i < pos {
                    assert(cs[i] == old_cs[i]);
                } else if i > pos {
                    assert(cs[i] == old_cs[i - 1]);
                }
            }
        }
        Ok(())
    }

    /// Hand out the best candidate's solution with the totals: explored
    /// candidates summed over all candidates, one validated candidate each,
    /// and the number of candidates (in work-index order) that improved on
    /// every earlier one. Fails when nothing was published or the explored
    /// total overflows.
    pub fn into_snapshot(self) -> (r: Result<IncumbentSnapshot, SolverError>)
        requires
            self.wf(),
        ensures
            r is Err <==> self.candidates_spec().len() == 0 || explored_total(self.candidates_spec()) > u64::MAX,
            r matches Ok(snapshot) ==> {
                &&& exists|p: int|
                    is_best(self.candidates_spec(), p) && snapshot.solution@ == #[trigger] self.candidates_spec()[p].solution
                &&& snapshot.explored_candidates == explored_total(self.candidates_spec())
                &&& snapshot.validated_candidates == self.candidates_spec().len()
                &&& snapshot.improvements == improvement_count(self.candidates_spec())
            },
    {
        let ghost cs = self.candidates_spec();
        let Incumbent { mut candidates, order, best_work_index } = self;
        proof {
            lemma_work_indices_ordered();
        }
        let best_index = match best_work_index {
            None => {
                return Err(SolverError::new("portfolio produced no validated incumbent"));
            },
            Some(b) => b,
        };
        let ghost m = candidates@;
        let n = candidates.len();
        let values = candidates.values();
        proof {
            let key_seq = choose|key_seq: Seq<usize>|
                {
                    &&& vstd::std_specs::btree::increasing_seq(key_seq)
                    &&& key_seq.to_set() == m.dom()
                    &&& key_seq.no_duplicates()
                    &&& vstd::std_specs::iter::IteratorSpec::remaining(&values) == key_seq.map(
                        |i: int, k: usize| &m[k],
                    )
                };
            lemma_values_in_order(m, cs, key_seq, vstd::std_specs::iter::IteratorSpec::remaining(&values));
        }
        let mut explored: u64 = 0;
        let mut improvements: u64 = 0;
        let mut best: Option<&ObjectiveValue> = None;
        let ghost mut running_best: int = 0;
        for candidate in it: values
            invariant
                n == cs.len(),
                cs == order@,
                cs == self.candidates_spec(),
                indices_increasing(cs),
                it.seq().len() == cs.len(),
                forall|j: int| 0 <= j < cs.len() ==> (*#[trigger] it.seq()[j])@ == cs[j],
                explored == explored_total(cs.take(it.index())),
                improvements == improvement_count(cs.take(it.index())),
                improvements <= it.index(),
                it.index() == 0 <==> best is None,
                best matches Some(b) ==> {
                    &&& 0 <= running_best < it.index()
                    &&& (*b)@ == cs[running_best].objective
                    &&& is_best(cs.take(it.index()), running_best)
                },
        {
            let ghost i = it.index();
            let ghost prefix = cs.take(i);
            let ghost next = cs.take(i + 1);
            proof {
                assert(next.drop_last() =~= prefix);
                assert(next.last() == cs[i]);
                assert(candidate@ == cs[i]);
                lemma_improvement_count_bound(prefix);
            }
            explored = match checked_metric_add(explored, candidate.explored_candidates, "explored-candidate") {
                Ok(v) => v,
                Err(e) => {
                    proof {
                        assert(explored_total(next) == explored_total(prefix) + cs[i].explored);
                        lemma_explored_monotone(cs, i + 1);
                        assert(explored_total(cs) > u64::MAX);
                    }
                    return Err(e);
                },
            };
            let better = match best {
                None => true,
                Some(current) => candidate.objective.compare_to(current) > 0,
            };
            proof {
                let c = cs[i];
                if i > 0 {
                    let b = prefix[running_best];
                    assert(b == cs[running_best]);
                    if better {
                        assert forall|q: int| 0 <= q < prefix.len() implies objective_order(
                            c.objective,
                            #[trigger] prefix[q].objective,
                        ) > 0 by {
                            lemma_objective_order(c.objective, b.objective, prefix[q].objective);
                        }
                    } else {
                        assert(!beats_all(c.objective, prefix));
                    }
                }
                lemma_objective_order(c.objective, c.objective, c.objective);
                if better {
                    assert forall|q: int| 0 <= q < next.len() implies {
                        &&& objective_order(next[i].objective, #[trigger] next[q].objective) >= 0
                        &&& objective_order(next[i].objective, next[q].objective) == 0 ==> next[i].index
                            <= next[q].index
                    } by {
                        if q < i {
                            assert(next[q] == prefix[q]);
                        }
                    }
                } else {
                    let b = cs[running_best];
                    lemma_objective_order(c.objective, b.objective, b.objective);
                    assert forall|q: int| 0 <= q < next.len() implies {
                        &&& objective_order(next[running_best].objective, #[trigger] next[q].objective) >= 0
                        &&& objective_order(next[running_best].objective, next[q].objective) == 0
                            ==> next[running_best].index <= next[q].index
                    } by {
                        if q < i {
                            assert(next[q] == prefix[q]);
                        } else {
                            assert(cs[running_best].index < cs[i].index);
                        }
                    }
                }
            }
            if better {
                improvements = improvements + 1;
                best = Some(&candidate.objective);
                proof {
                    running_best = i;
                }
            }
        }
        proof {
            assert(cs.take(n as int) =~= cs);
            assert(has_index(cs, best_index));
            assert(m.dom().contains(best_index));
        }
        let chosen = match candidates.remove(&best_index) {
            Some(chosen) => chosen,
            None => {
                return Err(SolverError::new("portfolio produced no validated incumbent"));
            },
        };
        proof {
            let p = choose|p: int| is_best(cs, p) && #[trigger] cs[p].index == best_index;
            assert(m[cs[p].index]@ == cs[p]);
            assert(chosen@ == cs[p]);
            assert(explored == explored_total(cs));
            assert(improvements == improvement_count(cs));
            assert(is_best(cs, p));
            assert(chosen.solution@ == cs[p].solution);
        }
        Ok(IncumbentSnapshot {
            solution: chosen.solution,
            explored_candidates: explored,
            validated_candidates: n as u64,
            improvements,
        })
    }
}

/// Every work unit of every partition ran to the end: each added the
/// construction its plan determines to the candidates `before`, giving
/// `after`, and nothing else was added.
#[verifier::opaque]
pub open spec fn clean_run(
    instance: PackingInstance,
    partitions: Seq<Vec<WorkUnit>>,
    before: Seq<CandidateView>,
    after: Seq<CandidateView>,
) -> bool {
    &&& exists|runs: Seq<int>|
        #[trigger] runs_prefixes(instance, partitions, before, after, runs) && forall|w: int|
            0 <= w < partitions.len() ==> #[trigger] runs[w] == partitions[w]@.len()
    &&& forall|x: CandidateView|
        #[trigger] after.contains(x) ==> before.contains(x) || exists|w: int, t: int|
            0 <= w < partitions.len() && 0 <= t < partitions[w]@.len() && completed(
                instance,
                #[trigger] partitions[w]@[t],
                x,
            )
}

/// Some candidate has work index `m`.
spec fn names_index(cs: Seq<CandidateView>, m: int) -> bool {
    exists|p: int| 0 <= p < cs.len() && #[trigger] cs[p].index == m
}

/// Candidates ordered by work index, each below `n`, that name every work
/// index below `n` hold exactly the work indices `0..n`, in order.
proof fn lemma_cover_prefix(cs: Seq<CandidateView>, n: nat, j: int)
    requires
        indices_increasing(cs),
        forall|i: int| 0 <= i < cs.len() ==> (#[trigger] cs[i]).index < n,
        forall|m: int| 0 <= m < n ==> #[trigger] names_index(cs, m),
        0 <= j < n,
    ensures
        forall|q: int| 0 <= q <= j ==> q < cs.len() && #[trigger] cs[q].index == q,
    decreases j,
{
    if j > 0 {
        lemma_cover_prefix(cs, n, j - 1);
    }
    assert(names_index(cs, j));
    let p = choose|p: int| 0 <= p < cs.len() && #[trigger] cs[p].index == j;
    if p < j {
        assert(cs[p].index == p);
    } else if p > j {
        assert(cs[j].index < cs[p].index);
        if j > 0 {
            assert(cs[j - 1].index < cs[j].index);
        }
    }
}

/// A portfolio run in which the canonical unit and every seeded unit ran to
/// the end holds, in work-index order, exactly the completed work units
/// below `n`.
proof fn lemma_clean_portfolio_complete(
    instance: PackingInstance,
    seed: u64,
    n: nat,
    k: nat,
    partitions: Seq<Vec<WorkUnit>>,
    start: Seq<CandidateView>,
    cs: Seq<CandidateView>,
    c0: CandidateView,
)
    requires
        1 <= n <= usize::MAX,
        partitions_spec(partition_views(partitions), seed, n, k),
        k > 0 || n == 1,
        start == seq![c0],
        completed(instance, unit_of(seed, 0), c0),
        clean_run(instance, partitions, start, cs),
        indices_increasing(cs),
        objectives_match(instance, cs),
        forall|i: int| 0 <= i < cs.len() ==> (#[trigger] cs[i]).index < n,
        cs.contains(c0),
    ensures
        complete_candidates(instance, seed, n, cs),
{
    reveal(clean_run);
    let parts = partition_views(partitions);
    let runs = choose|runs: Seq<int>|
        #[trigger] runs_prefixes(instance, partitions, start, cs, runs) && forall|w: int|
            0 <= w < partitions.len() ==> #[trigger] runs[w] == partitions[w]@.len();
    assert forall|m: int| 0 <= m < n implies #[trigger] names_index(cs, m) by {
        if m == 0 {
            let p = choose|p: int| 0 <= p < cs.len() && cs[p] == c0;
            assert(cs[p].index == 0);
        } else {
            let (w, t) = lemma_index_dealt(parts, seed, n, k, m as nat);
            assert(parts[w] == partitions[w]@);
            assert(runs[w] == partitions[w]@.len());
            assert(has_outcome(instance, partitions[w]@[t], cs));
            let x = choose|x: CandidateView| cs.contains(x) && #[trigger] unit_outcome(instance, partitions[w]@[t], x);
            let p = choose|p: int| 0 <= p < cs.len() && cs[p] == x;
            assert(cs[p].index == m);
        }
    }
    let last: int = n - 1;
    lemma_cover_prefix(cs, n, last);
    assert(cs[last].index == last);
    assert(last < cs.len());
    if cs.len() > n {
        assert(cs[n - 1].index < cs[n as int].index);
    }
    assert(cs.len() == n);
    assert forall|i: int| 0 <= i < n implies completed(instance, unit_of(seed, i as nat), #[trigger] cs[i]) by {
        assert(cs.contains(cs[i]));
        assert(cs[i].index == i);
        if start.contains(cs[i]) {
            assert(cs[i] == c0);
            assert(c0.index == 0);
        } else {
            let (w, t) = choose|w: int, t: int|
                0 <= w < partitions.len() && 0 <= t < partitions[w]@.len() && completed(
                    instance,
                    #[trigger] partitions[w]@[t],
                    cs[i],
                );
            assert(parts[w] == partitions[w]@);
            let kk: int = k as int;
            assert(t * kk >= 0) by (nonlinear_arith)
                requires
                    t >= 0,
                    kk >= 0,
            ;
            assert(parts[w][t] == work_unit_spec(seed, (1 + w + t * kk) as nat));
            assert(i == 1 + w + t * kk);
        }
    }
}

/// Run the seeded work units, one partition after another and each
/// partition in order, publishing every outcome; a partition stops early
/// once the request should stop. On a failure the request is cancelled and
/// the failure returned.
pub fn execute_seeded_partitions(
    instance: &PackingInstance,
    request: &SolveRequest,
    partitions: &Vec<Vec<WorkUnit>>,
    incumbent: &mut Incumbent,
) -> (r: Result<Option<StopSignal>, SolverError>)
    requires
        old(incumbent).wf(),
        all_valid(*instance, old(incumbent).candidates_spec()),
        objectives_match(*instance, old(incumbent).candidates_spec()),
    ensures
        final(incumbent).wf(),
        all_valid(*instance, final(incumbent).candidates_spec()),
        objectives_match(*instance, final(incumbent).candidates_spec()),
        final(incumbent).candidates_spec().len() >= old(incumbent).candidates_spec().len(),
        forall|x: CandidateView|
            #[trigger] old(incumbent).candidates_spec().contains(x) ==> final(incumbent).candidates_spec().contains(x),
        forall|x: CandidateView|
            #[trigger] final(incumbent).candidates_spec().contains(x) ==> old(incumbent).candidates_spec().contains(x)
                || exists|w: int, t: int|
                0 <= w < partitions@.len() && 0 <= t < partitions@[w]@.len() && unit_outcome(
                    *instance,
                    #[trigger] partitions@[w]@[t],
                    x,
                ),
        distinct_units(partition_views(partitions@)) && (forall|i: int|
            0 <= i < old(incumbent).candidates_spec().len() ==> (#[trigger] old(incumbent).candidates_spec()[i]).index
                == 0) ==> (r is Err ==> exists|w: int, t: int|
            0 <= w < partitions@.len() && 0 <= t < partitions@[w]@.len() && #[trigger] unit_overflows(
                *instance,
                partitions@[w]@[t],
            )),
        r is Ok ==> exists|runs: Seq<int>|
            #[trigger] runs_prefixes(
                *instance,
                partitions@,
                old(incumbent).candidates_spec(),
                final(incumbent).candidates_spec(),
                runs,
            ),
        r matches Ok(stop) ==> (stop is None ==> clean_run(
            *instance,
            partitions@,
            old(incumbent).candidates_spec(),
            final(incumbent).candidates_spec(),
        )),
{
    let ghost start = incumbent.candidates_spec();
    let ghost mut runs: Seq<int> = Seq::empty();
    let ghost mut ran: Seq<Seq<CandidateView>> = Seq::empty();
    let ghost fresh = distinct_units(partition_views(partitions@)) && (forall|i: int|
        0 <= i < start.len() ==> (#[trigger] start[i]).index == 0);
    let mut signal: Option<StopSignal> = None;
    let mut w: usize = 0;
    while w < partitions.len()
        invariant
            incumbent.wf(),
            all_valid(*instance, incumbent.candidates_spec()),
            objectives_match(*instance, incumbent.candidates_spec()),
            incumbent.candidates_spec().len() >= start.len(),
            start == old(incumbent).candidates_spec(),
            forall|x: CandidateView| #[trigger] start.contains(x) ==> incumbent.candidates_spec().contains(x),
            forall|x: CandidateView|
                #[trigger] incumbent.candidates_spec().contains(x) ==> start.contains(x) || exists|v: int, u: int|
                    0 <= v < w && 0 <= u < runs[v] && x == #[trigger] ran[v][u],
            0 <= w <= partitions@.len(),
            runs.len() == w,
            ran.len() == w,
            forall|v: int| 0 <= v < w ==> #[trigger] runs[v] == ran[v].len() && runs[v] <= partitions@[v]@.len(),
            forall|v: int, u: int|
                0 <= v < w && 0 <= u < runs[v] ==> incumbent.candidates_spec().contains(#[trigger] ran[v][u])
                    && unit_outcome(*instance, partitions@[v]@[u], ran[v][u]),
            incumbent.candidates_spec().len() == start.len() + runs_total(runs),
            fresh == (distinct_units(partition_views(partitions@)) && (forall|i: int|
                0 <= i < start.len() ==> (#[trigger] start[i]).index == 0)),
            signal is None ==> forall|v: int| 0 <= v < w ==> #[trigger] runs[v] == partitions@[v]@.len(),
            signal is None ==> forall|v: int, u: int|
                0 <= v < w && 0 <= u < runs[v] ==> completed(*instance, partitions@[v]@[u], #[trigger] ran[v][u]),
        decreases partitions@.len() - w,
    {
        let partition = &partitions[w];
        let mut t: usize = 0;
        let ghost mut row: Seq<CandidateView> = Seq::empty();
        while t < partition.len()
            invariant
                incumbent.wf(),
                all_valid(*instance, incumbent.candidates_spec()),
                objectives_match(*instance, incumbent.candidates_spec()),
                incumbent.candidates_spec().len() >= start.len(),
                start == old(incumbent).candidates_spec(),
                forall|x: CandidateView| #[trigger] start.contains(x) ==> incumbent.candidates_spec().contains(x),
                *partition == partitions@[w as int],
                0 <= w < partitions@.len(),
                forall|x: CandidateView|
                    #[trigger] incumbent.candidates_spec().contains(x) ==> start.contains(x) || (exists|v: int, u: int|
                        0 <= v < w && 0 <= u < runs[v] && x == #[trigger] ran[v][u]) || (exists|u: int|
                        0 <= u < t && x == #[trigger] row[u]),
                0 <= t <= partition@.len(),
                runs.len() == w,
                ran.len() == w,
                forall|v: int| 0 <= v < w ==> #[trigger] runs[v] == ran[v].len() && runs[v] <= partitions@[v]@.len(),
                forall|v: int, u: int|
                    0 <= v < w && 0 <= u < runs[v] ==> incumbent.candidates_spec().contains(#[trigger] ran[v][u])
                        && unit_outcome(*instance, partitions@[v]@[u], ran[v][u]),
                row.len() == t,
                forall|u: int|
                    0 <= u < t ==> incumbent.candidates_spec().contains(#[trigger] row[u]) && unit_outcome(
                        *instance,
                        partitions@[w as int]@[u],
                        row[u],
                    ),
                incumbent.candidates_spec().len() == start.len() + runs_total(runs) + t,
                fresh == (distinct_units(partition_views(partitions@)) && (forall|i: int|
                    0 <= i < start.len() ==> (#[trigger] start[i]).index == 0)),
                signal is None ==> forall|v: int| 0 <= v < w ==> #[trigger] runs[v] == partitions@[v]@.len(),
                signal is None ==> forall|v: int, u: int|
                    0 <= v < w && 0 <= u < runs[v] ==> completed(*instance, partitions@[v]@[u], #[trigger] ran[v][u]),
                signal is None ==> forall|u: int|
                    0 <= u < t ==> completed(*instance, partitions@[w as int]@[u], #[trigger] row[u]),
            ensures
                signal is None ==> t == partition@.len(),
            decreases partition@.len() - t,
        {
            if let Some(given) = request.stop_signal() {
                signal = Some(given);
                break;
            }
            let work = partition[t];
            assert(partitions@[w as int]@[t as int] == work);
            let outcome = match solve_with_item_order(instance, request, work.item_order) {
                Ok(outcome) => outcome,
                Err(e) => {
                    proof {
                        let (ids, forced) = choose|ids: Seq<ItemId>, forced: Seq<(ItemId, usize)>|
                            plan_of_order(*instance, work.item_order, ids, forced) && #[trigger] construction_overflows(
                                *instance,
                                item_positions(ids),
                                forced,
                            );
                        assert(unit_overflows(*instance, partitions@[w as int]@[t as int]));
                    }
                    request.cancellation().cancel();
                    return Err(e);
                },
            };
            let unit_stop = outcome.stop_signal();
            let ghost unit_clean = !outcome.stopped_spec();
            if let Some(given) = unit_stop {
                signal = Some(given);
            }
            let ghost before = incumbent.candidates_spec();
            match incumbent.publish(instance, work.index, outcome) {
                Ok(()) => {},
                Err(e) => {
                    proof {
                        if fresh {
                            let views = partition_views(partitions@);
                            assert(views[w as int] == partitions@[w as int]@);
                            assert(work.index > 0);
                            if has_index(before, work.index) {
                                let i = choose|i: int| 0 <= i < before.len() && #[trigger] before[i].index == work.index;
                                assert(before.contains(before[i]));
                                if start.contains(before[i]) {
                                    let j = choose|j: int| 0 <= j < start.len() && start[j] == before[i];
                                    assert(start[j].index == 0);
                                } else if exists|v: int, u: int| 0 <= v < w && 0 <= u < runs[v] && before[i] == #[trigger] ran[v][u] {
                                    let (v, u) = choose|v: int, u: int|
                                        0 <= v < w && 0 <= u < runs[v] && before[i] == #[trigger] ran[v][u];
                                    assert(unit_outcome(*instance, partitions@[v]@[u], ran[v][u]));
                                    assert(views[v] == partitions@[v]@);
                                    assert(views[v][u].index == views[w as int][t as int].index);
                                } else {
                                    let u = choose|u: int| 0 <= u < t && before[i] == #[trigger] row[u];
                                    assert(unit_outcome(*instance, partitions@[w as int]@[u], row[u]));
                                    assert(views[w as int][u].index == views[w as int][t as int].index);
                                }
                            }
                            assert(false);
                        }
                    }
                    request.cancellation().cancel();
                    return Err(e);
                },
            }
            proof {
                lemma_insert_by_index_len(before, incumbent.candidates_spec());
                let c = CandidateView {
                    index: work.index,
                    objective: objective_of(summary_spec(*instance, outcome.solution_spec()@)),
                    solution: outcome.solution_spec()@,
                    explored: outcome.metrics_spec()@.0,
                };
                lemma_publish_keeps(*instance, before, c, incumbent.candidates_spec());
                lemma_insert_by_index_contents(before, c);
                assert(partitions@[w as int]@[t as int] == work);
                let (ids, forced, cut) = choose|ids: Seq<ItemId>, forced: Seq<(ItemId, usize)>, cut: int|
                    plan_of_order(*instance, work.item_order, ids, forced) && #[trigger] greedy_up_to(
                        *instance,
                        item_positions(ids),
                        forced,
                        outcome.solution_spec()@,
                        cut,
                    );
                assert(unit_outcome(*instance, partitions@[w as int]@[t as int], c));
                if unit_clean {
                    let (ids1, forced1) = choose|ids: Seq<ItemId>, forced: Seq<(ItemId, usize)>|
                        plan_of_order(*instance, work.item_order, ids, forced) && greedy_up_to(
                            *instance,
                            item_positions(ids),
                            forced,
                            outcome.solution_spec()@,
                            ids.len() as int,
                        ) && outcome.solution_spec()@ == #[trigger] construction_result(
                            *instance,
                            item_positions(ids),
                            forced,
                        ) && outcome.metrics_spec()@.0 == construction_explored(
                            *instance,
                            item_positions(ids),
                            forced,
                            ids.len() as nat,
                        );
                    assert(plan_of_order(*instance, work.item_order, ids1, forced1));
                    assert(completed(*instance, partitions@[w as int]@[t as int], c));
                }
                let after = incumbent.candidates_spec();
                let old_row = row;
                row = row.push(c);
                assert forall|u: int| 0 <= u < t + 1 implies after.contains(#[trigger] row[u]) && unit_outcome(
                    *instance,
                    partitions@[w as int]@[u],
                    row[u],
                ) by {
                    if u < t {
                        assert(row[u] == old_row[u]);
                    }
                }
                if signal is None {
                    assert forall|u: int| 0 <= u < t + 1 implies completed(
                        *instance,
                        partitions@[w as int]@[u],
                        #[trigger] row[u],
                    ) by {
                        if u < t {
                            assert(row[u] == old_row[u]);
                        }
                    }
                }
                assert forall|x: CandidateView| #[trigger] after.contains(x) implies start.contains(x) || (exists|v: int, u: int|
                    0 <= v < w && 0 <= u < runs[v] && x == #[trigger] ran[v][u]) || (exists|u: int|
                    0 <= u < t + 1 && x == #[trigger] row[u]) by {
                    if x == c {
                        assert(row[t as int] == c);
                    } else {
                        assert(before.contains(x));
                        if exists|u: int| 0 <= u < t && x == #[trigger] old_row[u] {
                            let u = choose|u: int| 0 <= u < t && x == #[trigger] old_row[u];
                            assert(row[u] == old_row[u]);
                        }
                    }
                }
            }
            t = t + 1;
        }
        proof {
            let old_runs = runs;
            let old_ran = ran;
            runs = runs.push(t as int);
            ran = ran.push(row);
            assert(runs.drop_last() =~= old_runs);
            assert forall|v: int| 0 <= v < w + 1 implies #[trigger] runs[v] == ran[v].len() && runs[v]
                <= partitions@[v]@.len() by {
                if v < w {
                    assert(runs[v] == old_runs[v] && ran[v] == old_ran[v]);
                }
            }
            assert forall|v: int, u: int| 0 <= v < w + 1 && 0 <= u < runs[v] implies incumbent.candidates_spec().contains(
                #[trigger] ran[v][u],
            ) && unit_outcome(*instance, partitions@[v]@[u], ran[v][u]) by {
                if v < w {
                    assert(runs[v] == old_runs[v] && ran[v] == old_ran[v]);
                } else {
                    assert(ran[v] == row);
                }
            }
            if signal is None {
                assert forall|v: int| 0 <= v < w + 1 implies #[trigger] runs[v] == partitions@[v]@.len() by {
                    if v < w {
                        assert(runs[v] == old_runs[v]);
                    }
                }
                assert forall|v: int, u: int| 0 <= v < w + 1 && 0 <= u < runs[v] implies completed(
                    *instance,
                    partitions@[v]@[u],
                    #[trigger] ran[v][u],
                ) by {
                    if v < w {
                        assert(runs[v] == old_runs[v] && ran[v] == old_ran[v]);
                    } else {
                        assert(ran[v] == row);
                    }
                }
            }
            assert forall|x: CandidateView| #[trigger] incumbent.candidates_spec().contains(x) implies start.contains(x)
                || exists|v: int, u: int| 0 <= v < w + 1 && 0 <= u < runs[v] && x == #[trigger] ran[v][u] by {
                if !start.contains(x) {
                    if exists|v: int, u: int| 0 <= v < w && 0 <= u < old_runs[v] && x == #[trigger] old_ran[v][u] {
                        let (v, u) = choose|v: int, u: int| 0 <= v < w && 0 <= u < old_runs[v] && x == #[trigger] old_ran[v][u];
                        assert(ran[v] == old_ran[v] && runs[v] == old_runs[v]);
                    } else {
                        let u = choose|u: int| 0 <= u < t && x == #[trigger] row[u];
                        assert(ran[w as int] == row);
                    }
                }
            }
        }
        w = w + 1;
    }
    proof {
        let after = incumbent.candidates_spec();
        assert forall|v: int, u: int| 0 <= v < runs.len() && 0 <= u < runs[v] implies has_outcome(
            *instance,
            #[trigger] partitions@[v]@[u],
            after,
        ) by {
            assert(after.contains(ran[v][u]) && unit_outcome(*instance, partitions@[v]@[u], ran[v][u]));
        }
        assert forall|x: CandidateView| #[trigger] after.contains(x) implies start.contains(x) || exists|v: int, u: int|
            0 <= v < runs.len() && 0 <= u < runs[v] && unit_outcome(*instance, #[trigger] partitions@[v]@[u], x) by {
            if !start.contains(x) {
                let (v, u) = choose|v: int, u: int| 0 <= v < w && 0 <= u < runs[v] && x == #[trigger] ran[v][u];
                assert(unit_outcome(*instance, partitions@[v]@[u], ran[v][u]));
            }
        }
        assert(runs_prefixes(*instance, partitions@, start, after, runs));
        if signal is None {
            reveal(clean_run);
            assert forall|x: CandidateView| #[trigger] after.contains(x) implies start.contains(x) || exists|v: int, u: int|
                0 <= v < partitions@.len() && 0 <= u < partitions@[v]@.len() && completed(
                    *instance,
                    #[trigger] partitions@[v]@[u],
                    x,
                ) by {
                if !start.contains(x) {
                    let (v, u) = choose|v: int, u: int| 0 <= v < w && 0 <= u < runs[v] && x == #[trigger] ran[v][u];
                    assert(completed(*instance, partitions@[v]@[u], ran[v][u]));
                }
            }
            assert(clean_run(*instance, partitions@, start, after));
        }
    }
    Ok(signal)
}

proof fn lemma_insert_by_index_len(before: Seq<CandidateView>, after: Seq<CandidateView>)
    requires
        exists|c: CandidateView| after == insert_by_index(before, c),
    ensures
        after.len() == before.len() + 1,
{
    let c = choose|c: CandidateView| after == insert_by_index(before, c);
    lemma_insert_by_index_length(before, c);
}

proof fn lemma_insert_by_index_length(cs: Seq<CandidateView>, c: CandidateView)
    ensures
        insert_by_index(cs, c).len() == cs.len() + 1,
    decreases cs.len(),
{
    if cs.len() > 0 && c.index >= cs[0].index {
        lemma_insert_by_index_length(cs.drop_first(), c);
    }
}

impl SolverBackend for PortfolioBackend {
    fn name(&self) -> (r: &str)
        ensures
            r@ == "deterministic-constructive-portfolio"@,
    {
        "deterministic-constructive-portfolio"
    }

    /// Construct the canonical work unit, then the seeded units of the work
    /// plan, and return the best validated candidate: the best objective,
    /// the smallest work index among equals. The answer is never worse than
    /// the canonical construction.
    #[verifier::rlimit(90)]
    #[verifier::spinoff_prover]
    fn solve(&self, instance: &PackingInstance, request: &SolveRequest) -> (r: Result<
        SolverOutcome,
        SolverError,
    >)
        ensures
            r matches Ok(outcome) ==> {
                &&& solution_valid(*instance, outcome.solution_spec()@)
                &&& outcome.optimality_spec() == OptimalityStatus::Heuristic
                &&& outcome.metrics_spec()@.1 >= 1
                &&& exists|canonical: (Seq<PlacementView>, Seq<usize>), ids: Seq<ItemId>, cut: int|
                    canonical_order(*instance, ids) && #[trigger] greedy_up_to(
                        *instance,
                        item_positions(ids),
                        Seq::empty(),
                        canonical,
                        cut,
                    ) && objective_order(
                        objective_of(summary_spec(*instance, outcome.solution_spec()@)),
                        objective_of(summary_spec(*instance, canonical)),
                    ) >= 0
                &&& portfolio_answer(*instance, self.work_units_spec() as nat, request.seed_spec(), outcome)
                &&& !outcome.stopped_spec() ==> complete_answer(
                    *instance,
                    self.work_units_spec() as nat,
                    request.seed_spec(),
                    outcome,
                )
            },
            r is Err ==> (exists|i: nat|
                i < self.work_units_spec() && #[trigger] unit_overflows(*instance, unit_of(request.seed_spec(), i)))
                || explored_may_overflow(*instance, self.work_units_spec() as nat, request.seed_spec()),
    {
        let started_at = clock_now();
        let plan = WorkPlan::new(request.seed(), self.work_units(), request.threads());
        let mut incumbent = Incumbent::new();
        let ghost seed = request.seed_spec();
        let ghost n = self.work_units_spec() as nat;
        let canonical = match solve_with_item_order(instance, request, plan.canonical.item_order) {
            Ok(outcome) => outcome,
            Err(e) => {
                proof {
                    let (ids, forced) = choose|ids: Seq<ItemId>, forced: Seq<(ItemId, usize)>|
                        plan_of_order(*instance, ItemOrder::Canonical, ids, forced) && #[trigger] construction_overflows(
                            *instance,
                            item_positions(ids),
                            forced,
                        );
                    assert(unit_overflows(*instance, unit_of(seed, 0)));
                }
                return Err(e);
            },
        };
        let mut signal = canonical.stop_signal();
        let ghost canonical_clean = !canonical.stopped_spec();
        let ghost canonical_view = CandidateView {
            index: plan.canonical.index,
            objective: objective_of(summary_spec(*instance, canonical.solution_spec()@)),
            solution: canonical.solution_spec()@,
            explored: canonical.metrics_spec()@.0,
        };
        let ghost canonical_sol = canonical.solution_spec()@;
        proof {
            assert(plan.canonical.item_order == ItemOrder::Canonical);
            let (ids, forced, cut) = choose|ids: Seq<ItemId>, forced: Seq<(ItemId, usize)>, cut: int|
                plan_of_order(*instance, ItemOrder::Canonical, ids, forced) && #[trigger] greedy_up_to(
                    *instance,
                    item_positions(ids),
                    forced,
                    canonical_sol,
                    cut,
                );
            assert(forced =~= Seq::<(ItemId, usize)>::empty());
            assert(canonical_order(*instance, ids) && greedy_up_to(
                *instance,
                item_positions(ids),
                Seq::empty(),
                canonical_sol,
                cut,
            ));
        }
        proof {
            if canonical_clean {
                let (ids1, forced1) = choose|ids: Seq<ItemId>, forced: Seq<(ItemId, usize)>|
                    plan_of_order(*instance, ItemOrder::Canonical, ids, forced) && greedy_up_to(
                        *instance,
                        item_positions(ids),
                        forced,
                        canonical_sol,
                        ids.len() as int,
                    ) && canonical_sol == #[trigger] construction_result(*instance, item_positions(ids), forced)
                        && canonical_view.explored == construction_explored(
                        *instance,
                        item_positions(ids),
                        forced,
                        ids.len() as nat,
                    );
                assert(plan_of_order(*instance, ItemOrder::Canonical, ids1, forced1));
                assert(unit_of(seed, 0) == WorkUnit { index: 0, item_order: ItemOrder::Canonical });
                assert(completed(*instance, unit_of(seed, 0), canonical_view));
            }
        }
        let ghost empty = incumbent.candidates_spec();
        match incumbent.publish(instance, plan.canonical.index, canonical) {
            Ok(()) => {},
            Err(e) => {
                assert(!has_index(empty, plan.canonical.index));
                return Err(e);
            },
        }
        proof {
            lemma_publish_keeps(*instance, empty, canonical_view, incumbent.candidates_spec());
        }
        let ghost after_canonical = incumbent.candidates_spec();
        let ghost k = worker_count(n, request.threads_spec() as nat);
        let ghost parts = partition_views(plan.partitions@);
        proof {
            assert(partitions_spec(parts, seed, n, k));
            lemma_plan_units_distinct(parts, seed, n, k);
            assert(after_canonical.len() == 1);
        }
        let run_stop = match execute_seeded_partitions(instance, request, &plan.partitions, &mut incumbent) {
            Ok(given) => given,
            Err(e) => {
                proof {
                    let (v, u) = choose|v: int, u: int|
                        0 <= v < plan.partitions@.len() && 0 <= u < plan.partitions@[v]@.len() && #[trigger] unit_overflows(
                            *instance,
                            plan.partitions@[v]@[u],
                        );
                    assert(parts[v] == plan.partitions@[v]@);
                    assert(parts[v][u] == work_unit_spec(seed, (1 + v + u * k) as nat));
                    assert(unit_of(seed, (1 + v + u * k) as nat) == parts[v][u]);
                    assert(unit_overflows(*instance, unit_of(seed, (1 + v + u * k) as nat)));
                }
                return Err(e);
            },
        };
        let ghost run_clean = run_stop is None;
        if let Some(given) = run_stop {
            signal = Some(given);
        }
        let ghost cs = incumbent.candidates_spec();
        proof {
            assert(cs.contains(canonical_view));
            let q0 = choose|q: int| 0 <= q < cs.len() && cs[q] == canonical_view;
            if q0 > 0 {
                assert(cs[0].index < cs[q0].index);
            }
            assert(cs[0] == canonical_view);
            let (ids0, forced0, cut0) = choose|ids: Seq<ItemId>, forced: Seq<(ItemId, usize)>, cut: int|
                plan_of_order(*instance, ItemOrder::Canonical, ids, forced) && #[trigger] greedy_up_to(
                    *instance,
                    item_positions(ids),
                    forced,
                    canonical_sol,
                    cut,
                );
            assert(unit_outcome(*instance, WorkUnit { index: 0, item_order: ItemOrder::Canonical }, cs[0]));
            assert(unit_of(seed, 0) == WorkUnit { index: 0, item_order: ItemOrder::Canonical });
            assert forall|i: int| 0 < i < cs.len() implies 0 < (#[trigger] cs[i]).index < n && unit_outcome(
                *instance,
                unit_of(seed, cs[i].index as nat),
                cs[i],
            ) by {
                assert(cs[0].index < cs[i].index);
                assert(cs.contains(cs[i]));
                if after_canonical.contains(cs[i]) {
                    let m = choose|m: int| 0 <= m < after_canonical.len() && after_canonical[m] == cs[i];
                    assert(after_canonical[0] == canonical_view);
                }
                let (v, u) = choose|v: int, u: int|
                    0 <= v < plan.partitions@.len() && 0 <= u < plan.partitions@[v]@.len() && unit_outcome(
                        *instance,
                        #[trigger] plan.partitions@[v]@[u],
                        cs[i],
                    );
                assert(parts[v] == plan.partitions@[v]@);
                assert(parts[v][u] == work_unit_spec(seed, (1 + v + u * k) as nat));
            }
            assert forall|i: int| 0 <= i < cs.len() implies (#[trigger] cs[i]).index < n && unit_outcome(
                *instance,
                unit_of(seed, cs[i].index as nat),
                cs[i],
            ) by {
                if i == 0 {
                    assert(unit_outcome(*instance, unit_of(seed, 0), cs[0]));
                }
            }
        }
        let snapshot = match incumbent.into_snapshot() {
            Ok(snapshot) => snapshot,
            Err(e) => {
                assert(explored_total(cs) > u64::MAX);
                return Err(e);
            },
        };
        proof {
            let p = choose|p: int| is_best(cs, p) && snapshot.solution@ == #[trigger] cs[p].solution;
            assert(solution_valid(*instance, cs[p].solution));
            assert(is_best(cs, p));
            assert(after_canonical.contains(canonical_view));
            assert(cs.contains(canonical_view));
            let q = choose|q: int| 0 <= q < cs.len() && cs[q] == canonical_view;
            assert(objective_order(cs[p].objective, cs[q].objective) >= 0);
            assert(cs[p].objective == objective_of(summary_spec(*instance, cs[p].solution)));
        }
        let elapsed = nanos_between(clock_now(), started_at);
        let outcome = SolverOutcome::new(
            snapshot.solution,
            SolverMetrics::new(
                snapshot.explored_candidates,
                snapshot.validated_candidates,
                snapshot.improvements,
                elapsed,
            ),
            OptimalityStatus::Heuristic,
        );
        proof {
            if signal is None {
                use_type_invariant(self);
                assert(canonical_clean && run_clean);
                assert(after_canonical =~= seq![canonical_view]) by {
                    let m = choose|m: int| 0 <= m < after_canonical.len() && after_canonical[m] == canonical_view;
                }
                lemma_clean_portfolio_complete(*instance, seed, n, k, plan.partitions@, after_canonical, cs, canonical_view);
                let p = choose|p: int| is_best(cs, p) && snapshot.solution@ == #[trigger] cs[p].solution;
                assert(is_best(cs, p));
                assert(complete_answer(*instance, n, seed, outcome));
            }
        }
        match signal {
            Some(given) => Ok(outcome.with_stop(given)),
            None => Ok(outcome),
        }
    }
}

} // verus!
