//! Clean-room maximal-space constructive packing.
use vstd::prelude::*;

use crate::geometry::{
    is_permutation, lists_rotations, rotations_of, side_permutations, sides_volume, Aabb, Coordinate, Dimensions, Point, Sides,
};
use crate::order::{
    compare_str, compare_u128, lemma_order_bytes_order, lemma_sorted_unique, lex, order_int, order_str, strictly_sorted_by,
};
use vstd::utf8::encode_utf8;
use crate::solver::stop::StopSignal;
use std::collections::BTreeSet;
use crate::solution::{Placement, PlacementView, Solution};
use crate::solver::{clock_now, nanos_between, OptimalityStatus, MAX_ELAPSED_NANOS, SolveRequest, SolverBackend, SolverError, SolverMetrics, SolverOutcome};
use crate::solver::improve::{seeded_plan, seeded_plan_spec};
use crate::validate::{
    all_positions, extents_within, item_occurrences, placement_valid, placements_disjoint, solution_valid,
    validate_solution, ContainerId, ItemId, PackingInstance, RecordView,
};

verus! {

/// A half-open axis-aligned box `[x_min, x_max) × [y_min, y_max) × [z_min, z_max)`
/// occupied by a placed item, in its container's coordinates.
#[derive(Clone, Copy, Debug, Eq, PartialEq, Structural)]
pub struct Extents {
    pub x_min: u64,
    pub x_max: u64,
    pub y_min: u64,
    pub y_max: u64,
    pub z_min: u64,
    pub z_max: u64,
}

/// A maximal empty box inside a container, same shape as [`Extents`].
/// Fields are ordered so the derived order is lexicographic over them.
#[derive(Clone, Copy, Debug, Eq, Ord, PartialEq, PartialOrd, Structural)]
pub struct FreeSpace {
    pub x_min: u64,
    pub x_max: u64,
    pub y_min: u64,
    pub y_max: u64,
    pub z_min: u64,
    pub z_max: u64,
}

/// Minimum corners do not exceed maximum corners.
pub open spec fn space_wf(s: FreeSpace) -> bool {
    s.x_min <= s.x_max && s.y_min <= s.y_max && s.z_min <= s.z_max
}

/// The box has positive volume.
pub open spec fn space_nonempty(s: FreeSpace) -> bool {
    s.x_min < s.x_max && s.y_min < s.y_max && s.z_min < s.z_max
}

/// Unit cell `(x, y, z)` lies in the space.
pub open spec fn space_has_cell(s: FreeSpace, x: int, y: int, z: int) -> bool {
    s.x_min <= x < s.x_max && s.y_min <= y < s.y_max && s.z_min <= z < s.z_max
}

/// Unit cell `(x, y, z)` lies in the extents.
pub open spec fn extents_has_cell(e: Extents, x: int, y: int, z: int) -> bool {
    e.x_min <= x < e.x_max && e.y_min <= y < e.y_max && e.z_min <= z < e.z_max
}

/// `outer` encloses `inner`.
pub open spec fn space_contains(outer: FreeSpace, inner: FreeSpace) -> bool {
    outer.x_min <= inner.x_min && outer.x_max >= inner.x_max && outer.y_min <= inner.y_min
        && outer.y_max >= inner.y_max && outer.z_min <= inner.z_min && outer.z_max >= inner.z_max
}

/// The space and the extents share a positive volume.
pub open spec fn space_intersects(s: FreeSpace, e: Extents) -> bool {
    s.x_min < e.x_max && e.x_min < s.x_max && s.y_min < e.y_max && e.y_min < s.y_max && s.z_min
        < e.z_max && e.z_min < s.z_max
}

/// Two extents share a positive volume.
pub open spec fn extents_overlap(a: Extents, b: Extents) -> bool {
    a.x_min < b.x_max && b.x_min < a.x_max && a.y_min < b.y_max && b.y_min < a.y_max && a.z_min
        < b.z_max && b.z_min < a.z_max
}

/// Strict lexicographic order on pairs.
pub open spec fn pair_lt(a: (u64, u64), b: (u64, u64)) -> bool {
    a.0 < b.0 || (a.0 == b.0 && a.1 < b.1)
}

/// Strict lexicographic order over the six fields, in declaration order.
pub open spec fn space_lt(a: FreeSpace, b: FreeSpace) -> bool {
    let (ax, bx) = ((a.x_min, a.x_max), (b.x_min, b.x_max));
    let (ay, by) = ((a.y_min, a.y_max), (b.y_min, b.y_max));
    let (az, bz) = ((a.z_min, a.z_max), (b.z_min, b.z_max));
    pair_lt(ax, bx) || (ax == bx && (pair_lt(ay, by) || (ay == by && pair_lt(az, bz))))
}

/// The six slabs of `s` on each side of the part of it covered by `placed`:
/// below and above on x, then on y, then on z.
pub open spec fn split_candidates(s: FreeSpace, placed: Extents) -> Seq<FreeSpace> {
    let ix_min = if s.x_min >= placed.x_min { s.x_min } else { placed.x_min };
    let ix_max = if s.x_max <= placed.x_max { s.x_max } else { placed.x_max };
    let iy_min = if s.y_min >= placed.y_min { s.y_min } else { placed.y_min };
    let iy_max = if s.y_max <= placed.y_max { s.y_max } else { placed.y_max };
    let iz_min = if s.z_min >= placed.z_min { s.z_min } else { placed.z_min };
    let iz_max = if s.z_max <= placed.z_max { s.z_max } else { placed.z_max };
    seq![
        FreeSpace { x_max: ix_min, ..s },
        FreeSpace { x_min: ix_max, ..s },
        FreeSpace { y_max: iy_min, ..s },
        FreeSpace { y_min: iy_max, ..s },
        FreeSpace { z_max: iz_min, ..s },
        FreeSpace { z_min: iz_max, ..s },
    ]
}

/// The non-empty slabs of [`split_candidates`], in order.
pub open spec fn split_spec(s: FreeSpace, placed: Extents) -> Seq<FreeSpace> {
    split_candidates(s, placed).filter(|c: FreeSpace| space_nonempty(c))
}

/// The box of a placement, unless one of its far ends overflows `u64`.
pub open spec fn placement_extents(p: PlacementView) -> Option<Extents> {
    let o = p.2.0;
    let d = p.2.1;
    if o.0 + d.0 <= u64::MAX && o.1 + d.1 <= u64::MAX && o.2 + d.2 <= u64::MAX {
        Some(
            Extents {
                x_min: o.0,
                x_max: (o.0 + d.0) as u64,
                y_min: o.1,
                y_max: (o.1 + d.1) as u64,
                z_min: o.2,
                z_max: (o.2 + d.2) as u64,
            },
        )
    } else {
        None
    }
}

impl FreeSpace {
    /// The whole interior of a container.
    pub fn container(dimensions: Dimensions) -> (r: FreeSpace)
        ensures
            r == (FreeSpace {
                x_min: 0,
                x_max: dimensions@.0,
                y_min: 0,
                y_max: dimensions@.1,
                z_min: 0,
                z_max: dimensions@.2,
            }),
            space_nonempty(r),
    {
        let (w, l, h) = dimensions.positive_sides();
        FreeSpace { x_min: 0, x_max: w, y_min: 0, y_max: l, z_min: 0, z_max: h }
    }

    /// Dimensions `d` fit inside this space.
    pub fn fits(self, dimensions: Dimensions) -> (r: bool)
        requires
            space_wf(self),
        ensures
            r == (dimensions@.0 <= self.x_max - self.x_min && dimensions@.1 <= self.y_max
                - self.y_min && dimensions@.2 <= self.z_max - self.z_min),
    {
        dimensions.width().get() <= self.x_max - self.x_min && dimensions.length().get()
            <= self.y_max - self.y_min && dimensions.height().get() <= self.z_max - self.z_min
    }

    /// The box of `dimensions` placed at this space's minimum corner.
    pub fn bounds_at_origin(self, dimensions: Dimensions) -> (r: Aabb)
        ensures
            r@ == ((self.x_min, self.y_min, self.z_min), dimensions@),
    {
        Aabb::new(
            Point::new(
                Coordinate::from_scaled_units(self.x_min),
                Coordinate::from_scaled_units(self.y_min),
                Coordinate::from_scaled_units(self.z_min),
            ),
            dimensions,
        )
    }

    /// Exact volume of the space.
    pub fn checked_volume(self) -> (r: Result<u128, SolverError>)
        requires
            space_wf(self),
        ensures
            r.is_ok() <==> (self.x_max - self.x_min) * (self.y_max - self.y_min) * (self.z_max
                - self.z_min) <= u128::MAX,
            r matches Ok(v) ==> v == (self.x_max - self.x_min) * (self.y_max - self.y_min) * (
            self.z_max - self.z_min),
    {
        let w = (self.x_max - self.x_min) as u128;
        let l = (self.y_max - self.y_min) as u128;
        let h = (self.z_max - self.z_min) as u128;
        assert(w * l <= u64::MAX * u64::MAX) by (nonlinear_arith)
            requires
                w <= u64::MAX,
                l <= u64::MAX,
        ;
        let area = w * l;
        match area.checked_mul(h) {
            Some(v) => Ok(v),
            None => Err(SolverError::new("maximal free-space volume overflowed")),
        }
    }

    /// The space and `other` share a positive volume.
    pub fn intersects(self, other: Extents) -> (r: bool)
        ensures
            r == space_intersects(self, other),
    {
        self.x_min < other.x_max && other.x_min < self.x_max && self.y_min < other.y_max
            && other.y_min < self.y_max && self.z_min < other.z_max && other.z_min < self.z_max
    }

    /// This space encloses `other`.
    pub fn contains(self, other: FreeSpace) -> (r: bool)
        ensures
            r == space_contains(self, other),
    {
        self.x_min <= other.x_min && self.x_max >= other.x_max && self.y_min <= other.y_min
            && self.y_max >= other.y_max && self.z_min <= other.z_min && self.z_max
            >= other.z_max
    }

    /// The non-empty slabs of this space around `placed`.
    pub fn split_around(self, placed: Extents) -> (r: Vec<FreeSpace>)
        ensures
            r@ == split_spec(self, placed),
    {
        let ix_min = if self.x_min >= placed.x_min {
            self.x_min
        } else {
            placed.x_min
        };
        let ix_max = if self.x_max <= placed.x_max {
            self.x_max
        } else {
            placed.x_max
        };
        let iy_min = if self.y_min >= placed.y_min {
            self.y_min
        } else {
            placed.y_min
        };
        let iy_max = if self.y_max <= placed.y_max {
            self.y_max
        } else {
            placed.y_max
        };
        let iz_min = if self.z_min >= placed.z_min {
            self.z_min
        } else {
            placed.z_min
        };
        let iz_max = if self.z_max <= placed.z_max {
            self.z_max
        } else {
            placed.z_max
        };
        let candidates: [FreeSpace; 6] = [
            FreeSpace { x_max: ix_min, ..self },
            FreeSpace { x_min: ix_max, ..self },
            FreeSpace { y_max: iy_min, ..self },
            FreeSpace { y_min: iy_max, ..self },
            FreeSpace { z_max: iz_min, ..self },
            FreeSpace { z_min: iz_max, ..self },
        ];
        let ghost cs = split_candidates(self, placed);
        assert(candidates@ =~= cs);
        let mut r: Vec<FreeSpace> = Vec::new();
        let mut i: usize = 0;
        proof {
            reveal(Seq::filter);
            assert(cs.take(0).filter(|c: FreeSpace| space_nonempty(c)) =~= Seq::<
                FreeSpace,
            >::empty());
        }
        while i < 6
            invariant
                0 <= i <= 6,
                candidates@ == cs,
                cs.len() == 6,
                r@ == cs.take(i as int).filter(|c: FreeSpace| space_nonempty(c)),
            decreases 6 - i,
        {
            let c = candidates[i];
            proof {
                reveal(Seq::filter);
                assert(cs.take(i + 1).drop_last() =~= cs.take(i as int));
                assert(cs.take(i + 1).last() == c);
            }
            if c.x_min < c.x_max && c.y_min < c.y_max && c.z_min < c.z_max {
                r.push(c);
            }
            i = i + 1;
        }
        assert(cs.take(6) =~= cs);
        r
    }
}

/// Every slab returned by a split lies in the split space, avoids the placed
/// box, and together the slabs cover every cell of the space outside it.
pub proof fn lemma_split_is_exact_complement(s: FreeSpace, placed: Extents)
    requires
        space_wf(s),
        space_intersects(s, placed),
    ensures
        forall|i: int|
            0 <= i < split_spec(s, placed).len() ==> {
                &&& space_contains(s, #[trigger] split_spec(s, placed)[i])
                &&& space_nonempty(split_spec(s, placed)[i])
                &&& !space_intersects(split_spec(s, placed)[i], placed)
            },
        forall|x: int, y: int, z: int|
            space_has_cell(s, x, y, z) && !extents_has_cell(placed, x, y, z) ==> exists|i: int|
                0 <= i < split_spec(s, placed).len() && space_has_cell(
                    #[trigger] split_spec(s, placed)[i],
                    x,
                    y,
                    z,
                ),
{
    let cs = split_candidates(s, placed);
    let pred = |c: FreeSpace| space_nonempty(c);
    let r = split_spec(s, placed);
    assert(r == cs.filter(pred));
    assert forall|i: int| 0 <= i < r.len() implies {
        &&& space_contains(s, #[trigger] r[i])
        &&& space_nonempty(r[i])
        &&& !space_intersects(r[i], placed)
    } by {
        cs.lemma_filter_pred(pred, i);
        assert(r.contains(r[i]));
        cs.lemma_filter_contains_rev(pred, r[i]);
        assert(cs.contains(r[i]));
        let k = choose|k: int| 0 <= k < cs.len() && cs[k] == r[i];
    }
    assert forall|x: int, y: int, z: int|
        space_has_cell(s, x, y, z) && !extents_has_cell(placed, x, y, z) implies exists|i: int|
        0 <= i < r.len() && space_has_cell(#[trigger] r[i], x, y, z) by {
        let k: int = if x < placed.x_min {
            0
        } else if x >= placed.x_max {
            1
        } else if y < placed.y_min {
            2
        } else if y >= placed.y_max {
            3
        } else if z < placed.z_min {
            4
        } else {
            5
        };
        assert(space_has_cell(cs[k], x, y, z));
        assert(pred(cs[k]));
        cs.lemma_filter_contains(pred, k);
        assert(r.contains(cs[k]));
        let i = choose|i: int| 0 <= i < r.len() && r[i] == cs[k];
        assert(space_has_cell(r[i], x, y, z));
    }
}

/// Sequence is strictly increasing in [`space_lt`].
pub open spec fn spaces_sorted(s: Seq<FreeSpace>) -> bool {
    forall|i: int, j: int| 0 <= i < j < s.len() ==> space_lt(#[trigger] s[i], #[trigger] s[j])
}

/// Some other member of `s` encloses `x`.
pub open spec fn dominated(s: Seq<FreeSpace>, x: FreeSpace) -> bool {
    exists|y: FreeSpace| #[trigger] s.contains(y) && y != x && space_contains(y, x)
}

/// [`space_lt`] is a strict total order.
proof fn lemma_space_lt_order()
    ensures
        forall|a: FreeSpace| !space_lt(a, a),
        forall|a: FreeSpace, b: FreeSpace, c: FreeSpace|
            #![trigger space_lt(a, b), space_lt(b, c)] space_lt(a, b) && space_lt(b, c) ==> space_lt(a, c),
        forall|a: FreeSpace, b: FreeSpace|
            a == b || #[trigger] space_lt(a, b) || space_lt(b, a),
{
}

/// `a` precedes `b` in the lexicographic order of their fields.
fn space_less(a: FreeSpace, b: FreeSpace) -> (r: bool)
    ensures
        r == space_lt(a, b),
{
    if a.x_min != b.x_min {
        return a.x_min < b.x_min;
    }
    if a.x_max != b.x_max {
        return a.x_max < b.x_max;
    }
    if a.y_min != b.y_min {
        return a.y_min < b.y_min;
    }
    if a.y_max != b.y_max {
        return a.y_max < b.y_max;
    }
    if a.z_min != b.z_min {
        return a.z_min < b.z_min;
    }
    a.z_max < b.z_max
}

/// The distinct spaces of `v`, sorted.
fn sorted_distinct(v: &Vec<FreeSpace>) -> (r: Vec<FreeSpace>)
    ensures
        spaces_sorted(r@),
        forall|x: FreeSpace| r@.contains(x) <==> v@.contains(x),
{
    proof {
        lemma_space_lt_order();
    }
    let mut r: Vec<FreeSpace> = Vec::new();
    let mut i: usize = 0;
    while i < v.len()
        invariant
            0 <= i <= v.len(),
            spaces_sorted(r@),
            forall|x: FreeSpace| r@.contains(x) <==> v@.take(i as int).contains(x),
            forall|a: FreeSpace| !space_lt(a, a),
            forall|a: FreeSpace, b: FreeSpace, c: FreeSpace|
                #![trigger space_lt(a, b), space_lt(b, c)] space_lt(a, b) && space_lt(b, c) ==> space_lt(a, c),
            forall|a: FreeSpace, b: FreeSpace| a == b || #[trigger] space_lt(a, b) || space_lt(b, a),
        decreases v.len() - i,
    {
        let x = v[i];
        let mut k: usize = 0;
        while k < r.len() && space_less(r[k], x)
            invariant
                0 <= k <= r.len(),
                forall|m: int| 0 <= m < k ==> space_lt(#[trigger] r@[m], x),
            decreases r.len() - k,
        {
            k = k + 1;
        }
        let ghost before = r@;
        proof {
            assert(v@.take(i + 1) =~= v@.take(i as int).push(x));
        }
        if k < r.len() && r[k] == x {
            proof {
                assert forall|y: FreeSpace| r@.contains(y) <==> v@.take(i + 1).contains(y) by {
                    if v@.take(i + 1).contains(y) && y == x {
                        assert(r@[k as int] == x);
                    }
                }
            }
        } else {
            proof {
                if k < r.len() {
                    assert(!space_lt(r@[k as int], x));
                    assert(space_lt(x, r@[k as int]));
                }
            }
            r.insert(k, x);
            proof {
                assert(r@ =~= before.insert(k as int, x));
                assert forall|a: int, b: int| 0 <= a < b < r@.len() implies space_lt(
                    #[trigger] r@[a],
                    #[trigger] r@[b],
                ) by {
                    if b < k {
                        assert(r@[a] == before[a] && r@[b] == before[b]);
                    } else if b == k {
                        assert(r@[a] == before[a]);
                    } else if a == k {
                        assert(r@[b] == before[b - 1]);
                        if b - 1 > k {
                            assert(space_lt(before[k as int], before[b - 1]));
                        }
                    } else if a < k {
                        assert(r@[a] == before[a] && r@[b] == before[b - 1]);
                    } else {
                        assert(r@[a] == before[a - 1] && r@[b] == before[b - 1]);
                    }
                }
                assert forall|y: FreeSpace| r@.contains(y) <==> v@.take(i + 1).contains(y) by {
                    if r@.contains(y) {
                        let m = choose|m: int| 0 <= m < r@.len() && r@[m] == y;
                        if m != k {
                            if m < k {
                                assert(before[m] == y);
                            } else {
                                assert(before[m - 1] == y);
                            }
                            assert(before.contains(y));
                            assert(v@.take(i as int).contains(y));
                            let j = choose|j: int| 0 <= j < i && v@.take(i as int)[j] == y;
                            assert(v@.take(i + 1)[j] == y);
                        } else {
                            assert(v@.take(i + 1)[i as int] == y);
                        }
                    }
                    if v@.take(i + 1).contains(y) {
                        if y == x {
                            assert(r@[k as int] == x);
                        } else {
                            assert(v@.take(i as int).contains(y));
                            assert(before.contains(y));
                            let m = choose|m: int| 0 <= m < before.len() && before[m] == y;
                            if m < k {
                                assert(r@[m] == y);
                            } else {
                                assert(r@[m + 1] == y);
                            }
                        }
                    }
                }
            }
        }
        i = i + 1;
    }
    proof {
        assert(v@.take(v.len() as int) =~= v@);
    }
    r
}

/// Sort, deduplicate, and drop every space enclosed by another one.
pub fn prune_contained_spaces(spaces: &mut Vec<FreeSpace>)
    ensures
        spaces_sorted(final(spaces)@),
        forall|x: FreeSpace|
            #[trigger] final(spaces)@.contains(x) <==> (old(spaces)@.contains(x) && !dominated(
                old(spaces)@,
                x,
            )),
        final(spaces)@ == undominated(old(spaces)@),
{
    proof {
        lemma_space_lt_order();
    }
    let sorted = sorted_distinct(spaces);
    let ghost initial_spaces = old(spaces)@;
    let mut retained: Vec<FreeSpace> = Vec::new();
    let mut i: usize = 0;
    while i < sorted.len()
        invariant
            0 <= i <= sorted.len(),
            spaces_sorted(sorted@),
            spaces_sorted(retained@),
            forall|x: FreeSpace| sorted@.contains(x) <==> initial_spaces.contains(x),
            forall|a: int| 0 <= a < retained@.len() ==> exists|m: int| 0 <= m < i && #[trigger] retained@[a] == sorted@[m],
            forall|m: int| 0 <= m < i ==> (#[trigger] retained@.contains(sorted@[m]) <==> !dominated(initial_spaces, sorted@[m])),
            forall|a: FreeSpace| !space_lt(a, a),
            forall|a: FreeSpace, b: FreeSpace, c: FreeSpace|
                #![trigger space_lt(a, b), space_lt(b, c)] space_lt(a, b) && space_lt(b, c) ==> space_lt(a, c),
            forall|a: FreeSpace, b: FreeSpace| a == b || #[trigger] space_lt(a, b) || space_lt(b, a),
        decreases sorted.len() - i,
    {
        let space = sorted[i];
        let mut contained = false;
        let mut j: usize = 0;
        while j < sorted.len()
            invariant
                0 <= j <= sorted.len(),
                0 <= i < sorted.len(),
                space == sorted@[i as int],
                spaces_sorted(sorted@),
                forall|a: FreeSpace| !space_lt(a, a),
                contained <==> exists|m: int| 0 <= m < j && m != i && space_contains(#[trigger] sorted@[m], space),
            decreases sorted.len() - j,
        {
            if j != i && sorted[j].contains(space) {
                contained = true;
            }
            j = j + 1;
        }
        proof {
            assert(contained <==> dominated(initial_spaces, space)) by {
                if contained {
                    let m = choose|m: int| 0 <= m < sorted@.len() && m != i && space_contains(#[trigger] sorted@[m], space);
                    if m < i {
                        assert(space_lt(sorted@[m], sorted@[i as int]));
                    } else {
                        assert(space_lt(sorted@[i as int], sorted@[m]));
                    }
                    assert(sorted@.contains(sorted@[m]));
                    assert(initial_spaces.contains(sorted@[m]));
                }
                if dominated(initial_spaces, space) {
                    let y = choose|y: FreeSpace| #[trigger] initial_spaces.contains(y) && y != space && space_contains(y, space);
                    assert(sorted@.contains(y));
                    let m = choose|m: int| 0 <= m < sorted@.len() && sorted@[m] == y;
                    assert(m != i);
                    assert(space_contains(sorted@[m], space));
                }
            }
        }
        let ghost before = retained@;
        if !contained {
            retained.push(space);
            proof {
                assert forall|a: int, b: int| 0 <= a < b < retained@.len() implies space_lt(
                    #[trigger] retained@[a],
                    #[trigger] retained@[b],
                ) by {
                    if b == retained@.len() - 1 {
                        let m = choose|m: int| 0 <= m < i && #[trigger] before[a] == sorted@[m];
                        assert(retained@[a] == before[a]);
                    } else {
                        assert(retained@[a] == before[a] && retained@[b] == before[b]);
                    }
                }
                assert forall|a: int| 0 <= a < retained@.len() implies exists|m: int| 0 <= m < i + 1 && #[trigger] retained@[a] == sorted@[m] by {
                    if a == retained@.len() - 1 {
                        assert(retained@[a] == sorted@[i as int]);
                    } else {
                        let m = choose|m: int| 0 <= m < i && #[trigger] before[a] == sorted@[m];
                        assert(retained@[a] == sorted@[m]);
                    }
                }
            }
        }
        proof {
            assert forall|m: int| 0 <= m < i + 1 implies (#[trigger] retained@.contains(sorted@[m]) <==> !dominated(initial_spaces, sorted@[m])) by {
                if m < i {
                    if !contained {
                        if retained@.contains(sorted@[m]) && !before.contains(sorted@[m]) {
                            let a = choose|a: int| 0 <= a < retained@.len() && retained@[a] == sorted@[m];
                            assert(a == retained@.len() - 1);
                            assert(space_lt(sorted@[m], sorted@[i as int]));
                        }
                        if before.contains(sorted@[m]) {
                            let a = choose|a: int| 0 <= a < before.len() && before[a] == sorted@[m];
                            assert(retained@[a] == sorted@[m]);
                        }
                    }
                } else {
                    if contained {
                        if retained@.contains(sorted@[m]) {
                            let a = choose|a: int| 0 <= a < retained@.len() && retained@[a] == sorted@[m];
                            let k = choose|k: int| 0 <= k < i && #[trigger] retained@[a] == sorted@[k];
                            assert(space_lt(sorted@[k], sorted@[i as int]));
                        }
                    } else {
                        assert(retained@[retained@.len() - 1] == sorted@[m]);
                    }
                }
            }
        }
        i = i + 1;
    }
    proof {
        assert forall|x: FreeSpace| #[trigger] retained@.contains(x) <==> (initial_spaces.contains(x) && !dominated(initial_spaces, x)) by {
            if retained@.contains(x) {
                let a = choose|a: int| 0 <= a < retained@.len() && retained@[a] == x;
                let m = choose|m: int| 0 <= m < sorted@.len() && #[trigger] retained@[a] == sorted@[m];
                assert(sorted@.contains(x));
            }
            if initial_spaces.contains(x) && !dominated(initial_spaces, x) {
                assert(sorted@.contains(x));
                let m = choose|m: int| 0 <= m < sorted@.len() && sorted@[m] == x;
                assert(retained@.contains(sorted@[m]));
            }
        }
        lemma_undominated_unique(initial_spaces, retained@);
    }
    *spaces = retained;
}

/// The members of `s` that no other member encloses, once each, in
/// [`space_lt`] order.
pub open spec fn undominated(s: Seq<FreeSpace>) -> Seq<FreeSpace> {
    choose|r: Seq<FreeSpace>|
        spaces_sorted(r) && forall|x: FreeSpace| #[trigger] r.contains(x) <==> (s.contains(x) && !dominated(s, x))
}

/// A sorted list of exactly the undominated members is [`undominated`].
proof fn lemma_undominated_unique(s: Seq<FreeSpace>, r: Seq<FreeSpace>)
    requires
        spaces_sorted(r),
        forall|x: FreeSpace| #[trigger] r.contains(x) <==> (s.contains(x) && !dominated(s, x)),
    ensures
        r == undominated(s),
{
    let c = undominated(s);
    let lt = |a: FreeSpace, b: FreeSpace| space_lt(a, b);
    lemma_space_lt_order();
    assert(strictly_sorted_by(r, lt)) by {
        assert forall|i: int, j: int| 0 <= i < j < r.len() implies lt(#[trigger] r[i], #[trigger] r[j]) by {
            assert(space_lt(r[i], r[j]));
        }
    }
    assert(strictly_sorted_by(c, lt)) by {
        assert forall|i: int, j: int| 0 <= i < j < c.len() implies lt(#[trigger] c[i], #[trigger] c[j]) by {
            assert(space_lt(c[i], c[j]));
        }
    }
    assert forall|x: FreeSpace| !(#[trigger] lt(x, x)) by {}
    assert forall|x: FreeSpace, y: FreeSpace, z: FreeSpace| #[trigger] lt(x, y) && #[trigger] lt(y, z) implies lt(x, z) by {
        assert(space_lt(x, y) && space_lt(y, z));
    }
    assert forall|x: FreeSpace| r.contains(x) <==> c.contains(x) by {
        assert(c.contains(x) <==> (s.contains(x) && !dominated(s, x)));
    }
    lemma_sorted_unique(r, c, lt);
}

impl Extents {
    /// The box occupied by `bounds`, or an error when a far end overflows `u64`.
    pub fn from_bounds(bounds: Aabb) -> (r: Result<Extents, SolverError>)
        ensures
            match r {
                Ok(e) => placement_extents((0, 0, bounds@)) == Some(e),
                Err(_) => placement_extents((0, 0, bounds@)).is_none(),
            },
    {
        let origin = bounds.origin();
        let dimensions = bounds.dimensions();
        let x_max = match origin.x().checked_add(dimensions.width()) {
            Some(v) => v,
            None => {
                return Err(SolverError::new("candidate x-extent overflowed"));
            },
        };
        let y_max = match origin.y().checked_add(dimensions.length()) {
            Some(v) => v,
            None => {
                return Err(SolverError::new("candidate y-extent overflowed"));
            },
        };
        let z_max = match origin.z().checked_add(dimensions.height()) {
            Some(v) => v,
            None => {
                return Err(SolverError::new("candidate z-extent overflowed"));
            },
        };
        Ok(
            Extents {
                x_min: origin.x().get(),
                x_max,
                y_min: origin.y().get(),
                y_max,
                z_min: origin.z().get(),
                z_max,
            },
        )
    }

    /// The two boxes share a positive volume.
    pub fn overlaps(self, other: Extents) -> (r: bool)
        ensures
            r == extents_overlap(self, other),
    {
        self.x_min < other.x_max && other.x_min < self.x_max && self.y_min < other.y_max
            && other.y_min < self.y_max && self.z_min < other.z_max && other.z_min < self.z_max
    }
}

/// Length of the intersection of `[first_min, first_max)` and `[second_min, second_max)`.
pub open spec fn interval_overlap_spec(first_min: u64, first_max: u64, second_min: u64, second_max: u64) -> u64 {
    let hi = if first_max <= second_max { first_max } else { second_max };
    let lo = if first_min >= second_min { first_min } else { second_min };
    if hi >= lo { (hi - lo) as u64 } else { 0 }
}

/// Length of the intersection of two intervals, zero when they are disjoint.
pub fn interval_overlap(first_min: u64, first_max: u64, second_min: u64, second_max: u64) -> (r: u64)
    ensures
        r == interval_overlap_spec(first_min, first_max, second_min, second_max),
{
    let hi = if first_max <= second_max { first_max } else { second_max };
    let lo = if first_min >= second_min { first_min } else { second_min };
    hi.saturating_sub(lo)
}

/// Two placed boxes share a positive volume; a box whose extent overflows is
/// treated as overlapping everything.
pub fn bounds_overlap(left: Aabb, right: Aabb) -> (r: bool)
    ensures
        r == match (placement_extents((0, 0, left@)), placement_extents((0, 0, right@))) {
            (Some(a), Some(b)) => extents_overlap(a, b),
            _ => true,
        },
{
    match (Extents::from_bounds(left), Extents::from_bounds(right)) {
        (Ok(left), Ok(right)) => left.overlaps(right),
        _ => true,
    }
}

/// Product of two sides as an area.
pub fn checked_area(first: u64, second: u64) -> (r: Result<u128, SolverError>)
    ensures
        r matches Ok(v) && v == first * second,
{
    let a = first as u128;
    let b = second as u128;
    assert(a * b <= u64::MAX * u64::MAX) by (nonlinear_arith)
        requires
            a <= u64::MAX,
            b <= u64::MAX,
    ;
    Ok(a * b)
}

/// Sum of two areas, or an error when it overflows `u128`.
pub fn checked_add(left: u128, right: u128) -> (r: Result<u128, SolverError>)
    ensures
        r.is_ok() <==> left + right <= u128::MAX,
        r matches Ok(v) ==> v == left + right,
{
    match left.checked_add(right) {
        Some(v) => Ok(v),
        None => Err(SolverError::new("candidate contact total overflowed")),
    }
}

/// Free spaces and placements of one container during construction.
struct ContainerState {
    container_id: ContainerId,
    dimensions: Dimensions,
    spaces: Vec<FreeSpace>,
    placements: Vec<Placement>,
    x_max: u64,
    y_max: u64,
    z_max: u64,
}

/// The space lies inside a container of sides `d`.
pub open spec fn space_in_container(s: FreeSpace, d: Sides) -> bool {
    s.x_max <= d.0 && s.y_max <= d.1 && s.z_max <= d.2
}

/// A box of positive volume inside a container of sides `d`.
pub open spec fn box_in_container(e: Extents, d: Sides) -> bool {
    &&& e.x_min < e.x_max && e.y_min < e.y_max && e.z_min < e.z_max
    &&& e.x_max <= d.0 && e.y_max <= d.1 && e.z_max <= d.2
}

/// The space encloses the box.
pub open spec fn space_holds(s: FreeSpace, e: Extents) -> bool {
    &&& s.x_min <= e.x_min && e.x_max <= s.x_max
    &&& s.y_min <= e.y_min && e.y_max <= s.y_max
    &&& s.z_min <= e.z_min && e.z_max <= s.z_max
}

/// A box inside a container of sides `d` that overlaps none of `placed`.
pub open spec fn free_box(e: Extents, d: Sides, placed: Seq<Placement>) -> bool {
    &&& box_in_container(e, d)
    &&& forall|k: int| 0 <= k < placed.len() ==> !extents_overlap(e, placement_extents(#[trigger] placed[k]@).unwrap())
}

/// The side lengths of a box.
pub open spec fn extents_sides(e: Extents) -> Sides {
    ((e.x_max - e.x_min) as u64, (e.y_max - e.y_min) as u64, (e.z_max - e.z_min) as u64)
}

/// Sum of the side lengths of a space.
spec fn space_span(s: FreeSpace) -> int {
    (s.x_max - s.x_min) + (s.y_max - s.y_min) + (s.z_max - s.z_min)
}

/// Every member of `s` enclosing `e` leads, through members enclosing it, to
/// one that no other member encloses.
proof fn lemma_undominated_holder(s: Seq<FreeSpace>, x: FreeSpace, e: Extents)
    requires
        s.contains(x),
        space_holds(x, e),
        forall|y: FreeSpace| #[trigger] s.contains(y) ==> space_wf(y),
    ensures
        exists|y: FreeSpace| #[trigger] s.contains(y) && !dominated(s, y) && space_holds(y, e),
    decreases 3 * (u64::MAX as int) - space_span(x),
{
    if dominated(s, x) {
        let y = choose|y: FreeSpace| #[trigger] s.contains(y) && y != x && space_contains(y, x);
        assert(space_wf(y));
        assert(space_span(y) > space_span(x));
        lemma_undominated_holder(s, y, e);
    }
}

/// Each space of `spaces` that meets `placed` replaced, in order, by the
/// slabs of it around `placed`; the others kept.
pub open spec fn carved(spaces: Seq<FreeSpace>, placed: Extents) -> Seq<FreeSpace>
    decreases spaces.len(),
{
    if spaces.len() == 0 {
        Seq::empty()
    } else {
        carved(spaces.drop_last(), placed) + if space_intersects(spaces.last(), placed) {
            split_spec(spaces.last(), placed)
        } else {
            seq![spaces.last()]
        }
    }
}

/// What a container state holds: its container, the container's
/// dimensions, the free spaces, the placements, and the largest far ends of
/// the placed boxes.
pub struct StateView {
    pub container_id: usize,
    pub dimensions: Sides,
    pub spaces: Seq<FreeSpace>,
    pub placements: Seq<PlacementView>,
    pub x_max: u64,
    pub y_max: u64,
    pub z_max: u64,
}

impl FreeSpace {
    /// The whole interior of a container of sides `d`.
    pub open spec fn container_spec(d: Sides) -> FreeSpace {
        FreeSpace { x_min: 0, x_max: d.0, y_min: 0, y_max: d.1, z_min: 0, z_max: d.2 }
    }
}

/// The state of container `c`, of sides `d`, before anything is placed.
pub open spec fn empty_state_view(c: usize, d: Sides) -> StateView {
    StateView {
        container_id: c,
        dimensions: d,
        spaces: seq![FreeSpace::container_spec(d)],
        placements: Seq::empty(),
        x_max: 0,
        y_max: 0,
        z_max: 0,
    }
}

impl StateView {
    /// The state after placing `p`, whose box is `e`: the spaces carved
    /// around the box and pruned, the placement added, the far ends raised.
    pub open spec fn placed(self, p: PlacementView, e: Extents) -> StateView {
        StateView {
            spaces: undominated(carved(self.spaces, e)),
            placements: self.placements.push(p),
            x_max: if self.x_max >= e.x_max { self.x_max } else { e.x_max },
            y_max: if self.y_max >= e.y_max { self.y_max } else { e.y_max },
            z_max: if self.z_max >= e.z_max { self.z_max } else { e.z_max },
            ..self
        }
    }
}

/// A box in `s` clear of `placed` lies in one of the slabs split off around it.
proof fn lemma_piece_holds(s: FreeSpace, placed: Extents, e: Extents)
    requires
        space_holds(s, e),
        e.x_min < e.x_max && e.y_min < e.y_max && e.z_min < e.z_max,
        !extents_overlap(e, placed),
    ensures
        exists|b: int| 0 <= b < split_spec(s, placed).len() && space_holds(split_spec(s, placed)[b], e),
{
    let c = split_candidates(s, placed);
    let m: int = if placed.x_min >= e.x_max {
        0
    } else if e.x_min >= placed.x_max {
        1
    } else if placed.y_min >= e.y_max {
        2
    } else if e.y_min >= placed.y_max {
        3
    } else if placed.z_min >= e.z_max {
        4
    } else {
        5
    };
    assert(space_holds(c[m], e));
    assert(space_nonempty(c[m]));
    c.filter_lemma(|x: FreeSpace| space_nonempty(x));
    assert(split_spec(s, placed).contains(c[m]));
}

impl ContainerState {
    spec fn state_view(self) -> StateView {
        StateView {
            container_id: self.container_id@,
            dimensions: self.dimensions@,
            spaces: self.spaces@,
            placements: self.placements@.map_values(|p: Placement| p@),
            x_max: self.x_max,
            y_max: self.y_max,
            z_max: self.z_max,
        }
    }

    /// Every free space is a non-empty box inside the container that avoids
    /// every placed box, and every box of the container that avoids them
    /// lies in some free space; every placement belongs to this container
    /// and has representable extents; the recorded maxima bound all placed
    /// boxes.
    spec fn wf(self) -> bool {
        &&& forall|e: Extents|
            #[trigger] free_box(e, self.dimensions@, self.placements@) ==> exists|i: int|
                0 <= i < self.spaces@.len() && space_holds(self.spaces@[i], e)
        &&& forall|i: int|
            0 <= i < self.spaces@.len() ==> {
                &&& space_nonempty(#[trigger] self.spaces@[i])
                &&& space_in_container(self.spaces@[i], self.dimensions@)
            }
        &&& forall|k: int|
            0 <= k < self.placements@.len() ==> {
                &&& (#[trigger] self.placements@[k])@.0 == self.container_id@
                &&& placement_extents(self.placements@[k]@).is_some()
                &&& placement_extents(self.placements@[k]@).unwrap().x_max <= self.x_max
                &&& placement_extents(self.placements@[k]@).unwrap().y_max <= self.y_max
                &&& placement_extents(self.placements@[k]@).unwrap().z_max <= self.z_max
            }
        &&& forall|i: int, k: int|
            0 <= i < self.spaces@.len() && 0 <= k < self.placements@.len() ==> !space_intersects(
                #[trigger] self.spaces@[i],
                placement_extents((#[trigger] self.placements@[k])@).unwrap(),
            )
    }

    fn new(container_id: ContainerId, dimensions: Dimensions) -> (r: ContainerState)
        ensures
            r.wf(),
            r.container_id == container_id,
            r.dimensions == dimensions,
            r.placements@.len() == 0,
            r.state_view() == empty_state_view(container_id@, dimensions@),
    {
        let mut spaces = Vec::new();
        spaces.push(FreeSpace::container(dimensions));
        let r = ContainerState {
            container_id,
            dimensions,
            spaces,
            placements: Vec::new(),
            x_max: 0,
            y_max: 0,
            z_max: 0,
        };
        proof {
            assert forall|e: Extents| #[trigger] free_box(e, r.dimensions@, r.placements@) implies exists|i: int|
                0 <= i < r.spaces@.len() && space_holds(r.spaces@[i], e) by {
                assert(space_holds(r.spaces@[0], e));
            }
            assert(r.spaces@ =~= seq![FreeSpace::container_spec(dimensions@)]);
            assert(r.placements@.map_values(|p: Placement| p@) =~= Seq::<PlacementView>::empty());
        }
        r
    }

    /// Record `placement` and carve its box out of the free spaces.
    fn place(&mut self, placement: Placement) -> (r: Result<(), SolverError>)
        requires
            old(self).wf(),
            placement@.0 == old(self).container_id@,
        ensures
            final(self).container_id == old(self).container_id,
            final(self).dimensions == old(self).dimensions,
            r.is_ok() <==> placement_extents(placement@).is_some(),
            r.is_ok() ==> final(self).wf() && final(self).placements@ == old(self).placements@.push(placement),
            r.is_ok() ==> final(self).state_view() == old(self).state_view().placed(
                placement@,
                placement_extents(placement@).unwrap(),
            ),
            r.is_err() ==> *final(self) == *old(self),
    {
        let placed = match Extents::from_bounds(placement.bounds()) {
            Ok(e) => e,
            Err(e) => {
                return Err(e);
            },
        };
        assert(placement_extents(placement@) == Some(placed));
        let mut next_spaces: Vec<FreeSpace> = Vec::new();
        let mut i: usize = 0;
        let n = self.spaces.len();
        while i < n
            invariant
                0 <= i <= n,
                n == self.spaces@.len(),
                self.wf(),
                placement_extents(placement@) == Some(placed),
                forall|a: int|
                    0 <= a < next_spaces@.len() ==> {
                        &&& space_nonempty(#[trigger] next_spaces@[a])
                        &&& !space_intersects(next_spaces@[a], placed)
                        &&& exists|j: int| 0 <= j < n && space_contains(#[trigger] self.spaces@[j], next_spaces@[a])
                    },
                forall|e: Extents|
                    #[trigger] free_box(e, self.dimensions@, self.placements@.push(placement)) ==> forall|j: int|
                        0 <= j < i && space_holds(#[trigger] self.spaces@[j], e) ==> exists|a: int|
                            0 <= a < next_spaces@.len() && space_holds(next_spaces@[a], e),
                next_spaces@ == carved(self.spaces@.take(i as int), placed),
            decreases n - i,
        {
            proof {
                assert(self.spaces@.take(i + 1).drop_last() =~= self.spaces@.take(i as int));
                assert(self.spaces@.take(i + 1).last() == self.spaces@[i as int]);
            }
            let space = self.spaces[i];
            let ghost new_placed = self.placements@.push(placement);
            if space.intersects(placed) {
                let mut pieces = space.split_around(placed);
                proof {
                    lemma_split_is_exact_complement(space, placed);
                }
                let ghost before = next_spaces@;
                next_spaces.append(&mut pieces);
                proof {
                    assert forall|e: Extents| #[trigger] free_box(e, self.dimensions@, new_placed) implies forall|j: int|
                        0 <= j < i + 1 && space_holds(#[trigger] self.spaces@[j], e) ==> exists|a: int|
                            0 <= a < next_spaces@.len() && space_holds(next_spaces@[a], e) by {
                        assert forall|j: int| 0 <= j < i + 1 && space_holds(#[trigger] self.spaces@[j], e) implies exists|a: int|
                            0 <= a < next_spaces@.len() && space_holds(next_spaces@[a], e) by {
                            if j < i {
                                let a = choose|a: int| 0 <= a < before.len() && space_holds(before[a], e);
                                assert(next_spaces@[a] == before[a]);
                            } else {
                                assert(new_placed[self.placements@.len() as int] == placement);
                                lemma_piece_holds(space, placed, e);
                                let b = choose|b: int| 0 <= b < split_spec(space, placed).len() && space_holds(split_spec(space, placed)[b], e);
                                assert(next_spaces@[before.len() + b] == split_spec(space, placed)[b]);
                            }
                        }
                    }
                    assert forall|a: int| 0 <= a < next_spaces@.len() implies {
                        &&& space_nonempty(#[trigger] next_spaces@[a])
                        &&& !space_intersects(next_spaces@[a], placed)
                        &&& exists|j: int| 0 <= j < n && space_contains(#[trigger] self.spaces@[j], next_spaces@[a])
                    } by {
                        if a >= before.len() {
                            let b = a - before.len();
                            assert(next_spaces@[a] == split_spec(space, placed)[b]);
                            assert(space_contains(self.spaces@[i as int], next_spaces@[a]));
                        } else {
                            assert(next_spaces@[a] == before[a]);
                        }
                    }
                }
            } else {
                let ghost before = next_spaces@;
                next_spaces.push(space);
                proof {
                    assert(space_contains(self.spaces@[i as int], space));
                    assert forall|e: Extents| #[trigger] free_box(e, self.dimensions@, new_placed) implies forall|j: int|
                        0 <= j < i + 1 && space_holds(#[trigger] self.spaces@[j], e) ==> exists|a: int|
                            0 <= a < next_spaces@.len() && space_holds(next_spaces@[a], e) by {
                        assert forall|j: int| 0 <= j < i + 1 && space_holds(#[trigger] self.spaces@[j], e) implies exists|a: int|
                            0 <= a < next_spaces@.len() && space_holds(next_spaces@[a], e) by {
                            if j < i {
                                let a = choose|a: int| 0 <= a < before.len() && space_holds(before[a], e);
                                assert(next_spaces@[a] == before[a]);
                            } else {
                                assert(next_spaces@[before.len() as int] == space);
                            }
                        }
                    }
                }
            }
            i = i + 1;
        }
        let ghost unpruned = next_spaces@;
        assert(self.spaces@.take(n as int) =~= self.spaces@);
        prune_contained_spaces(&mut next_spaces);
        proof {
            assert forall|a: int| 0 <= a < next_spaces@.len() implies exists|b: int|
                0 <= b < unpruned.len() && #[trigger] next_spaces@[a] == unpruned[b] by {
                assert(next_spaces@.contains(next_spaces@[a]));
            }
            assert forall|y: FreeSpace| #[trigger] unpruned.contains(y) implies space_wf(y) by {
                let a = choose|a: int| 0 <= a < unpruned.len() && unpruned[a] == y;
                assert(space_nonempty(unpruned[a]));
            }
            assert forall|e: Extents| #[trigger] free_box(e, self.dimensions@, self.placements@.push(placement)) implies exists|a: int|
                0 <= a < next_spaces@.len() && space_holds(next_spaces@[a], e) by {
                assert(free_box(e, self.dimensions@, self.placements@)) by {
                    assert forall|k: int| 0 <= k < self.placements@.len() implies !extents_overlap(
                        e,
                        placement_extents(#[trigger] self.placements@[k]@).unwrap(),
                    ) by {
                        assert(self.placements@.push(placement)[k] == self.placements@[k]);
                    }
                }
                let j = choose|j: int| 0 <= j < self.spaces@.len() && space_holds(self.spaces@[j], e);
                let b = choose|b: int| 0 <= b < unpruned.len() && space_holds(unpruned[b], e);
                lemma_undominated_holder(unpruned, unpruned[b], e);
                let y = choose|y: FreeSpace| #[trigger] unpruned.contains(y) && !dominated(unpruned, y) && space_holds(y, e);
                assert(next_spaces@.contains(y));
                let a = choose|a: int| 0 <= a < next_spaces@.len() && next_spaces@[a] == y;
            }
        }
        let ghost old_placements = self.placements@;
        let ghost pruned = next_spaces@;
        self.spaces = next_spaces;
        self.x_max = if self.x_max >= placed.x_max { self.x_max } else { placed.x_max };
        self.y_max = if self.y_max >= placed.y_max { self.y_max } else { placed.y_max };
        self.z_max = if self.z_max >= placed.z_max { self.z_max } else { placed.z_max };
        self.placements.push(placement);
        proof {
            let ghost old_spaces = old(self).spaces@;
            assert forall|a: int| 0 <= a < self.spaces@.len() implies {
                &&& space_nonempty(#[trigger] self.spaces@[a])
                &&& space_in_container(self.spaces@[a], self.dimensions@)
            } by {
                let b = choose|b: int| 0 <= b < unpruned.len() && #[trigger] self.spaces@[a] == unpruned[b];
                let j = choose|j: int| 0 <= j < n && space_contains(#[trigger] old_spaces[j], unpruned[b]);
                assert(space_in_container(old_spaces[j], self.dimensions@));
            }
            assert forall|a: int, k: int|
                0 <= a < self.spaces@.len() && 0 <= k < self.placements@.len() implies !space_intersects(
                #[trigger] self.spaces@[a],
                placement_extents((#[trigger] self.placements@[k])@).unwrap(),
            ) by {
                let b = choose|b: int| 0 <= b < unpruned.len() && #[trigger] self.spaces@[a] == unpruned[b];
                if k < old_placements.len() {
                    let j = choose|j: int| 0 <= j < n && space_contains(#[trigger] old_spaces[j], unpruned[b]);
                    assert(self.placements@[k] == old_placements[k]);
                    assert(!space_intersects(old_spaces[j], placement_extents(old_placements[k]@).unwrap()));
                } else {
                    assert(self.placements@[k] == placement);
                }
            }
            assert forall|e: Extents| #[trigger] free_box(e, self.dimensions@, self.placements@) implies exists|a: int|
                0 <= a < self.spaces@.len() && space_holds(self.spaces@[a], e) by {
                assert(self.placements@ == old_placements.push(placement));
                assert(free_box(e, self.dimensions@, old_placements.push(placement)));
                assert(self.spaces@ == pruned);
                let a = choose|a: int| 0 <= a < pruned.len() && space_holds(pruned[a], e);
                assert(space_holds(self.spaces@[a], e));
            }
            assert(self.placements@.map_values(|q: Placement| q@) =~= old_placements.map_values(|q: Placement| q@).push(
                placement@,
            ));
            assert(unpruned == carved(old(self).spaces@, placed));
            assert(self.spaces@ == undominated(carved(old(self).spaces@, placed)));
            assert forall|k: int| 0 <= k < self.placements@.len() implies {
                &&& (#[trigger] self.placements@[k])@.0 == self.container_id@
                &&& placement_extents(self.placements@[k]@).is_some()
                &&& placement_extents(self.placements@[k]@).unwrap().x_max <= self.x_max
                &&& placement_extents(self.placements@[k]@).unwrap().y_max <= self.y_max
                &&& placement_extents(self.placements@[k]@).unwrap().z_max <= self.z_max
            } by {
                if k < old_placements.len() {
                    assert(self.placements@[k] == old_placements[k]);
                }
            }
        }
        Ok(())
    }
}

/// Minimum corners do not exceed maximum corners.
pub open spec fn extents_wf(e: Extents) -> bool {
    e.x_min <= e.x_max && e.y_min <= e.y_max && e.z_min <= e.z_max
}

/// Areas of the faces of `c` lying on the walls and floor or ceiling of a
/// container of sides `d`, each face counted once per wall it touches.
pub open spec fn wall_contact(c: Extents, d: Sides) -> int {
    let yz = (c.y_max - c.y_min) * (c.z_max - c.z_min);
    let xz = (c.x_max - c.x_min) * (c.z_max - c.z_min);
    let xy = (c.x_max - c.x_min) * (c.y_max - c.y_min);
    (if c.x_min == 0 { yz } else { 0 }) + (if c.x_max == d.0 { yz } else { 0 }) + (if c.y_min
        == 0 { xz } else { 0 }) + (if c.y_max == d.1 { xz } else { 0 }) + (if c.z_min == 0 {
        xy
    } else { 0 }) + (if c.z_max == d.2 { xy } else { 0 })
}

/// Area of the faces of `c` touching box `o`, on each axis where they meet.
pub open spec fn pair_contact(c: Extents, o: Extents) -> int {
    let ox = interval_overlap_spec(c.x_min, c.x_max, o.x_min, o.x_max) as int;
    let oy = interval_overlap_spec(c.y_min, c.y_max, o.y_min, o.y_max) as int;
    let oz = interval_overlap_spec(c.z_min, c.z_max, o.z_min, o.z_max) as int;
    (if c.x_min == o.x_max || c.x_max == o.x_min { oy * oz } else { 0 }) + (if c.y_min == o.y_max
        || c.y_max == o.y_min { ox * oz } else { 0 }) + (if c.z_min == o.z_max || c.z_max
        == o.z_min { ox * oy } else { 0 })
}

/// Total contact of `c` with the placed boxes `ps`.
pub open spec fn placements_contact(c: Extents, ps: Seq<PlacementView>) -> int
    decreases ps.len(),
{
    if ps.len() == 0 {
        0
    } else {
        placements_contact(c, ps.drop_last()) + pair_contact(
            c,
            placement_extents(ps.last()).unwrap(),
        )
    }
}

/// Area of the bottom of `c` resting on the top of a placed box in `ps`.
pub open spec fn supported_area(c: Extents, ps: Seq<PlacementView>) -> int
    decreases ps.len(),
{
    if ps.len() == 0 {
        0
    } else {
        let o = placement_extents(ps.last()).unwrap();
        supported_area(c, ps.drop_last()) + if o.z_max == c.z_min {
            interval_overlap_spec(c.x_min, c.x_max, o.x_min, o.x_max) as int
                * interval_overlap_spec(c.y_min, c.y_max, o.y_min, o.y_max) as int
        } else {
            0
        }
    }
}

/// Bottom area of `c` that rests on neither the floor nor a placed box.
pub open spec fn unsupported_spec(c: Extents, ps: Seq<PlacementView>) -> int {
    let bottom = (c.x_max - c.x_min) * (c.y_max - c.y_min);
    if c.z_min == 0 {
        0
    } else if supported_area(c, ps) >= bottom {
        0
    } else {
        bottom - supported_area(c, ps)
    }
}

proof fn lemma_products_nonnegative(a: int, b: int)
    requires
        a >= 0,
        b >= 0,
    ensures
        a * b >= 0,
{
    assert(a * b >= 0) by (nonlinear_arith)
        requires
            a >= 0,
            b >= 0,
    ;
}

/// Contact and supported areas only grow as boxes are added.
proof fn lemma_sums_monotone(c: Extents, ps: Seq<PlacementView>, i: int)
    requires
        extents_wf(c),
        0 <= i <= ps.len(),
    ensures
        placements_contact(c, ps.take(i)) <= placements_contact(c, ps),
        supported_area(c, ps.take(i)) <= supported_area(c, ps),
        placements_contact(c, ps) >= 0,
        supported_area(c, ps) >= 0,
    decreases ps.len(),
{
    if ps.len() > 0 {
        let o = placement_extents(ps.last()).unwrap();
        let ox = interval_overlap_spec(c.x_min, c.x_max, o.x_min, o.x_max) as int;
        let oy = interval_overlap_spec(c.y_min, c.y_max, o.y_min, o.y_max) as int;
        let oz = interval_overlap_spec(c.z_min, c.z_max, o.z_min, o.z_max) as int;
        lemma_products_nonnegative(oy, oz);
        lemma_products_nonnegative(ox, oz);
        lemma_products_nonnegative(ox, oy);
        if i == ps.len() {
            assert(ps.take(i) =~= ps);
            lemma_sums_monotone(c, ps.drop_last(), 0);
        } else {
            assert(ps.drop_last().take(i) =~= ps.take(i));
            lemma_sums_monotone(c, ps.drop_last(), i);
        }
    } else {
        assert(ps.take(i) =~= ps);
    }
}

/// Add `term` to `acc` when `condition` holds.
fn add_if(acc: u128, condition: bool, term: u128) -> (r: Result<u128, SolverError>)
    ensures
        r matches Ok(v) ==> v == acc + if condition { term as int } else { 0 },
        r.is_err() ==> condition && acc + term > u128::MAX,
{
    if condition {
        checked_add(acc, term)
    } else {
        Ok(acc)
    }
}

/// Total area of the candidate's faces touching the container walls or placed boxes.
fn contact_area(state: &ContainerState, candidate: Extents) -> (r: Result<u128, SolverError>)
    requires
        state.wf(),
        extents_wf(candidate),
    ensures
        ({
            let total = wall_contact(candidate, state.dimensions@) + placements_contact(
                candidate,
                state.placements@.map_values(|p: Placement| p@),
            );
            &&& r.is_ok() <==> total <= u128::MAX
            &&& r matches Ok(v) ==> v == total
        }),
{
    let ghost ps = state.placements@.map_values(|p: Placement| p@);
    let ghost total = wall_contact(candidate, state.dimensions@) + placements_contact(candidate, ps);
    let width = candidate.x_max - candidate.x_min;
    let length = candidate.y_max - candidate.y_min;
    let height = candidate.z_max - candidate.z_min;
    let yz = match checked_area(length, height) { Ok(v) => v, Err(e) => { return Err(e); } };
    let xz = match checked_area(width, height) { Ok(v) => v, Err(e) => { return Err(e); } };
    let xy = match checked_area(width, length) { Ok(v) => v, Err(e) => { return Err(e); } };
    let (dw, dl, dh) = state.dimensions.positive_sides();
    proof {
        lemma_products_nonnegative(length as int, height as int);
        lemma_products_nonnegative(width as int, height as int);
        lemma_products_nonnegative(width as int, length as int);
        lemma_sums_monotone(candidate, ps, 0);
    }
    let c0 = candidate.x_min == 0;
    let c1 = candidate.x_max == dw;
    let c2 = candidate.y_min == 0;
    let c3 = candidate.y_max == dl;
    let c4 = candidate.z_min == 0;
    let c5 = candidate.z_max == dh;
    let mut contact: u128 = 0;
    contact = match add_if(contact, c0, yz) { Ok(v) => v, Err(e) => { return Err(e); } };
    contact = match add_if(contact, c1, yz) { Ok(v) => v, Err(e) => { return Err(e); } };
    contact = match add_if(contact, c2, xz) { Ok(v) => v, Err(e) => { return Err(e); } };
    contact = match add_if(contact, c3, xz) { Ok(v) => v, Err(e) => { return Err(e); } };
    contact = match add_if(contact, c4, xy) { Ok(v) => v, Err(e) => { return Err(e); } };
    contact = match add_if(contact, c5, xy) { Ok(v) => v, Err(e) => { return Err(e); } };
    assert(contact == wall_contact(candidate, state.dimensions@));
    let mut k: usize = 0;
    let n = state.placements.len();
    assert(ps.take(0) =~= Seq::<PlacementView>::empty());
    while k < n
        invariant
            0 <= k <= n,
            n == ps.len(),
            ps == state.placements@.map_values(|p: Placement| p@),
            state.wf(),
            extents_wf(candidate),
            total == wall_contact(candidate, state.dimensions@) + placements_contact(candidate, ps),
            contact == wall_contact(candidate, state.dimensions@) + placements_contact(
                candidate,
                ps.take(k as int),
            ),
        decreases n - k,
    {
        let placement = state.placements[k];
        let other = match Extents::from_bounds(placement.bounds()) {
            Ok(e) => e,
            Err(e) => {
                proof {
                    assert(ps[k as int] == placement@);
                }
                return Err(e);
            },
        };
        proof {
            assert(ps[k as int] == placement@);
            assert(ps.take(k + 1).drop_last() =~= ps.take(k as int));
            assert(ps.take(k + 1).last() == placement@);
            lemma_sums_monotone(candidate, ps, k + 1);
        }
        let ox = interval_overlap(candidate.x_min, candidate.x_max, other.x_min, other.x_max);
        let oy = interval_overlap(candidate.y_min, candidate.y_max, other.y_min, other.y_max);
        let oz = interval_overlap(candidate.z_min, candidate.z_max, other.z_min, other.z_max);
        let a_x = match checked_area(oy, oz) { Ok(v) => v, Err(e) => { return Err(e); } };
        let a_y = match checked_area(ox, oz) { Ok(v) => v, Err(e) => { return Err(e); } };
        let a_z = match checked_area(ox, oy) { Ok(v) => v, Err(e) => { return Err(e); } };
        proof {
            lemma_products_nonnegative(oy as int, oz as int);
            lemma_products_nonnegative(ox as int, oz as int);
            lemma_products_nonnegative(ox as int, oy as int);
        }
        let t_x = candidate.x_min == other.x_max || candidate.x_max == other.x_min;
        let t_y = candidate.y_min == other.y_max || candidate.y_max == other.y_min;
        let t_z = candidate.z_min == other.z_max || candidate.z_max == other.z_min;
        contact = match add_if(contact, t_x, a_x) { Ok(v) => v, Err(e) => { return Err(e); } };
        contact = match add_if(contact, t_y, a_y) { Ok(v) => v, Err(e) => { return Err(e); } };
        contact = match add_if(contact, t_z, a_z) { Ok(v) => v, Err(e) => { return Err(e); } };
        k = k + 1;
    }
    assert(ps.take(n as int) =~= ps);
    Ok(contact)
}

/// Bottom area of the candidate resting on neither the floor nor a placed box.
fn unsupported_area(state: &ContainerState, candidate: Extents, dimensions: Dimensions) -> (r: Result<u128, SolverError>)
    requires
        state.wf(),
        extents_wf(candidate),
        candidate.x_max - candidate.x_min == dimensions@.0,
        candidate.y_max - candidate.y_min == dimensions@.1,
    ensures
        ({
            let ps = state.placements@.map_values(|p: Placement| p@);
            &&& r.is_ok() <==> (candidate.z_min == 0 || supported_area(candidate, ps) <= u128::MAX)
            &&& r matches Ok(v) ==> v == unsupported_spec(candidate, ps)
        }),
{
    let ghost ps = state.placements@.map_values(|p: Placement| p@);
    let bottom_area = match checked_area(dimensions.width().get(), dimensions.length().get()) {
        Ok(v) => v,
        Err(e) => { return Err(e); },
    };
    if candidate.z_min == 0 {
        return Ok(0);
    }
    proof {
        lemma_sums_monotone(candidate, ps, 0);
    }
    let mut supported: u128 = 0;
    let mut k: usize = 0;
    let n = state.placements.len();
    assert(ps.take(0) =~= Seq::<PlacementView>::empty());
    while k < n
        invariant
            0 <= k <= n,
            n == ps.len(),
            ps == state.placements@.map_values(|p: Placement| p@),
            state.wf(),
            extents_wf(candidate),
            supported == supported_area(candidate, ps.take(k as int)),
            candidate.z_min != 0,
        decreases n - k,
    {
        let placement = state.placements[k];
        let support = match Extents::from_bounds(placement.bounds()) {
            Ok(e) => e,
            Err(e) => {
                proof {
                    assert(ps[k as int] == placement@);
                }
                return Err(e);
            },
        };
        proof {
            assert(ps[k as int] == placement@);
            assert(ps.take(k + 1).drop_last() =~= ps.take(k as int));
            assert(ps.take(k + 1).last() == placement@);
            lemma_sums_monotone(candidate, ps, k + 1);
        }
        if support.z_max == candidate.z_min {
            let ox = interval_overlap(candidate.x_min, candidate.x_max, support.x_min, support.x_max);
            let oy = interval_overlap(candidate.y_min, candidate.y_max, support.y_min, support.y_max);
            let overlap_area = match checked_area(ox, oy) { Ok(v) => v, Err(e) => { return Err(e); } };
            supported = match supported.checked_add(overlap_area) {
                Some(v) => v,
                None => {
                    assert(placement_extents(placement@) == Some(support));
                    assert(supported_area(candidate, ps.take(k + 1)) == supported + overlap_area);
                    return Err(SolverError::new("candidate support total overflowed"));
                },
            };
        }
        k = k + 1;
    }
    assert(ps.take(n as int) =~= ps);
    let capped = if supported <= bottom_area { supported } else { bottom_area };
    Ok(bottom_area - capped)
}

/// Number of spaces sharing a positive volume with `e`.
pub open spec fn count_intersecting(spaces: Seq<FreeSpace>, e: Extents) -> int
    decreases spaces.len(),
{
    if spaces.len() == 0 {
        0
    } else {
        count_intersecting(spaces.drop_last(), e) + if space_intersects(spaces.last(), e) {
            1int
        } else {
            0
        }
    }
}

/// Ranking data of one candidate position; smaller is better.
#[derive(Debug)]
struct CandidateScore {
    opens_container: bool,
    unsupported_area: u128,
    contact_area: u128,
    bounding_volume: u128,
    residual_space_volume: u128,
    fragmentation: usize,
    container_volume: u128,
    z: u64,
    y: u64,
    x: u64,
    container_dimensions: (u64, u64, u64),
    container_name: String,
    item_name: String,
    rotation: (u64, u64, u64),
    container_id: ContainerId,
}

/// The mathematical content of a [`CandidateScore`].
pub struct ScoreView {
    pub opens_container: bool,
    pub unsupported_area: int,
    pub contact_area: int,
    pub bounding_volume: int,
    pub residual_space_volume: int,
    pub fragmentation: int,
    pub container_volume: int,
    pub z: int,
    pub y: int,
    pub x: int,
    pub container_dimensions: Sides,
    pub container_name: Seq<char>,
    pub item_name: Seq<char>,
    pub rotation: Sides,
    pub container_id: int,
}

impl View for CandidateScore {
    type V = ScoreView;

    closed spec fn view(&self) -> ScoreView {
        ScoreView {
            opens_container: self.opens_container,
            unsupported_area: self.unsupported_area as int,
            contact_area: self.contact_area as int,
            bounding_volume: self.bounding_volume as int,
            residual_space_volume: self.residual_space_volume as int,
            fragmentation: self.fragmentation as int,
            container_volume: self.container_volume as int,
            z: self.z as int,
            y: self.y as int,
            x: self.x as int,
            container_dimensions: self.container_dimensions,
            container_name: self.container_name@,
            item_name: self.item_name@,
            rotation: self.rotation,
            container_id: self.container_id@ as int,
        }
    }
}

/// Larger of two integers.
pub open spec fn max_int(a: int, b: int) -> int {
    if a >= b {
        a
    } else {
        b
    }
}

/// Score of placing an item of record `item`, rotated to `d`, at the box `e`
/// taken from free space `source` of a container in state `st`; `None` when a
/// term of the score overflows.
spec fn score_spec(
    container: RecordView,
    st: ContainerState,
    item: RecordView,
    e: Extents,
    d: Sides,
    source: FreeSpace,
) -> Option<ScoreView> {
    let ps = st.placements@.map_values(|p: Placement| p@);
    let source_volume = (source.x_max - source.x_min) * (source.y_max - source.y_min) * (
    source.z_max - source.z_min);
    let contact = wall_contact(e, st.dimensions@) + placements_contact(e, ps);
    let bounding = max_int(st.x_max as int, e.x_max as int) * max_int(st.y_max as int, e.y_max as int)
        * max_int(st.z_max as int, e.z_max as int);
    if source_volume > u128::MAX || (e.z_min != 0 && supported_area(e, ps) > u128::MAX) || contact
        > u128::MAX || bounding > u128::MAX || sides_volume(d) > u128::MAX {
        None
    } else {
        Some(
            ScoreView {
                opens_container: st.placements@.len() == 0,
                unsupported_area: unsupported_spec(e, ps),
                contact_area: contact,
                bounding_volume: bounding,
                residual_space_volume: source_volume - sides_volume(d),
                fragmentation: count_intersecting(st.spaces@, e),
                container_volume: sides_volume(container.2),
                z: e.z_min as int,
                y: e.y_min as int,
                x: e.x_min as int,
                container_dimensions: container.2,
                container_name: container.1,
                item_name: item.1,
                rotation: d,
                container_id: container.0 as int,
            },
        )
    }
}

/// Multiply three sides as `u128`, unless it overflows.
fn checked_volume3(a: u64, b: u64, c: u64) -> (r: Option<u128>)
    ensures
        r.is_some() <==> a * b * c <= u128::MAX,
        r matches Some(v) ==> v == a * b * c,
{
    let x = a as u128;
    let y = b as u128;
    let z = c as u128;
    assert(x * y <= u64::MAX * u64::MAX) by (nonlinear_arith)
        requires
            x <= u64::MAX,
            y <= u64::MAX,
    ;
    (x * y).checked_mul(z)
}

/// Score a candidate position for `item_id` at `bounds`, taken from `source_space`.
fn candidate_score(
    instance: &PackingInstance,
    state: &ContainerState,
    item_id: ItemId,
    bounds: Aabb,
    source_space: FreeSpace,
) -> (r: Result<CandidateScore, SolverError>)
    requires
        state.wf(),
        state.container_id@ < instance.container_views().len(),
        instance.container_views()[state.container_id@ as int].2 == state.dimensions@,
        item_id@ < instance.item_views().len(),
        space_wf(source_space),
        placement_extents((0, 0, bounds@)) is Some,
        bounds@.1.0 <= source_space.x_max - source_space.x_min,
        bounds@.1.1 <= source_space.y_max - source_space.y_min,
        bounds@.1.2 <= source_space.z_max - source_space.z_min,
    ensures
        ({
            let spec_score = score_spec(
                instance.container_views()[state.container_id@ as int],
                *state,
                instance.item_views()[item_id@ as int],
                placement_extents((0, 0, bounds@)).unwrap(),
                bounds@.1,
                source_space,
            );
            &&& r.is_ok() <==> spec_score.is_some()
            &&& r matches Ok(score) ==> score@ == spec_score.unwrap()
        }),
{
    proof {
        use_type_invariant(instance);
    }
    let ghost ps = state.placements@.map_values(|p: Placement| p@);
    let extents = match Extents::from_bounds(bounds) {
        Ok(e) => e,
        Err(e) => {
            return Err(e);
        },
    };
    let dimensions = bounds.dimensions();
    let (dw, dl, dh) = dimensions.positive_sides();
    let item_volume = match dimensions.checked_volume() {
        Some(v) => v,
        None => {
            return Err(SolverError::new("candidate item volume overflowed"));
        },
    };
    let source_volume = match source_space.checked_volume() {
        Ok(v) => v,
        Err(e) => {
            return Err(e);
        },
    };
    let unsupported = match unsupported_area(state, extents, dimensions) {
        Ok(v) => v,
        Err(e) => {
            return Err(e);
        },
    };
    let contact = match contact_area(state, extents) {
        Ok(v) => v,
        Err(e) => {
            return Err(e);
        },
    };
    let bx = if state.x_max >= extents.x_max { state.x_max } else { extents.x_max };
    let by = if state.y_max >= extents.y_max { state.y_max } else { extents.y_max };
    let bz = if state.z_max >= extents.z_max { state.z_max } else { extents.z_max };
    let bounding_volume = match checked_volume3(bx, by, bz) {
        Some(v) => v,
        None => {
            return Err(SolverError::new("candidate bounding volume overflowed"));
        },
    };
    let container = &instance.containers()[state.container_id.index()];
    let container_dimensions = container.dimensions();
    let container_volume = match container_dimensions.checked_volume() {
        Some(v) => v,
        None => {
            return Err(SolverError::new("validated container volume is not representable"));
        },
    };
    let mut fragmentation: usize = 0;
    let mut k: usize = 0;
    assert(state.spaces@.take(0) =~= Seq::<FreeSpace>::empty());
    while k < state.spaces.len()
        invariant
            0 <= k <= state.spaces@.len(),
            fragmentation == count_intersecting(state.spaces@.take(k as int), extents),
            fragmentation <= k,
        decreases state.spaces@.len() - k,
    {
        proof {
            assert(state.spaces@.take(k + 1).drop_last() =~= state.spaces@.take(k as int));
        }
        if state.spaces[k].intersects(extents) {
            fragmentation = fragmentation + 1;
        }
        k = k + 1;
    }
    assert(state.spaces@.take(state.spaces@.len() as int) =~= state.spaces@);
    proof {
        assert(sides_volume(dimensions@) <= (source_space.x_max - source_space.x_min) * (
        source_space.y_max - source_space.y_min) * (source_space.z_max - source_space.z_min))
            by (nonlinear_arith)
            requires
                0 <= dw <= source_space.x_max - source_space.x_min,
                0 <= dl <= source_space.y_max - source_space.y_min,
                0 <= dh <= source_space.z_max - source_space.z_min,
                sides_volume(dimensions@) == dw * dl * dh,
        ;
    }
    let (cw, cl, ch) = container_dimensions.positive_sides();
    let score = CandidateScore {
        opens_container: state.placements.len() == 0,
        unsupported_area: unsupported,
        contact_area: contact,
        bounding_volume,
        residual_space_volume: source_volume - item_volume,
        fragmentation,
        container_volume,
        z: extents.z_min,
        y: extents.y_min,
        x: extents.x_min,
        container_dimensions: (cw, cl, ch),
        container_name: container.name().to_owned(),
        item_name: instance.items()[item_id.index()].name().to_owned(),
        rotation: (dw, dl, dh),
        container_id: state.container_id,
    };
    Ok(score)
}

/// Three-way comparison of booleans, `false` first.
pub open spec fn order_bool(a: bool, b: bool) -> int {
    order_int(if a { 1 } else { 0 }, if b { 1 } else { 0 })
}

/// Lexicographic three-way comparison of side triples.
pub open spec fn order_sides(a: Sides, b: Sides) -> int {
    lex(order_int(a.0 as int, b.0 as int), lex(order_int(a.1 as int, b.1 as int), order_int(a.2 as int, b.2 as int)))
}

/// Container opening, support, contact (larger first), compactness and residual space.
pub open spec fn score_order_head(a: ScoreView, b: ScoreView) -> int {
    lex(
        order_bool(a.opens_container, b.opens_container),
        lex(
            order_int(a.unsupported_area, b.unsupported_area),
            lex(
                order_int(b.contact_area, a.contact_area),
                lex(
                    order_int(a.bounding_volume, b.bounding_volume),
                    order_int(a.residual_space_volume, b.residual_space_volume),
                ),
            ),
        ),
    )
}

/// Fragmentation, container volume, then position by z, y and x.
pub open spec fn score_order_middle(a: ScoreView, b: ScoreView) -> int {
    lex(
        order_int(a.fragmentation, b.fragmentation),
        lex(
            order_int(a.container_volume, b.container_volume),
            lex(order_int(a.z, b.z), lex(order_int(a.y, b.y), order_int(a.x, b.x))),
        ),
    )
}

/// Container dimensions and name, item name, rotation, and container identity.
pub open spec fn score_order_tail(a: ScoreView, b: ScoreView) -> int {
    lex(
        order_sides(a.container_dimensions, b.container_dimensions),
        lex(
            order_str(a.container_name, b.container_name),
            lex(
                order_str(a.item_name, b.item_name),
                lex(order_sides(a.rotation, b.rotation), order_int(a.container_id, b.container_id)),
            ),
        ),
    )
}

/// Lexicographic three-way comparison of candidate scores; smaller is better.
pub open spec fn score_order(a: ScoreView, b: ScoreView) -> int {
    lex(score_order_head(a, b), lex(score_order_middle(a, b), score_order_tail(a, b)))
}

/// The leading priorities of the candidate ranking, smaller being better: a
/// position that opens an empty container never beats one that does not;
/// then less unsupported area wins; then more contact area; then a smaller
/// bounding volume; then less residual space.
pub proof fn lemma_score_priorities(a: ScoreView, b: ScoreView)
    ensures
        !a.opens_container && b.opens_container ==> score_order(a, b) < 0,
        a.opens_container == b.opens_container && a.unsupported_area < b.unsupported_area ==> score_order(a, b) < 0,
        a.opens_container == b.opens_container && a.unsupported_area == b.unsupported_area && a.contact_area
            > b.contact_area ==> score_order(a, b) < 0,
        a.opens_container == b.opens_container && a.unsupported_area == b.unsupported_area && a.contact_area
            == b.contact_area && a.bounding_volume < b.bounding_volume ==> score_order(a, b) < 0,
        a.opens_container == b.opens_container && a.unsupported_area == b.unsupported_area && a.contact_area
            == b.contact_area && a.bounding_volume == b.bounding_volume && a.residual_space_volume
            < b.residual_space_volume ==> score_order(a, b) < 0,
        score_order_head(a, b) == 0 && a.fragmentation < b.fragmentation ==> score_order(a, b) < 0,
        score_order_head(a, b) == 0 && a.fragmentation == b.fragmentation && a.container_volume
            < b.container_volume ==> score_order(a, b) < 0,
        score_order_head(a, b) == 0 && a.fragmentation == b.fragmentation && a.container_volume
            == b.container_volume && a.z < b.z ==> score_order(a, b) < 0,
        score_order_head(a, b) == 0 && a.fragmentation == b.fragmentation && a.container_volume
            == b.container_volume && a.z == b.z && a.y < b.y ==> score_order(a, b) < 0,
        score_order_head(a, b) == 0 && a.fragmentation == b.fragmentation && a.container_volume
            == b.container_volume && a.z == b.z && a.y == b.y && a.x < b.x ==> score_order(a, b) < 0,
        a.opens_container == b.opens_container && a.unsupported_area == b.unsupported_area && a.contact_area
            == b.contact_area && a.bounding_volume == b.bounding_volume && a.residual_space_volume
            == b.residual_space_volume ==> score_order_head(a, b) == 0,
{
}

/// Candidate scores are totally ordered: a tie means equal scores, the
/// comparison is antisymmetric, and strict preference is transitive.
proof fn lemma_score_order(a: ScoreView, b: ScoreView, c: ScoreView)
    ensures
        score_order(a, b) == -score_order(b, a),
        score_order(a, b) == 0 ==> a == b,
        score_order(a, b) < 0 && score_order(b, c) < 0 ==> score_order(a, c) < 0,
        score_order(a, a) == 0,
{
    lemma_order_bytes_order(encode_utf8(a.container_name), encode_utf8(b.container_name), encode_utf8(c.container_name));
    lemma_order_bytes_order(encode_utf8(b.container_name), encode_utf8(c.container_name), encode_utf8(a.container_name));
    lemma_order_bytes_order(encode_utf8(a.container_name), encode_utf8(a.container_name), encode_utf8(a.container_name));
    lemma_order_bytes_order(encode_utf8(a.item_name), encode_utf8(b.item_name), encode_utf8(c.item_name));
    lemma_order_bytes_order(encode_utf8(b.item_name), encode_utf8(c.item_name), encode_utf8(a.item_name));
    lemma_order_bytes_order(encode_utf8(a.item_name), encode_utf8(a.item_name), encode_utf8(a.item_name));
    vstd::utf8::encode_utf8_decode_utf8(a.container_name);
    vstd::utf8::encode_utf8_decode_utf8(b.container_name);
    vstd::utf8::encode_utf8_decode_utf8(c.container_name);
    vstd::utf8::encode_utf8_decode_utf8(a.item_name);
    vstd::utf8::encode_utf8_decode_utf8(b.item_name);
    vstd::utf8::encode_utf8_decode_utf8(c.item_name);
}

/// Three-way comparison of side triples.
fn compare_sides(a: (u64, u64, u64), b: (u64, u64, u64)) -> (r: i8)
    ensures
        r == order_sides(a, b),
{
    if a.0 != b.0 {
        return if a.0 < b.0 { -1 } else { 1 };
    }
    if a.1 != b.1 {
        return if a.1 < b.1 { -1 } else { 1 };
    }
    if a.2 != b.2 {
        return if a.2 < b.2 { -1 } else { 1 };
    }
    0
}

/// `a` ranks strictly better than `b`.
fn score_less(a: &CandidateScore, b: &CandidateScore) -> (r: bool)
    ensures
        r == (score_order(a@, b@) < 0),
{
    let o = if a.opens_container == b.opens_container {
        0
    } else if !a.opens_container {
        -1
    } else {
        1
    };
    if o != 0 {
        return o < 0;
    }
    let o = compare_u128(a.unsupported_area, b.unsupported_area);
    if o != 0 {
        return o < 0;
    }
    let o = compare_u128(b.contact_area, a.contact_area);
    if o != 0 {
        return o < 0;
    }
    let o = compare_u128(a.bounding_volume, b.bounding_volume);
    if o != 0 {
        return o < 0;
    }
    let o = compare_u128(a.residual_space_volume, b.residual_space_volume);
    if o != 0 {
        return o < 0;
    }
    let o = compare_u128(a.fragmentation as u128, b.fragmentation as u128);
    if o != 0 {
        return o < 0;
    }
    let o = compare_u128(a.container_volume, b.container_volume);
    if o != 0 {
        return o < 0;
    }
    let o = compare_u128(a.z as u128, b.z as u128);
    if o != 0 {
        return o < 0;
    }
    let o = compare_u128(a.y as u128, b.y as u128);
    if o != 0 {
        return o < 0;
    }
    let o = compare_u128(a.x as u128, b.x as u128);
    if o != 0 {
        return o < 0;
    }
    let o = compare_sides(a.container_dimensions, b.container_dimensions);
    if o != 0 {
        return o < 0;
    }
    let o = compare_str(a.container_name.as_str(), b.container_name.as_str());
    if o != 0 {
        return o < 0;
    }
    let o = compare_str(a.item_name.as_str(), b.item_name.as_str());
    if o != 0 {
        return o < 0;
    }
    let o = compare_sides(a.rotation, b.rotation);
    if o != 0 {
        return o < 0;
    }
    a.container_id.index() < b.container_id.index()
}

/// A chosen position for an item: its container, box and score.
struct Candidate {
    container_id: ContainerId,
    bounds: Aabb,
    score: CandidateScore,
}

/// Signature of a tried position: the free-space origin and the rotation.
type Signature = (u64, u64, u64, u64, u64, u64);

/// Minimum corner of a space.
pub open spec fn space_origin(s: FreeSpace) -> (u64, u64, u64) {
    (s.x_min, s.y_min, s.z_min)
}

/// Indices name a state, one of its spaces and a rotation.
spec fn in_range(states: Seq<ContainerState>, rots: Seq<Sides>, si: int, pi: int, ri: int) -> bool {
    0 <= si < states.len() && 0 <= pi < states[si].spaces@.len() && 0 <= ri < rots.len()
}

/// Rotation `ri` fits in space `pi` of state `si`.
spec fn fits_at(states: Seq<ContainerState>, rots: Seq<Sides>, si: int, pi: int, ri: int) -> bool {
    let sp = states[si].spaces@[pi];
    let d = rots[ri];
    d.0 <= sp.x_max - sp.x_min && d.1 <= sp.y_max - sp.y_min && d.2 <= sp.z_max - sp.z_min
}

/// An earlier fitting try in the same state had the same origin and rotation.
spec fn duplicate_before(states: Seq<ContainerState>, rots: Seq<Sides>, si: int, pi: int, ri: int) -> bool {
    exists|pj: int, rj: int|
        #![trigger fits_at(states, rots, si, pj, rj)]
        ((0 <= pj < pi && 0 <= rj < rots.len()) || (pj == pi && 0 <= rj < ri)) && fits_at(
            states,
            rots,
            si,
            pj,
            rj,
        ) && space_origin(states[si].spaces@[pj]) == space_origin(states[si].spaces@[pi])
            && rots[rj] == rots[ri]
}

/// The box of rotation `ri` at the origin of space `pi` of state `si`.
spec fn box_of(states: Seq<ContainerState>, rots: Seq<Sides>, si: int, pi: int, ri: int) -> Extents {
    placement_extents((0, 0, (space_origin(states[si].spaces@[pi]), rots[ri]))).unwrap()
}

/// The box avoids every box already placed in the state.
spec fn clear_at(states: Seq<ContainerState>, rots: Seq<Sides>, si: int, pi: int, ri: int) -> bool {
    forall|k: int|
        0 <= k < states[si].placements@.len() ==> !extents_overlap(
            box_of(states, rots, si, pi, ri),
            placement_extents(#[trigger] states[si].placements@[k]@).unwrap(),
        )
}

/// A position the search scores: in range, fitting, first of its signature, and clear.
spec fn eligible(states: Seq<ContainerState>, rots: Seq<Sides>, si: int, pi: int, ri: int) -> bool {
    &&& in_range(states, rots, si, pi, ri)
    &&& fits_at(states, rots, si, pi, ri)
    &&& !duplicate_before(states, rots, si, pi, ri)
    &&& clear_at(states, rots, si, pi, ri)
}

/// Score of an eligible position.
spec fn score_at(
    instance: PackingInstance,
    states: Seq<ContainerState>,
    item: int,
    rots: Seq<Sides>,
    si: int,
    pi: int,
    ri: int,
) -> Option<ScoreView> {
    score_spec(
        instance.container_views()[states[si].container_id@ as int],
        states[si],
        instance.item_views()[item],
        box_of(states, rots, si, pi, ri),
        rots[ri],
        states[si].spaces@[pi],
    )
}

/// Position `(a, b, c)` is visited before `(si, pi, ri)`.
spec fn visited_before(a: int, b: int, c: int, si: int, pi: int, ri: int) -> bool {
    a < si || (a == si && (b < pi || (b == pi && c < ri)))
}

/// Number of (space, rotation) pairs over the states.
spec fn total_tries(states: Seq<ContainerState>, rotation_count: int) -> int
    decreases states.len(),
{
    if states.len() == 0 {
        0
    } else {
        total_tries(states.drop_last(), rotation_count) + states.last().spaces@.len()
            * rotation_count
    }
}

/// The signature list holds exactly the signatures of the fitting tries in
/// state `si` before `(pi, ri)`.
spec fn seen_matches(
    seen: Set<Signature>,
    states: Seq<ContainerState>,
    rots: Seq<Sides>,
    si: int,
    pi: int,
    ri: int,
) -> bool {
    forall|sig: Signature|
        seen.contains(sig) <==> exists|pj: int, rj: int|
            #![trigger fits_at(states, rots, si, pj, rj)]
            ((0 <= pj < pi && 0 <= rj < rots.len()) || (pj == pi && 0 <= rj < ri)) && fits_at(
                states,
                rots,
                si,
                pj,
                rj,
            ) && sig == (
                states[si].spaces@[pj].x_min,
                states[si].spaces@[pj].y_min,
                states[si].spaces@[pj].z_min,
                rots[rj].0,
                rots[rj].1,
                rots[rj].2,
            )
}

/// Whether `bounds` overlaps a box already placed in `state`.
fn overlaps_placed(state: &ContainerState, bounds: Aabb) -> (r: bool)
    requires
        state.wf(),
        placement_extents((0, 0, bounds@)) is Some,
    ensures
        r == exists|k: int|
            0 <= k < state.placements@.len() && extents_overlap(
                placement_extents((0, 0, bounds@)).unwrap(),
                placement_extents(#[trigger] state.placements@[k]@).unwrap(),
            ),
{
    let mut k: usize = 0;
    while k < state.placements.len()
        invariant
            0 <= k <= state.placements@.len(),
            state.wf(),
            placement_extents((0, 0, bounds@)) is Some,
            forall|m: int|
                0 <= m < k ==> !extents_overlap(
                    placement_extents((0, 0, bounds@)).unwrap(),
                    placement_extents(#[trigger] state.placements@[m]@).unwrap(),
                ),
        decreases state.placements@.len() - k,
    {
        if bounds_overlap(bounds, state.placements[k].bounds()) {
            return true;
        }
        k = k + 1;
    }
    false
}

/// Whether `sig` is in `seen`.
fn signature_seen(seen: &BTreeSet<Signature>, sig: Signature) -> (r: bool)
    ensures
        r == seen@.contains(sig),
{
    proof {
        broadcast use vstd::laws_cmp::group_laws_cmp;

        assert(vstd::laws_cmp::obeys_cmp::<Signature>());
    }
    seen.contains(&sig)
}

/// Record `sig` in `seen`.
fn remember_signature(seen: &mut BTreeSet<Signature>, sig: Signature)
    ensures
        final(seen)@ == old(seen)@.insert(sig),
{
    proof {
        broadcast use vstd::laws_cmp::group_laws_cmp;

        assert(vstd::laws_cmp::obeys_cmp::<Signature>());
    }
    seen.insert(sig);
}

/// Each state is well formed and describes its container in the instance.
spec fn states_match(instance: PackingInstance, states: Seq<ContainerState>) -> bool {
    forall|si: int|
        0 <= si < states.len() ==> {
            &&& (#[trigger] states[si]).wf()
            &&& states[si].container_id@ < instance.container_views().len()
            &&& instance.container_views()[states[si].container_id@ as int].2
                == states[si].dimensions@
        }
}

/// `best`, if any, is an eligible position with the recorded container, box and score.
spec fn found_sound(
    best: Option<Candidate>,
    instance: PackingInstance,
    states: Seq<ContainerState>,
    item: int,
    rots: Seq<Sides>,
) -> bool {
    best matches Some(c) ==> exists|a: int, b: int, cc: int|
        #![trigger eligible(states, rots, a, b, cc)]
        eligible(states, rots, a, b, cc) && c.container_id@ == states[a].container_id@
            && c.bounds@ == (space_origin(states[a].spaces@[b]), rots[cc]) && score_at(
            instance,
            states,
            item,
            rots,
            a,
            b,
            cc,
        ) == Some(c.score@)
}

/// `best` is an eligible position visited before `(si, pi, ri)`, and no such
/// position scores strictly better.
spec fn best_so_far(
    best: Option<Candidate>,
    instance: PackingInstance,
    states: Seq<ContainerState>,
    item: int,
    rots: Seq<Sides>,
    si: int,
    pi: int,
    ri: int,
) -> bool {
    &&& best matches Some(c) ==> exists|a: int, b: int, cc: int|
        #![trigger eligible(states, rots, a, b, cc)]
        visited_before(a, b, cc, si, pi, ri) && eligible(states, rots, a, b, cc)
            && c.container_id@ == states[a].container_id@ && c.bounds@ == (
            space_origin(states[a].spaces@[b]),
            rots[cc],
        ) && score_at(instance, states, item, rots, a, b, cc) == Some(c.score@)
    &&& forall|a: int, b: int, cc: int|
        #![trigger eligible(states, rots, a, b, cc)]
        visited_before(a, b, cc, si, pi, ri) && eligible(states, rots, a, b, cc) ==> {
            &&& score_at(instance, states, item, rots, a, b, cc) is Some
            &&& best is Some
            &&& score_order(
                score_at(instance, states, item, rots, a, b, cc).unwrap(),
                best.unwrap().score@,
            ) >= 0
        }
}

/// Some eligible try in state `si` has a score that overflows.
spec fn unscored_in(instance: PackingInstance, states: Seq<ContainerState>, si: int, item: int, rots: Seq<Sides>) -> bool {
    exists|b: int, c: int|
        #![trigger eligible(states, rots, si, b, c)]
        eligible(states, rots, si, b, c) && score_at(instance, states, item, rots, si, b, c) is None
}

/// Some eligible try has a score that overflows.
spec fn unscored(instance: PackingInstance, states: Seq<ContainerState>, item: int, rots: Seq<Sides>) -> bool {
    exists|a: int, b: int, c: int|
        #![trigger eligible(states, rots, a, b, c)]
        eligible(states, rots, a, b, c) && score_at(instance, states, item, rots, a, b, c) is None
}

/// The tries of a prefix of the states are no more than those of all.
proof fn lemma_total_tries_prefix(states: Seq<ContainerState>, r: int, k: int)
    requires
        0 <= k <= states.len(),
        r >= 0,
    ensures
        total_tries(states.take(k), r) <= total_tries(states, r),
    decreases states.len(),
{
    if k < states.len() {
        let rest = states.drop_last();
        assert(states.take(k) =~= rest.take(k));
        lemma_total_tries_prefix(rest, r, k);
        let m = states.last().spaces@.len() as int;
        assert(m * r >= 0) by (nonlinear_arith)
            requires
                m >= 0,
                r >= 0,
        ;
    } else {
        assert(states.take(k) =~= states);
    }
}

/// Whether some eligible try overflows depends only on the views of the states.
proof fn lemma_unscored_same_views(
    instance: PackingInstance,
    s1: Seq<ContainerState>,
    s2: Seq<ContainerState>,
    item: int,
    rots: Seq<Sides>,
)
    requires
        same_views(s1, s2),
    ensures
        unscored(instance, s1, item, rots) == unscored(instance, s2, item, rots),
{
    if unscored(instance, s1, item, rots) {
        let (a, b, c) = choose|a: int, b: int, c: int|
            #![trigger eligible(s1, rots, a, b, c)]
            eligible(s1, rots, a, b, c) && score_at(instance, s1, item, rots, a, b, c) is None;
        lemma_same_views_decide(instance, s1, s2, item, rots, a, b, c);
        assert(eligible(s2, rots, a, b, c));
    }
    if unscored(instance, s2, item, rots) {
        let (a, b, c) = choose|a: int, b: int, c: int|
            #![trigger eligible(s2, rots, a, b, c)]
            eligible(s2, rots, a, b, c) && score_at(instance, s2, item, rots, a, b, c) is None;
        lemma_same_views_decide(instance, s1, s2, item, rots, a, b, c);
        assert(eligible(s1, rots, a, b, c));
    }
}

/// The first fitting try in state `si` with the origin and rotation of try
/// `(pi, ri)` is not a duplicate.
proof fn lemma_first_signature(states: Seq<ContainerState>, rots: Seq<Sides>, si: int, pi: int, ri: int)
    requires
        in_range(states, rots, si, pi, ri),
        fits_at(states, rots, si, pi, ri),
    ensures
        exists|pj: int, rj: int|
            #![trigger fits_at(states, rots, si, pj, rj)]
            in_range(states, rots, si, pj, rj) && fits_at(states, rots, si, pj, rj) && !duplicate_before(
                states,
                rots,
                si,
                pj,
                rj,
            ) && space_origin(states[si].spaces@[pj]) == space_origin(states[si].spaces@[pi]) && rots[rj]
                == rots[ri],
    decreases pi, ri,
{
    if duplicate_before(states, rots, si, pi, ri) {
        let (pj, rj) = choose|pj: int, rj: int|
            #![trigger fits_at(states, rots, si, pj, rj)]
            ((0 <= pj < pi && 0 <= rj < rots.len()) || (pj == pi && 0 <= rj < ri)) && fits_at(
                states,
                rots,
                si,
                pj,
                rj,
            ) && space_origin(states[si].spaces@[pj]) == space_origin(states[si].spaces@[pi]) && rots[rj]
                == rots[ri];
        lemma_first_signature(states, rots, si, pj, rj);
    }
}

/// A free box of sides `rots[ri]` in state `si` leaves an eligible try there.
proof fn lemma_free_box_eligible(states: Seq<ContainerState>, rots: Seq<Sides>, si: int, ri: int, e: Extents)
    requires
        0 <= si < states.len(),
        states[si].wf(),
        0 <= ri < rots.len(),
        free_box(e, states[si].dimensions@, states[si].placements@),
        extents_sides(e) == rots[ri],
    ensures
        exists|pj: int, rj: int| #![trigger eligible(states, rots, si, pj, rj)] eligible(states, rots, si, pj, rj),
{
    let st = states[si];
    let pi = choose|i: int| 0 <= i < st.spaces@.len() && space_holds(st.spaces@[i], e);
    let sp = st.spaces@[pi];
    assert(fits_at(states, rots, si, pi, ri));
    lemma_first_signature(states, rots, si, pi, ri);
    let (pj, rj) = choose|pj: int, rj: int|
        #![trigger fits_at(states, rots, si, pj, rj)]
        in_range(states, rots, si, pj, rj) && fits_at(states, rots, si, pj, rj) && !duplicate_before(
            states,
            rots,
            si,
            pj,
            rj,
        ) && space_origin(states[si].spaces@[pj]) == space_origin(states[si].spaces@[pi]) && rots[rj] == rots[ri];
    let b = box_of(states, rots, si, pj, rj);
    assert(space_nonempty(sp) && space_in_container(sp, st.dimensions@));
    assert(b.x_min == sp.x_min && b.x_max == sp.x_min + rots[ri].0);
    assert(b.y_min == sp.y_min && b.y_max == sp.y_min + rots[ri].1);
    assert(b.z_min == sp.z_min && b.z_max == sp.z_min + rots[ri].2);
    assert forall|k: int| 0 <= k < st.placements@.len() implies !extents_overlap(
        b,
        placement_extents(#[trigger] st.placements@[k]@).unwrap(),
    ) by {
        assert(!space_intersects(sp, placement_extents(st.placements@[k]@).unwrap()));
    }
    assert(clear_at(states, rots, si, pj, rj));
    assert(eligible(states, rots, si, pj, rj));
}

/// Best position for the item among the spaces of state `si`, continuing from `best`.
#[verifier::rlimit(60)]
#[verifier::spinoff_prover]
fn search_state(
    instance: &PackingInstance,
    states: &Vec<ContainerState>,
    si: usize,
    item_id: ItemId,
    rotations: &Vec<Dimensions>,
    Ghost(rots): Ghost<Seq<Sides>>,
    best: Option<Candidate>,
    explored: &mut u64,
    request: &SolveRequest,
) -> (r: Result<(Option<Candidate>, Option<StopSignal>), SolverError>)
    requires
        rots == rotations@.map_values(|d: Dimensions| d@),
        states_match(*instance, states@),
        0 <= si < states@.len(),
        item_id@ < instance.item_views().len(),
        best_so_far(best, *instance, states@, item_id@ as int, rots, si as int, 0, 0),
    ensures
        r matches Ok((found, stop)) ==> {
            let interrupted = stop is Some;
            &&& found_sound(found, *instance, states@, item_id@ as int, rots)
            &&& !interrupted ==> best_so_far(found, *instance, states@, item_id@ as int, rots, si as int + 1, 0, 0)
            &&& !interrupted ==> *final(explored) == *old(explored) + states@[si as int].spaces@.len() * rotations@.len()
            &&& request.time_limit_spec() > MAX_ELAPSED_NANOS ==> !interrupted
        },
        r is Err ==> *old(explored) + states@[si as int].spaces@.len() * rotations@.len() > u64::MAX || unscored_in(
            *instance,
            states@,
            si as int,
            item_id@ as int,
            rots,
        ),
{
    let ghost item = item_id@ as int;
    let ghost sts = states@;
    let state = &states[si];
    assert(state.wf());
    let mut best = best;
    let mut seen: BTreeSet<Signature> = BTreeSet::new();
    let mut pi: usize = 0;
    let n_spaces = state.spaces.len();
    let n_rots = rotations.len();
    let ghost start = *explored;
    while pi < n_spaces
        invariant
            sts == states@,
            *state == sts[si as int],
            states_match(*instance, sts),
            0 <= si < sts.len(),
            item == item_id@ as int,
            item_id@ < instance.item_views().len(),
            rots == rotations@.map_values(|d: Dimensions| d@),
            n_spaces == state.spaces@.len(),
            n_rots == rotations@.len(),
            0 <= pi <= n_spaces,
            best_so_far(best, *instance, sts, item, rots, si as int, pi as int, 0),
            seen_matches(seen@, sts, rots, si as int, pi as int, 0),
            *explored == start + pi * n_rots,
            start == *old(explored),
        decreases n_spaces - pi,
    {
        let space = state.spaces[pi];
        let mut ri: usize = 0;
        while ri < n_rots
            invariant
                sts == states@,
                *state == sts[si as int],
                states_match(*instance, sts),
                0 <= si < sts.len(),
                item == item_id@ as int,
                item_id@ < instance.item_views().len(),
                rots == rotations@.map_values(|d: Dimensions| d@),
                n_spaces == state.spaces@.len(),
                n_rots == rotations@.len(),
                0 <= pi < n_spaces,
                space == state.spaces@[pi as int],
                0 <= ri <= n_rots,
                best_so_far(best, *instance, sts, item, rots, si as int, pi as int, ri as int),
                seen_matches(seen@, sts, rots, si as int, pi as int, ri as int),
                *explored == start + pi * n_rots + ri,
                start == *old(explored),
            decreases n_rots - ri,
        {
            if let Some(signal) = request.deadline_signal() {
                proof {
                    if best is Some {
                        let (a, b, cc) = choose|a: int, b: int, cc: int|
                            #![trigger eligible(sts, rots, a, b, cc)]
                            visited_before(a, b, cc, si as int, pi as int, ri as int) && eligible(sts, rots, a, b, cc)
                                && best.unwrap().container_id@ == sts[a].container_id@ && best.unwrap().bounds@ == (
                                space_origin(sts[a].spaces@[b]),
                                rots[cc],
                            ) && score_at(*instance, sts, item, rots, a, b, cc) == Some(best.unwrap().score@);
                    }
                }
                return Ok((best, Some(signal)));
            }
            *explored = match explored.checked_add(1) {
                Some(v) => v,
                None => {
                    assert(pi * n_rots + ri + 1 <= n_spaces * n_rots) by (nonlinear_arith)
                        requires
                            0 <= pi < n_spaces,
                            0 <= ri < n_rots,
                    ;
                    assert(start + n_spaces * n_rots > u64::MAX);
                    return Err(SolverError::new("explored-candidate metric overflowed"));
                },
            };
            let rotation = rotations[ri];
            let ghost d = rots[ri as int];
            assert(rotation@ == d);
            let ghost prev_seen = seen@;
            let ghost prev_best = best;
            proof {
                assert(space_nonempty(space));
            }
            if space.fits(rotation) {
                assert(fits_at(sts, rots, si as int, pi as int, ri as int));
                let (w, l, h) = rotation.positive_sides();
                let sig: Signature = (space.x_min, space.y_min, space.z_min, w, l, h);
                let already = signature_seen(&seen, sig);
                proof {
                    if already {
                        let (pj, rj) = choose|pj: int, rj: int|
                            #![trigger fits_at(sts, rots, si as int, pj, rj)]
                            ((0 <= pj < pi && 0 <= rj < rots.len()) || (pj == pi && 0 <= rj < ri)) && fits_at(
                                sts,
                                rots,
                                si as int,
                                pj,
                                rj,
                            ) && sig == (
                                sts[si as int].spaces@[pj].x_min,
                                sts[si as int].spaces@[pj].y_min,
                                sts[si as int].spaces@[pj].z_min,
                                rots[rj].0,
                                rots[rj].1,
                                rots[rj].2,
                            );
                        assert(duplicate_before(sts, rots, si as int, pi as int, ri as int));
                    } else {
                        if duplicate_before(sts, rots, si as int, pi as int, ri as int) {
                            let (pj, rj) = choose|pj: int, rj: int|
                                #![trigger fits_at(sts, rots, si as int, pj, rj)]
                                ((0 <= pj < pi && 0 <= rj < rots.len()) || (pj == pi && 0 <= rj < ri)) && fits_at(
                                    sts,
                                    rots,
                                    si as int,
                                    pj,
                                    rj,
                                ) && space_origin(sts[si as int].spaces@[pj]) == space_origin(sts[si as int].spaces@[pi as int])
                                    && rots[rj] == rots[ri as int];
                            assert(seen@.contains(sig));
                        }
                    }
                }
                if !already {
                    remember_signature(&mut seen, sig);
                    let bounds = space.bounds_at_origin(rotation);
                    proof {
                        assert(space_in_container(space, state.dimensions@));
                        assert(placement_extents((0, 0, bounds@)) is Some);
                        assert(box_of(sts, rots, si as int, pi as int, ri as int) == placement_extents((0, 0, bounds@)).unwrap());
                    }
                    let blocked = overlaps_placed(state, bounds);
                    proof {
                        if blocked {
                            let k = choose|k: int|
                                0 <= k < state.placements@.len() && extents_overlap(
                                    placement_extents((0, 0, bounds@)).unwrap(),
                                    placement_extents(#[trigger] state.placements@[k]@).unwrap(),
                                );
                            assert(!clear_at(sts, rots, si as int, pi as int, ri as int));
                        } else {
                            assert(clear_at(sts, rots, si as int, pi as int, ri as int));
                            assert(eligible(sts, rots, si as int, pi as int, ri as int));
                        }
                    }
                    if !blocked {
                        let score = match candidate_score(instance, state, item_id, bounds, space) {
                            Ok(score) => score,
                            Err(e) => {
                                assert(eligible(sts, rots, si as int, pi as int, ri as int));
                                assert(score_at(*instance, sts, item, rots, si as int, pi as int, ri as int) is None);
                                return Err(e);
                            },
                        };
                        assert(score_at(*instance, sts, item, rots, si as int, pi as int, ri as int) == Some(score@));
                        let replace = match &best {
                            None => true,
                            Some(current) => score_less(&score, &current.score),
                        };
                        if replace {
                            let ghost new_score = score@;
                            proof {
                                assert forall|a: int, b: int, cc: int|
                                    #![trigger eligible(sts, rots, a, b, cc)]
                                    visited_before(a, b, cc, si as int, pi as int, ri as int) && eligible(sts, rots, a, b, cc) implies
                                    score_order(
                                        score_at(*instance, sts, item, rots, a, b, cc).unwrap(),
                                        new_score,
                                    ) >= 0 by {
                                    let x = score_at(*instance, sts, item, rots, a, b, cc).unwrap();
                                    lemma_score_order(x, new_score, prev_best.unwrap().score@);
                                }
                            }
                            best = Some(Candidate { container_id: state.container_id, bounds, score });
                        } else {
                            proof {
                                lemma_score_order(score@, best.unwrap().score@, score@);
                            }
                        }
                    }
                }
                proof {
                    assert forall|sg: Signature|
                        seen@.contains(sg) <==> exists|pj: int, rj: int|
                            #![trigger fits_at(sts, rots, si as int, pj, rj)]
                            ((0 <= pj < pi && 0 <= rj < rots.len()) || (pj == pi && 0 <= rj < ri + 1)) && fits_at(
                                sts,
                                rots,
                                si as int,
                                pj,
                                rj,
                            ) && sg == (
                                sts[si as int].spaces@[pj].x_min,
                                sts[si as int].spaces@[pj].y_min,
                                sts[si as int].spaces@[pj].z_min,
                                rots[rj].0,
                                rots[rj].1,
                                rots[rj].2,
                            ) by {
                        if sg == sig {
                            assert(fits_at(sts, rots, si as int, pi as int, ri as int));
                        } else if !already {
                            assert(seen@.contains(sg) == prev_seen.contains(sg));
                        }
                    }
                }
            } else {
                proof {
                    assert(!fits_at(sts, rots, si as int, pi as int, ri as int));
                    assert forall|sg: Signature|
                        seen@.contains(sg) <==> exists|pj: int, rj: int|
                            #![trigger fits_at(sts, rots, si as int, pj, rj)]
                            ((0 <= pj < pi && 0 <= rj < rots.len()) || (pj == pi && 0 <= rj < ri + 1)) && fits_at(
                                sts,
                                rots,
                                si as int,
                                pj,
                                rj,
                            ) && sg == (
                                sts[si as int].spaces@[pj].x_min,
                                sts[si as int].spaces@[pj].y_min,
                                sts[si as int].spaces@[pj].z_min,
                                rots[rj].0,
                                rots[rj].1,
                                rots[rj].2,
                            ) by {
                    }
                }
            }
            proof {
                assert forall|a: int, b: int, cc: int|
                    #![trigger eligible(sts, rots, a, b, cc)]
                    visited_before(a, b, cc, si as int, pi as int, ri + 1) && eligible(sts, rots, a, b, cc) implies {
                        &&& score_at(*instance, sts, item, rots, a, b, cc) is Some
                        &&& best is Some
                        &&& score_order(
                            score_at(*instance, sts, item, rots, a, b, cc).unwrap(),
                            best.unwrap().score@,
                        ) >= 0
                    } by {
                    if a == si && b == pi && cc == ri {
                        lemma_score_order(best.unwrap().score@, best.unwrap().score@, best.unwrap().score@);
                    }
                }
            }
            ri = ri + 1;
        }
        proof {
            assert((pi + 1) * n_rots == pi * n_rots + n_rots) by (nonlinear_arith);
            assert forall|a: int, b: int, cc: int|
                #![trigger eligible(sts, rots, a, b, cc)]
                visited_before(a, b, cc, si as int, pi + 1, 0) && eligible(sts, rots, a, b, cc) implies
                visited_before(a, b, cc, si as int, pi as int, n_rots as int) by {
            }
            if best is Some {
                let (a, b, cc) = choose|a: int, b: int, cc: int|
                    #![trigger eligible(sts, rots, a, b, cc)]
                    visited_before(a, b, cc, si as int, pi as int, n_rots as int) && eligible(sts, rots, a, b, cc)
                        && best.unwrap().container_id@ == sts[a].container_id@ && best.unwrap().bounds@ == (
                        space_origin(sts[a].spaces@[b]),
                        rots[cc],
                    ) && score_at(*instance, sts, item, rots, a, b, cc) == Some(best.unwrap().score@);
                assert(visited_before(a, b, cc, si as int, pi + 1, 0));
            }
            assert forall|sg: Signature|
                seen@.contains(sg) <==> exists|pj: int, rj: int|
                    #![trigger fits_at(sts, rots, si as int, pj, rj)]
                    ((0 <= pj < pi + 1 && 0 <= rj < rots.len()) || (pj == pi + 1 && 0 <= rj < 0)) && fits_at(
                        sts,
                        rots,
                        si as int,
                        pj,
                        rj,
                    ) && sg == (
                        sts[si as int].spaces@[pj].x_min,
                        sts[si as int].spaces@[pj].y_min,
                        sts[si as int].spaces@[pj].z_min,
                        rots[rj].0,
                        rots[rj].1,
                        rots[rj].2,
                    ) by {
            }
        }
        pi = pi + 1;
    }
    proof {
        assert forall|a: int, b: int, cc: int|
            #![trigger eligible(sts, rots, a, b, cc)]
            visited_before(a, b, cc, si + 1, 0, 0) && eligible(sts, rots, a, b, cc) implies
            visited_before(a, b, cc, si as int, n_spaces as int, 0) by {
        }
        if best is Some {
            let (a, b, cc) = choose|a: int, b: int, cc: int|
                #![trigger eligible(sts, rots, a, b, cc)]
                visited_before(a, b, cc, si as int, n_spaces as int, 0) && eligible(sts, rots, a, b, cc)
                    && best.unwrap().container_id@ == sts[a].container_id@ && best.unwrap().bounds@ == (
                    space_origin(sts[a].spaces@[b]),
                    rots[cc],
                ) && score_at(*instance, sts, item, rots, a, b, cc) == Some(best.unwrap().score@);
            assert(visited_before(a, b, cc, si + 1, 0, 0));
        }
    }
    proof {
        if best is Some {
            let (a, b, cc) = choose|a: int, b: int, cc: int|
                #![trigger eligible(sts, rots, a, b, cc)]
                visited_before(a, b, cc, si + 1, 0, 0) && eligible(sts, rots, a, b, cc)
                    && best.unwrap().container_id@ == sts[a].container_id@ && best.unwrap().bounds@ == (
                    space_origin(sts[a].spaces@[b]),
                    rots[cc],
                ) && score_at(*instance, sts, item, rots, a, b, cc) == Some(best.unwrap().score@);
        }
    }
    Ok((best, None))
}

/// Try `(a, b, c)` is eligible and scored, and no eligible try scores better.
spec fn best_at(
    instance: PackingInstance,
    states: Seq<ContainerState>,
    item: int,
    rots: Seq<Sides>,
    a: int,
    b: int,
    c: int,
) -> bool {
    &&& eligible(states, rots, a, b, c)
    &&& score_at(instance, states, item, rots, a, b, c) is Some
    &&& forall|a2: int, b2: int, c2: int|
        #![trigger eligible(states, rots, a2, b2, c2)]
        eligible(states, rots, a2, b2, c2) ==> {
            &&& score_at(instance, states, item, rots, a2, b2, c2) is Some
            &&& score_order(
                score_at(instance, states, item, rots, a, b, c).unwrap(),
                score_at(instance, states, item, rots, a2, b2, c2).unwrap(),
            ) <= 0
        }
}

/// The container and box of the best-scoring eligible try, if there is one.
spec fn best_choice(
    instance: PackingInstance,
    states: Seq<ContainerState>,
    item: int,
    rots: Seq<Sides>,
) -> Option<(usize, ((u64, u64, u64), Sides))> {
    if exists|a: int, b: int, c: int| #[trigger] best_at(instance, states, item, rots, a, b, c) {
        let (a, b, c) = choose|a: int, b: int, c: int| #[trigger] best_at(instance, states, item, rots, a, b, c);
        Some((states[a].container_id@, (space_origin(states[a].spaces@[b]), rots[c])))
    } else {
        None
    }
}

/// The best position is never in an empty container while an eligible
/// position exists in a container that already holds a placement.
proof fn lemma_best_avoids_empty_containers(
    instance: PackingInstance,
    states: Seq<ContainerState>,
    item: int,
    rots: Seq<Sides>,
    a: int,
    b: int,
    c: int,
    a2: int,
    b2: int,
    c2: int,
)
    requires
        best_at(instance, states, item, rots, a, b, c),
        eligible(states, rots, a2, b2, c2),
        states[a2].placements@.len() > 0,
    ensures
        states[a].placements@.len() > 0,
{
    let s1 = score_at(instance, states, item, rots, a, b, c).unwrap();
    let s2 = score_at(instance, states, item, rots, a2, b2, c2).unwrap();
    assert(score_order(s1, s2) <= 0);
    lemma_score_priorities(s2, s1);
    lemma_score_order(s1, s2, s1);
}

/// Container states with the same views.
spec fn same_views(s1: Seq<ContainerState>, s2: Seq<ContainerState>) -> bool {
    &&& s1.len() == s2.len()
    &&& forall|i: int| 0 <= i < s1.len() ==> #[trigger] s1[i].state_view() == s2[i].state_view()
}

/// What the search decides depends only on the views of the states.
proof fn lemma_same_views_decide(
    instance: PackingInstance,
    s1: Seq<ContainerState>,
    s2: Seq<ContainerState>,
    item: int,
    rots: Seq<Sides>,
    a: int,
    b: int,
    c: int,
)
    requires
        same_views(s1, s2),
    ensures
        eligible(s1, rots, a, b, c) == eligible(s2, rots, a, b, c),
        eligible(s1, rots, a, b, c) ==> score_at(instance, s1, item, rots, a, b, c) == score_at(
            instance,
            s2,
            item,
            rots,
            a,
            b,
            c,
        ),
{
    if 0 <= a < s1.len() {
        let v1 = s1[a].state_view();
        let v2 = s2[a].state_view();
        assert(v1 == v2);
        assert(s1[a].spaces@ == s2[a].spaces@);
        assert(s1[a].container_id@ == s2[a].container_id@);
        assert(s1[a].dimensions@ == s2[a].dimensions@);
        let p1 = s1[a].placements@.map_values(|p: Placement| p@);
        let p2 = s2[a].placements@.map_values(|p: Placement| p@);
        assert(p1 == p2);
        assert(s1[a].placements@.len() == s2[a].placements@.len());
        assert forall|k: int| 0 <= k < s1[a].placements@.len() implies #[trigger] s1[a].placements@[k]@
            == s2[a].placements@[k]@ by {
            assert(p1[k] == p2[k]);
        }
        assert forall|pj: int, rj: int| #[trigger] fits_at(s1, rots, a, pj, rj) == fits_at(s2, rots, a, pj, rj) by {}
        assert(duplicate_before(s1, rots, a, b, c) == duplicate_before(s2, rots, a, b, c)) by {
            if duplicate_before(s1, rots, a, b, c) {
                let (pj, rj) = choose|pj: int, rj: int|
                    #![trigger fits_at(s1, rots, a, pj, rj)]
                    ((0 <= pj < b && 0 <= rj < rots.len()) || (pj == b && 0 <= rj < c)) && fits_at(s1, rots, a, pj, rj)
                        && space_origin(s1[a].spaces@[pj]) == space_origin(s1[a].spaces@[b]) && rots[rj] == rots[c];
                assert(fits_at(s2, rots, a, pj, rj));
            }
            if duplicate_before(s2, rots, a, b, c) {
                let (pj, rj) = choose|pj: int, rj: int|
                    #![trigger fits_at(s2, rots, a, pj, rj)]
                    ((0 <= pj < b && 0 <= rj < rots.len()) || (pj == b && 0 <= rj < c)) && fits_at(s2, rots, a, pj, rj)
                        && space_origin(s2[a].spaces@[pj]) == space_origin(s2[a].spaces@[b]) && rots[rj] == rots[c];
                assert(fits_at(s1, rots, a, pj, rj));
            }
        }
        assert(box_of(s1, rots, a, b, c) == box_of(s2, rots, a, b, c));
        assert(clear_at(s1, rots, a, b, c) == clear_at(s2, rots, a, b, c)) by {
            if clear_at(s1, rots, a, b, c) {
                assert forall|k: int| 0 <= k < s2[a].placements@.len() implies !extents_overlap(
                    box_of(s2, rots, a, b, c),
                    placement_extents(#[trigger] s2[a].placements@[k]@).unwrap(),
                ) by {
                    assert(s1[a].placements@[k]@ == s2[a].placements@[k]@);
                }
            }
            if clear_at(s2, rots, a, b, c) {
                assert forall|k: int| 0 <= k < s1[a].placements@.len() implies !extents_overlap(
                    box_of(s1, rots, a, b, c),
                    placement_extents(#[trigger] s1[a].placements@[k]@).unwrap(),
                ) by {
                    assert(s1[a].placements@[k]@ == s2[a].placements@[k]@);
                }
            }
        }
        assert(s1[a].x_max == s2[a].x_max && s1[a].y_max == s2[a].y_max && s1[a].z_max == s2[a].z_max);
    }
}

/// Equal scores name the same container, origin and rotation.
proof fn lemma_score_identifies(
    instance: PackingInstance,
    states: Seq<ContainerState>,
    item: int,
    rots: Seq<Sides>,
    a: int,
    b: int,
    c: int,
    a2: int,
    b2: int,
    c2: int,
)
    requires
        states_match(instance, states),
        crate::validate::records_wf(instance.container_views()),
        eligible(states, rots, a, b, c),
        eligible(states, rots, a2, b2, c2),
        score_at(instance, states, item, rots, a, b, c) is Some,
        score_at(instance, states, item, rots, a, b, c) == score_at(instance, states, item, rots, a2, b2, c2),
    ensures
        states[a].container_id@ == states[a2].container_id@,
        space_origin(states[a].spaces@[b]) == space_origin(states[a2].spaces@[b2]),
        rots[c] == rots[c2],
{
    let cv = instance.container_views();
    assert(states[a].wf() && states[a2].wf());
    assert(cv[states[a].container_id@ as int].0 == states[a].container_id@);
    assert(cv[states[a2].container_id@ as int].0 == states[a2].container_id@);
    let s1 = score_at(instance, states, item, rots, a, b, c).unwrap();
    let s2 = score_at(instance, states, item, rots, a2, b2, c2).unwrap();
    assert(s1.x == s2.x && s1.y == s2.y && s1.z == s2.z);
}

/// The best choice depends only on the views of the states.
proof fn lemma_best_choice_same_views(
    instance: PackingInstance,
    s1: Seq<ContainerState>,
    s2: Seq<ContainerState>,
    item: int,
    rots: Seq<Sides>,
)
    requires
        same_views(s1, s2),
        states_match(instance, s1),
        crate::validate::records_wf(instance.container_views()),
    ensures
        best_choice(instance, s1, item, rots) == best_choice(instance, s2, item, rots),
{
    assert forall|a: int, b: int, c: int|
        #[trigger] best_at(instance, s1, item, rots, a, b, c) == best_at(instance, s2, item, rots, a, b, c) by {
        lemma_same_views_decide(instance, s1, s2, item, rots, a, b, c);
        assert forall|a2: int, b2: int, c2: int|
            eligible(s1, rots, a2, b2, c2) == #[trigger] eligible(s2, rots, a2, b2, c2) && (eligible(s1, rots, a2, b2, c2)
                ==> score_at(instance, s1, item, rots, a2, b2, c2) == score_at(instance, s2, item, rots, a2, b2, c2)) by {
            lemma_same_views_decide(instance, s1, s2, item, rots, a2, b2, c2);
        }
        if best_at(instance, s1, item, rots, a, b, c) {
            assert forall|a2: int, b2: int, c2: int|
                #![trigger eligible(s2, rots, a2, b2, c2)]
                eligible(s2, rots, a2, b2, c2) implies {
                    &&& score_at(instance, s2, item, rots, a2, b2, c2) is Some
                    &&& score_order(
                        score_at(instance, s2, item, rots, a, b, c).unwrap(),
                        score_at(instance, s2, item, rots, a2, b2, c2).unwrap(),
                    ) <= 0
                } by {
                assert(eligible(s1, rots, a2, b2, c2));
            }
        }
        if best_at(instance, s2, item, rots, a, b, c) {
            assert forall|a2: int, b2: int, c2: int|
                #![trigger eligible(s1, rots, a2, b2, c2)]
                eligible(s1, rots, a2, b2, c2) implies {
                    &&& score_at(instance, s1, item, rots, a2, b2, c2) is Some
                    &&& score_order(
                        score_at(instance, s1, item, rots, a, b, c).unwrap(),
                        score_at(instance, s1, item, rots, a2, b2, c2).unwrap(),
                    ) <= 0
                } by {
                assert(eligible(s2, rots, a2, b2, c2));
            }
        }
    }
    if exists|a: int, b: int, c: int| #[trigger] best_at(instance, s1, item, rots, a, b, c) {
        let (a1, b1, c1) = choose|a: int, b: int, c: int| #[trigger] best_at(instance, s1, item, rots, a, b, c);
        assert(best_at(instance, s2, item, rots, a1, b1, c1));
        let (a2, b2, c2) = choose|a: int, b: int, c: int| #[trigger] best_at(instance, s2, item, rots, a, b, c);
        assert(best_at(instance, s1, item, rots, a2, b2, c2));
        let x1 = score_at(instance, s1, item, rots, a1, b1, c1).unwrap();
        let x2 = score_at(instance, s1, item, rots, a2, b2, c2).unwrap();
        lemma_score_order(x1, x2, x1);
        lemma_score_identifies(instance, s1, item, rots, a1, b1, c1, a2, b2, c2);
        lemma_same_views_decide(instance, s1, s2, item, rots, a2, b2, c2);
        assert(s1[a2].state_view() == s2[a2].state_view());
        assert(s1[a2].spaces@ == s2[a2].spaces@);
    } else {
        if exists|a: int, b: int, c: int| #[trigger] best_at(instance, s2, item, rots, a, b, c) {
            let (a2, b2, c2) = choose|a: int, b: int, c: int| #[trigger] best_at(instance, s2, item, rots, a, b, c);
            assert(best_at(instance, s1, item, rots, a2, b2, c2));
        }
    }
}

/// The best-scoring eligible position for the item over all container states,
/// trying each free space with each of `rotations`. When the deadline
/// interrupts the search (`true` in the result) the position found so far is
/// still eligible; otherwise it beats or ties every eligible position, and
/// `None` means there is none.
fn find_best_candidate(
    instance: &PackingInstance,
    states: &Vec<ContainerState>,
    item_id: ItemId,
    rotations: &Vec<Dimensions>,
    explored: &mut u64,
    request: &SolveRequest,
) -> (r: Result<(Option<Candidate>, Option<StopSignal>), SolverError>)
    requires
        states_match(*instance, states@),
        item_id@ < instance.item_views().len(),
    ensures
        r matches Ok((found, stop)) ==> {
            let interrupted = stop is Some;
            let rots = rotations@.map_values(|d: Dimensions| d@);
            &&& found_sound(found, *instance, states@, item_id@ as int, rots)
            &&& !interrupted ==> best_so_far(found, *instance, states@, item_id@ as int, rots, states@.len() as int, 0, 0)
            &&& !interrupted ==> *final(explored) == *old(explored) + total_tries(states@, rotations@.len() as int)
            &&& request.time_limit_spec() > MAX_ELAPSED_NANOS ==> !interrupted
            &&& !interrupted ==> best_choice(*instance, states@, item_id@ as int, rots) == match found {
                Some(c) => Some((c.container_id@, c.bounds@)),
                None => None,
            }
        },
        r is Err ==> *old(explored) + total_tries(states@, rotations@.len() as int) > u64::MAX || unscored(
            *instance,
            states@,
            item_id@ as int,
            rotations@.map_values(|d: Dimensions| d@),
        ),
{
    let ghost rots = rotations@.map_values(|d: Dimensions| d@);
    let ghost start = *explored;
    let mut best: Option<Candidate> = None;
    let mut si: usize = 0;
    assert(states@.take(0) =~= Seq::<ContainerState>::empty());
    while si < states.len()
        invariant
            states_match(*instance, states@),
            item_id@ < instance.item_views().len(),
            rots == rotations@.map_values(|d: Dimensions| d@),
            0 <= si <= states@.len(),
            best_so_far(best, *instance, states@, item_id@ as int, rots, si as int, 0, 0),
            *explored == start + total_tries(states@.take(si as int), rotations@.len() as int),
            start == *old(explored),
        decreases states@.len() - si,
    {
        let result = search_state(instance, states, si, item_id, rotations, Ghost(rots), best, explored, request);
        match result {
            Ok((found, Some(signal))) => {
                return Ok((found, Some(signal)));
            },
            Ok((found, None)) => {
                best = found;
            },
            Err(e) => {
                proof {
                    assert(states@.take(si + 1).drop_last() =~= states@.take(si as int));
                    assert(states@.take(si + 1).last() == states@[si as int]);
                    lemma_total_tries_prefix(states@, rotations@.len() as int, si + 1);
                    assert(total_tries(states@.take(si + 1), rotations@.len() as int) == total_tries(
                        states@.take(si as int),
                        rotations@.len() as int,
                    ) + states@[si as int].spaces@.len() * rotations@.len());
                    if unscored_in(*instance, states@, si as int, item_id@ as int, rots) {
                        let (b, c) = choose|b: int, c: int|
                            #![trigger eligible(states@, rots, si as int, b, c)]
                            eligible(states@, rots, si as int, b, c) && score_at(
                                *instance,
                                states@,
                                item_id@ as int,
                                rots,
                                si as int,
                                b,
                                c,
                            ) is None;
                        assert(eligible(states@, rots, si as int, b, c));
                    }
                }
                return Err(e);
            },
        }
        proof {
            assert(states@.take(si + 1).drop_last() =~= states@.take(si as int));
            assert(states@.take(si + 1).last() == states@[si as int]);
        }
        si = si + 1;
    }
    proof {
        use_type_invariant(instance);
        let sts = states@;
        let item = item_id@ as int;
        assert(states@.take(states@.len() as int) =~= states@);
        if best is Some {
            let (a, b, cc) = choose|a: int, b: int, cc: int|
                #![trigger eligible(states@, rots, a, b, cc)]
                visited_before(a, b, cc, states@.len() as int, 0, 0) && eligible(states@, rots, a, b, cc)
                    && best.unwrap().container_id@ == states@[a].container_id@ && best.unwrap().bounds@ == (
                    space_origin(states@[a].spaces@[b]),
                    rots[cc],
                ) && score_at(*instance, states@, item_id@ as int, rots, a, b, cc) == Some(best.unwrap().score@);
            let s = best.unwrap().score@;
            assert forall|a2: int, b2: int, c2: int|
                #![trigger eligible(sts, rots, a2, b2, c2)]
                eligible(sts, rots, a2, b2, c2) implies {
                    &&& score_at(*instance, sts, item, rots, a2, b2, c2) is Some
                    &&& score_order(
                        score_at(*instance, sts, item, rots, a, b, cc).unwrap(),
                        score_at(*instance, sts, item, rots, a2, b2, c2).unwrap(),
                    ) <= 0
                } by {
                assert(visited_before(a2, b2, c2, sts.len() as int, 0, 0));
                lemma_score_order(s, score_at(*instance, sts, item, rots, a2, b2, c2).unwrap(), s);
            }
            assert(best_at(*instance, sts, item, rots, a, b, cc));
            let (a1, b1, c1) = choose|a1: int, b1: int, c1: int| #[trigger] best_at(*instance, sts, item, rots, a1, b1, c1);
            let s1 = score_at(*instance, sts, item, rots, a1, b1, c1).unwrap();
            lemma_score_order(s, s1, s);
            lemma_score_identifies(*instance, sts, item, rots, a, b, cc, a1, b1, c1);
        } else {
            if exists|a: int, b: int, c: int| #[trigger] best_at(*instance, sts, item, rots, a, b, c) {
                let (a1, b1, c1) = choose|a1: int, b1: int, c1: int| #[trigger] best_at(*instance, sts, item, rots, a1, b1, c1);
                assert(visited_before(a1, b1, c1, sts.len() as int, 0, 0));
            }
        }
    }
    Ok((best, None))
}

/// The three sides in non-increasing order.
pub open spec fn sides_descending(s: Sides) -> Sides {
    let (a, b, c) = s;
    if a >= b {
        if b >= c {
            (a, b, c)
        } else if a >= c {
            (a, c, b)
        } else {
            (c, a, b)
        }
    } else {
        if a >= c {
            (b, a, c)
        } else if b >= c {
            (b, c, a)
        } else {
            (c, b, a)
        }
    }
}

/// Canonical item order: larger volume first, then larger sides (compared
/// largest first), then name, then input position.
pub open spec fn item_order(items: Seq<RecordView>, a: int, b: int) -> int {
    let ia = items[a];
    let ib = items[b];
    lex(
        order_int(sides_volume(ib.2), sides_volume(ia.2)),
        lex(
            order_sides(sides_descending(ib.2), sides_descending(ia.2)),
            lex(order_str(ia.1, ib.1), order_int(a, b)),
        ),
    )
}

/// The canonical item order is a strict total order on positions.
pub proof fn lemma_item_order(items: Seq<RecordView>, a: int, b: int, c: int)
    ensures
        item_order(items, a, b) == -item_order(items, b, a),
        item_order(items, a, b) == 0 <==> a == b,
        item_order(items, a, b) < 0 && item_order(items, b, c) < 0 ==> item_order(items, a, c) < 0,
{
    lemma_order_bytes_order(encode_utf8(items[a].1), encode_utf8(items[b].1), encode_utf8(items[c].1));
    lemma_order_bytes_order(encode_utf8(items[b].1), encode_utf8(items[c].1), encode_utf8(items[a].1));
    lemma_order_bytes_order(encode_utf8(items[a].1), encode_utf8(items[a].1), encode_utf8(items[a].1));
}

/// The sides of `d` in non-increasing order.
fn descending_sides(d: Dimensions) -> (r: (u64, u64, u64))
    ensures
        r == sides_descending(d@),
{
    let (a, b, c) = d.positive_sides();
    if a >= b {
        if b >= c {
            (a, b, c)
        } else if a >= c {
            (a, c, b)
        } else {
            (c, a, b)
        }
    } else {
        if a >= c {
            (b, a, c)
        } else if b >= c {
            (b, c, a)
        } else {
            (c, b, a)
        }
    }
}

/// Compare two items in the canonical order.
fn compare_items(instance: &PackingInstance, left: ItemId, right: ItemId) -> (r: i8)
    requires
        left@ < instance.item_views().len(),
        right@ < instance.item_views().len(),
    ensures
        r == item_order(instance.item_views(), left@ as int, right@ as int),
{
    proof {
        use_type_invariant(instance);
    }
    let left_item = &instance.items()[left.index()];
    let right_item = &instance.items()[right.index()];
    let left_volume = match left_item.dimensions().checked_volume() {
        Some(v) => v,
        None => 0,
    };
    let right_volume = match right_item.dimensions().checked_volume() {
        Some(v) => v,
        None => 0,
    };
    let o = compare_u128(right_volume, left_volume);
    if o != 0 {
        return o;
    }
    let o = compare_sides(descending_sides(right_item.dimensions()), descending_sides(left_item.dimensions()));
    if o != 0 {
        return o;
    }
    let o = compare_str(left_item.name(), right_item.name());
    if o != 0 {
        return o;
    }
    compare_u128(left.index() as u128, right.index() as u128)
}

/// Item ids in the canonical construction order.
fn canonical_item_order(instance: &PackingInstance) -> (r: Vec<ItemId>)
    ensures
        r@.map_values(|id: ItemId| id@).to_multiset() == all_positions(instance.item_views().len()).to_multiset(),
        forall|i: int, j: int|
            0 <= i < j < r@.len() ==> item_order(instance.item_views(), r@[i]@ as int, r@[j]@ as int) < 0,
{
    broadcast use vstd::seq_lib::group_to_multiset_ensures;

    proof {
        use_type_invariant(instance);
    }
    let ghost items = instance.item_views();
    let n = instance.items().len();
    assert(records_wf_positions(items));
    let mut r: Vec<ItemId> = Vec::new();
    let mut i: usize = 0;
    assert(all_positions(0) =~= Seq::<usize>::empty());
    while i < n
        invariant
            n == items.len(),
            items == instance.item_views(),
            records_wf_positions(items),
            0 <= i <= n,
            r@.map_values(|id: ItemId| id@).to_multiset() == all_positions(i as nat).to_multiset(),
            forall|k: int| 0 <= k < r@.len() ==> (#[trigger] r@[k])@ < i,
            forall|a: int, b: int|
                0 <= a < b < r@.len() ==> item_order(items, r@[a]@ as int, r@[b]@ as int) < 0,
        decreases n - i,
    {
        let id = instance.items()[i].id();
        assert(id@ == i);
        let mut k: usize = 0;
        while k < r.len() && compare_items(instance, r[k], id) < 0
            invariant
                0 <= k <= r@.len(),
                id@ == i,
                i < n,
                n == items.len(),
                items == instance.item_views(),
                forall|m: int| 0 <= m < r@.len() ==> (#[trigger] r@[m])@ < i,
                forall|m: int| 0 <= m < k ==> item_order(items, (#[trigger] r@[m])@ as int, i as int) < 0,
            decreases r@.len() - k,
        {
            k = k + 1;
        }
        let ghost before = r@;
        proof {
            if k < r@.len() {
                lemma_item_order(items, r@[k as int]@ as int, i as int, i as int);
                assert(r@[k as int]@ != i);
            }
        }
        r.insert(k, id);
        proof {
            assert(r@ =~= before.insert(k as int, id));
            assert forall|a: int, b: int| 0 <= a < b < r@.len() implies item_order(items, r@[a]@ as int, r@[b]@ as int) < 0 by {
                if b < k {
                    assert(r@[a] == before[a] && r@[b] == before[b]);
                } else if b == k {
                    assert(r@[a] == before[a]);
                } else if a == k {
                    assert(r@[b] == before[b - 1]);
                    lemma_item_order(items, i as int, before[k as int]@ as int, before[b - 1]@ as int);
                    lemma_item_order(items, before[k as int]@ as int, i as int, i as int);
                } else if a < k {
                    assert(r@[a] == before[a] && r@[b] == before[b - 1]);
                } else {
                    assert(r@[a] == before[a - 1] && r@[b] == before[b - 1]);
                }
            }
            let old_view = before.map_values(|x: ItemId| x@);
            let new_view = r@.map_values(|x: ItemId| x@);
            assert(new_view =~= old_view.insert(k as int, i as usize));
            assert(all_positions(i as nat + 1) =~= all_positions(i as nat).push(i as usize));
            vstd::seq_lib::to_multiset_insert(old_view, k as int, i as usize);
            vstd::seq_lib::to_multiset_build(all_positions(i as nat), i as usize);
        }
        i = i + 1;
    }
    r
}

/// Each record's identity is its position.
pub open spec fn records_wf_positions(records: Seq<RecordView>) -> bool {
    forall|i: int| 0 <= i < records.len() ==> (#[trigger] records[i]).0 == i
}

/// An order in which to place the items, and rotations forced on some of them.
#[derive(Clone, Debug, Eq, PartialEq)]
pub struct ConstructionPlan {
    pub item_ids: Vec<ItemId>,
    pub forced_rotations: Vec<(ItemId, usize)>,
}

/// The plan names every item of the instance exactly once.
pub open spec fn plan_covers(instance: PackingInstance, plan: ConstructionPlan) -> bool {
    plan.item_ids@.map_values(|id: ItemId| id@).to_multiset() == all_positions(
        instance.item_views().len(),
    ).to_multiset()
}

/// `ids` names every item once, in the canonical item order.
pub open spec fn canonical_order(instance: PackingInstance, ids: Seq<ItemId>) -> bool {
    &&& ids.map_values(|id: ItemId| id@).to_multiset() == all_positions(instance.item_views().len()).to_multiset()
    &&& forall|i: int, j: int|
        0 <= i < j < ids.len() ==> item_order(instance.item_views(), ids[i]@ as int, ids[j]@ as int) < 0
}

impl ConstructionPlan {
    /// Items in the canonical order, with no forced rotation.
    pub fn canonical(instance: &PackingInstance) -> (r: ConstructionPlan)
        ensures
            plan_covers(*instance, r),
            canonical_order(*instance, r.item_ids@),
            r.forced_rotations@.len() == 0,
    {
        ConstructionPlan { item_ids: canonical_item_order(instance), forced_rotations: Vec::new() }
    }

    /// The rotation index forced on `item`: the first entry naming it.
    pub fn forced_rotation(&self, item: ItemId) -> (r: Option<usize>)
        ensures
            r matches Some(k) ==> exists|i: int|
                0 <= i < self.forced_rotations@.len() && (#[trigger] self.forced_rotations@[i]).0@ == item@
                    && self.forced_rotations@[i].1 == k && forall|j: int| 0 <= j < i ==> (#[trigger] self.forced_rotations@[j]).0@ != item@,
            r is None ==> forall|i: int| 0 <= i < self.forced_rotations@.len() ==> (#[trigger] self.forced_rotations@[i]).0@ != item@,
            r == forced_for(self.forced_rotations@, item@),
    {
        let ghost forced = self.forced_rotations@;
        let mut i: usize = 0;
        while i < self.forced_rotations.len()
            invariant
                0 <= i <= self.forced_rotations@.len(),
                forced == self.forced_rotations@,
                forall|j: int| 0 <= j < i ==> (#[trigger] self.forced_rotations@[j]).0@ != item@,
            decreases self.forced_rotations@.len() - i,
        {
            let (id, rotation) = self.forced_rotations[i];
            if id.index() == item.index() {
                proof {
                    assert(first_entry(forced, item@, i as int));
                    let c = choose|c: int| #[trigger] first_entry(forced, item@, c);
                    if c < i {
                        assert(forced[c].0@ != item@);
                    } else if c > i {
                        assert(forced[i as int].0@ != item@);
                    }
                }
                return Some(rotation);
            }
            i = i + 1;
        }
        proof {
            if exists|c: int| #[trigger] first_entry(forced, item@, c) {
                let c = choose|c: int| #[trigger] first_entry(forced, item@, c);
                assert(forced[c].0@ != item@);
            }
        }
        None
    }
}

/// Entry `i` of the forced rotations is the first naming `item`.
pub open spec fn first_entry(forced: Seq<(ItemId, usize)>, item: usize, i: int) -> bool {
    &&& 0 <= i < forced.len()
    &&& forced[i].0@ == item
    &&& forall|j: int| 0 <= j < i ==> (#[trigger] forced[j]).0@ != item
}

/// The rotation index forced on `item`: that of the first entry naming it.
pub open spec fn forced_for(forced: Seq<(ItemId, usize)>, item: usize) -> Option<usize> {
    if exists|i: int| #[trigger] first_entry(forced, item, i) {
        Some(forced[choose|i: int| #[trigger] first_entry(forced, item, i)].1)
    } else {
        None
    }
}

/// The rotations tried for `item`: every orientation in increasing order,
/// or only the one the plan forces (its index taken modulo their number).
pub open spec fn rotations_for(instance: PackingInstance, forced: Seq<(ItemId, usize)>, item: usize) -> Seq<Sides> {
    let all = rotations_of(instance.item_views()[item as int].2);
    match forced_for(forced, item) {
        Some(k) => seq![all[(k as int) % (all.len() as int)]],
        None => all,
    }
}

/// The views of the states.
spec fn views_of(states: Seq<ContainerState>) -> Seq<StateView> {
    states.map_values(|st: ContainerState| st.state_view())
}

/// Container states with the views `views`.
spec fn states_with(views: Seq<StateView>) -> Seq<ContainerState> {
    choose|states: Seq<ContainerState>| #[trigger] views_of(states) == views
}

/// A construction along the item positions `ids`, with the forced
/// rotations, after its first `k` items: the views of the container states,
/// the placements, and the items left unplaced. Each item goes to the box
/// of its best-scoring eligible try, or is left unplaced when there is none.
spec fn construction_run(
    instance: PackingInstance,
    ids: Seq<usize>,
    forced: Seq<(ItemId, usize)>,
    k: nat,
) -> (Seq<StateView>, Seq<PlacementView>, Seq<usize>)
    decreases k,
{
    if k == 0 {
        (
            Seq::new(
                instance.container_views().len(),
                |c: int| empty_state_view(c as usize, instance.container_views()[c].2),
            ),
            Seq::empty(),
            Seq::empty(),
        )
    } else {
        let prev = construction_run(instance, ids, forced, (k - 1) as nat);
        let item = ids[k - 1];
        match best_choice(instance, states_with(prev.0), item as int, rotations_for(instance, forced, item)) {
            Some(choice) => {
                let p = (choice.0, item, choice.1);
                (
                    prev.0.update(choice.0 as int, prev.0[choice.0 as int].placed(p, placement_extents(p).unwrap())),
                    prev.1.push(p),
                    prev.2,
                )
            },
            None => (prev.0, prev.1, prev.2.push(item)),
        }
    }
}

/// The tries a construction along `ids` explores over its first `k` items:
/// for each item, every free space of every container with every rotation
/// the plan gives it.
pub closed spec fn construction_explored(
    instance: PackingInstance,
    ids: Seq<usize>,
    forced: Seq<(ItemId, usize)>,
    k: nat,
) -> int
    decreases k,
{
    if k == 0 {
        0
    } else {
        let prev = construction_run(instance, ids, forced, (k - 1) as nat);
        construction_explored(instance, ids, forced, (k - 1) as nat) + total_tries(
            states_with(prev.0),
            rotations_for(instance, forced, ids[k - 1]).len() as int,
        )
    }
}

/// Step `j` of the construction along `ids` overflows: a try it scores has
/// a score beyond the exact `u128` arithmetic, or the count of explored
/// tries passes `u64::MAX`.
spec fn step_overflows(instance: PackingInstance, ids: Seq<usize>, forced: Seq<(ItemId, usize)>, j: int) -> bool {
    let prev = construction_run(instance, ids, forced, j as nat);
    let item = ids[j];
    ||| construction_explored(instance, ids, forced, (j + 1) as nat) > u64::MAX
    ||| unscored(instance, states_with(prev.0), item as int, rotations_for(instance, forced, item))
}

/// Some step of the construction along the item positions `ids`, with the
/// forced rotations, overflows: a score it computes exceeds the exact
/// `u128` arithmetic, or its count of explored tries passes `u64::MAX`.
pub closed spec fn construction_overflows(
    instance: PackingInstance,
    ids: Seq<usize>,
    forced: Seq<(ItemId, usize)>,
) -> bool {
    exists|j: int| 0 <= j < ids.len() && #[trigger] step_overflows(instance, ids, forced, j)
}

/// The number of tries depends only on the views of the states.
proof fn lemma_total_tries_same_views(s1: Seq<ContainerState>, s2: Seq<ContainerState>, r: int)
    requires
        same_views(s1, s2),
    ensures
        total_tries(s1, r) == total_tries(s2, r),
    decreases s1.len(),
{
    if s1.len() > 0 {
        assert(same_views(s1.drop_last(), s2.drop_last())) by {
            assert forall|i: int| 0 <= i < s1.drop_last().len() implies #[trigger] s1.drop_last()[i].state_view()
                == s2.drop_last()[i].state_view() by {
                assert(s1[i].state_view() == s2[i].state_view());
            }
        }
        lemma_total_tries_same_views(s1.drop_last(), s2.drop_last(), r);
        assert(s1.last().state_view() == s2.last().state_view());
        assert(s1.last().spaces@ == s2.last().spaces@);
    }
}

/// The solution that a construction along the item positions `ids`, with
/// the forced rotations, reaches when nothing stops it: each item in turn
/// goes to the best-scoring eligible position among the free spaces of all
/// containers, or is left unplaced.
pub closed spec fn construction_result(
    instance: PackingInstance,
    ids: Seq<usize>,
    forced: Seq<(ItemId, usize)>,
) -> (Seq<PlacementView>, Seq<usize>) {
    let r = construction_run(instance, ids, forced, ids.len());
    (r.1, r.2)
}

/// One more item of a construction whose states have the run's views: the
/// run goes on with the search's best choice for it.
proof fn lemma_run_step(
    instance: PackingInstance,
    ids: Seq<usize>,
    forced: Seq<(ItemId, usize)>,
    k: nat,
    states: Seq<ContainerState>,
)
    requires
        k < ids.len(),
        views_of(states) == construction_run(instance, ids, forced, k).0,
        states_match(instance, states),
        crate::validate::records_wf(instance.container_views()),
    ensures
        ({
            let prev = construction_run(instance, ids, forced, k);
            let item = ids[k as int];
            construction_run(instance, ids, forced, k + 1) == match best_choice(
                instance,
                states,
                item as int,
                rotations_for(instance, forced, item),
            ) {
                Some(choice) => {
                    let p = (choice.0, item, choice.1);
                    (
                        prev.0.update(
                            choice.0 as int,
                            prev.0[choice.0 as int].placed(p, placement_extents(p).unwrap()),
                        ),
                        prev.1.push(p),
                        prev.2,
                    )
                },
                None => (prev.0, prev.1, prev.2.push(item)),
            }
        }),
        construction_explored(instance, ids, forced, k + 1) == construction_explored(instance, ids, forced, k)
            + total_tries(states, rotations_for(instance, forced, ids[k as int]).len() as int),
        step_overflows(instance, ids, forced, k as int) == (construction_explored(instance, ids, forced, k + 1)
            > u64::MAX || unscored(instance, states, ids[k as int] as int, rotations_for(instance, forced, ids[k as int]))),
{
    let prev = construction_run(instance, ids, forced, k);
    let item = ids[k as int];
    assert(views_of(states) == prev.0);
    let other = states_with(prev.0);
    assert(views_of(other) == prev.0);
    assert(same_views(states, other)) by {
        assert forall|i: int| 0 <= i < states.len() implies #[trigger] states[i].state_view() == other[i].state_view() by {
            assert(views_of(states)[i] == views_of(other)[i]);
        }
    }
    lemma_best_choice_same_views(instance, states, other, item as int, rotations_for(instance, forced, item));
    lemma_total_tries_same_views(states, other, rotations_for(instance, forced, item).len() as int);
    lemma_unscored_same_views(instance, states, other, item as int, rotations_for(instance, forced, item));
    assert((k + 1) as nat - 1 == k);
    assert(((k as int) + 1) as nat == k + 1);
}

/// What the construction in the canonical item order, with no rotation
/// forced, returns when nothing stops it.
pub closed spec fn canonical_construction(instance: PackingInstance) -> (Seq<PlacementView>, Seq<usize>) {
    construction_result(
        instance,
        item_positions(choose|ids: Seq<ItemId>| canonical_order(instance, ids)),
        Seq::empty(),
    )
}

/// The construction in the canonical item order, with no rotation forced,
/// overflows the exact arithmetic of a score or of its count of tries.
pub closed spec fn canonical_overflows(instance: PackingInstance) -> bool {
    construction_overflows(
        instance,
        item_positions(choose|ids: Seq<ItemId>| canonical_order(instance, ids)),
        Seq::empty(),
    )
}

/// The tries the construction in the canonical item order explores when
/// nothing stops it.
pub closed spec fn canonical_explored(instance: PackingInstance) -> int {
    let ids = item_positions(choose|ids: Seq<ItemId>| canonical_order(instance, ids));
    construction_explored(instance, ids, Seq::empty(), ids.len())
}

/// The canonical order of an instance is unique.
pub proof fn lemma_canonical_order_unique(instance: PackingInstance, ids1: Seq<ItemId>, ids2: Seq<ItemId>)
    requires
        instance.wf(),
        canonical_order(instance, ids1),
        canonical_order(instance, ids2),
    ensures
        item_positions(ids1) == item_positions(ids2),
{
    broadcast use vstd::seq_lib::group_to_multiset_ensures;

    let items = instance.item_views();
    let n = items.len();
    let p1 = item_positions(ids1);
    let p2 = item_positions(ids2);
    let lt = |a: usize, b: usize| item_order(items, a as int, b as int) < 0;
    assert forall|x: usize| !(#[trigger] lt(x, x)) by {
        lemma_item_order(items, x as int, x as int, x as int);
    }
    assert forall|x: usize, y: usize, z: usize| #[trigger] lt(x, y) && #[trigger] lt(y, z) implies lt(x, z) by {
        lemma_item_order(items, x as int, y as int, z as int);
    }
    assert(strictly_sorted_by(p1, lt)) by {
        assert forall|i: int, j: int| 0 <= i < j < p1.len() implies lt(#[trigger] p1[i], #[trigger] p1[j]) by {
            assert(p1[i] == ids1[i]@ && p1[j] == ids1[j]@);
        }
    }
    assert(strictly_sorted_by(p2, lt)) by {
        assert forall|i: int, j: int| 0 <= i < j < p2.len() implies lt(#[trigger] p2[i], #[trigger] p2[j]) by {
            assert(p2[i] == ids2[i]@ && p2[j] == ids2[j]@);
        }
    }
    assert forall|x: usize| p1.contains(x) <==> p2.contains(x) by {
        crate::validate::lemma_all_positions_count(n, x);
        assert(p1.to_multiset() == all_positions(n).to_multiset());
        assert(p2.to_multiset() == all_positions(n).to_multiset());
        assert(p1.contains(x) <==> p1.to_multiset().count(x) > 0);
        assert(p2.contains(x) <==> p2.to_multiset().count(x) > 0);
    }
    lemma_sorted_unique(p1, p2, lt);
}

/// Items of the placements, in order.
pub open spec fn placed_item_ids(placements: Seq<Placement>) -> Seq<usize> {
    placements.map_values(|p: Placement| p@.1)
}

/// The construction so far: state `si` describes container `si`; every
/// placement is valid, placements in one container do not overlap, and
/// each placement is recorded in its container's state.
spec fn construction_inv(instance: PackingInstance, states: Seq<ContainerState>, placements: Seq<Placement>) -> bool {
    &&& states.len() == instance.container_views().len()
    &&& states_match(instance, states)
    &&& forall|si: int| 0 <= si < states.len() ==> (#[trigger] states[si]).container_id@ == si
    &&& forall|k: int|
        0 <= k < placements.len() ==> placement_valid(
            instance.container_views(),
            instance.item_views(),
            #[trigger] placements[k]@,
        )
    &&& placements_disjoint(placements.map_values(|p: Placement| p@))
    &&& forall|k: int| 0 <= k < placements.len() ==> recorded(states, #[trigger] placements[k])
    &&& forall|si: int, m: int|
        0 <= si < states.len() && 0 <= m < states[si].placements@.len() ==> placements.contains(
            #[trigger] states[si].placements@[m],
        )
}

/// Box `e` overlaps none of the placements in container `c`.
pub open spec fn clear_in(e: Extents, c: int, ps: Seq<PlacementView>) -> bool {
    forall|k: int|
        0 <= k < ps.len() && (#[trigger] ps[k]).0 == c ==> !extents_overlap(e, placement_extents(ps[k]).unwrap())
}

/// No box of sides `d` lies in any of the containers clear of the placements.
pub open spec fn fits_nowhere(containers: Seq<RecordView>, ps: Seq<PlacementView>, d: Sides) -> bool {
    forall|c: int, e: Extents|
        0 <= c < containers.len() && #[trigger] box_in_container(e, containers[c].2) && extents_sides(e) == d
            ==> !clear_in(e, c, ps)
}

/// The plan forces no rotation on `item`.
pub open spec fn rotation_free(forced: Seq<(ItemId, usize)>, item: usize) -> bool {
    forall|i: int| 0 <= i < forced.len() ==> (#[trigger] forced[i]).0@ != item
}

/// Item `item` cannot join the packing `ps`: when the plan leaves its
/// rotation free, no orientation of it fits; otherwise some orientation of
/// it (the one it is held to) does not.
pub open spec fn cannot_place(
    instance: PackingInstance,
    forced: Seq<(ItemId, usize)>,
    ps: Seq<PlacementView>,
    item: usize,
) -> bool {
    let sides = instance.item_views()[item as int].2;
    if rotation_free(forced, item) {
        forall|d: Sides| #[trigger] is_permutation(sides, d) ==> fits_nowhere(instance.container_views(), ps, d)
    } else {
        exists|d: Sides| #[trigger] is_permutation(sides, d) && fits_nowhere(instance.container_views(), ps, d)
    }
}

/// The positions of the items named by `ids`.
pub open spec fn item_positions(ids: Seq<ItemId>) -> Seq<usize> {
    ids.map_values(|id: ItemId| id@)
}

/// Along the plan order `ids`, an item before position `cut` is left
/// unplaced only when it cannot join the final placements, and every item
/// after `cut` is left unplaced.
pub open spec fn greedy_up_to(
    instance: PackingInstance,
    ids: Seq<usize>,
    forced: Seq<(ItemId, usize)>,
    sol: (Seq<PlacementView>, Seq<usize>),
    cut: int,
) -> bool {
    &&& 0 <= cut <= ids.len()
    &&& forall|i: int|
        #![trigger ids[i]]
        0 <= i < cut && sol.1.contains(ids[i]) ==> cannot_place(instance, forced, sol.0, ids[i])
    &&& forall|i: int| #![trigger ids[i]] cut < i < ids.len() ==> sol.1.contains(ids[i])
}

/// More placements leave no more room.
proof fn lemma_fits_nowhere_grows(cs: Seq<RecordView>, ps: Seq<PlacementView>, p: PlacementView, d: Sides)
    requires
        fits_nowhere(cs, ps, d),
    ensures
        fits_nowhere(cs, ps.push(p), d),
{
    assert forall|c: int, e: Extents|
        0 <= c < cs.len() && #[trigger] box_in_container(e, cs[c].2) && extents_sides(e) == d implies !clear_in(
        e,
        c,
        ps.push(p),
    ) by {
        assert(!clear_in(e, c, ps));
        let k = choose|k: int|
            0 <= k < ps.len() && (#[trigger] ps[k]).0 == c && extents_overlap(e, placement_extents(ps[k]).unwrap());
        assert(ps.push(p)[k] == ps[k]);
    }
}

/// An item that cannot join a packing cannot join it after one more placement.
proof fn lemma_cannot_place_grows(
    instance: PackingInstance,
    forced: Seq<(ItemId, usize)>,
    ps: Seq<PlacementView>,
    p: PlacementView,
    item: usize,
)
    requires
        cannot_place(instance, forced, ps, item),
    ensures
        cannot_place(instance, forced, ps.push(p), item),
{
    let sides = instance.item_views()[item as int].2;
    let cs = instance.container_views();
    if rotation_free(forced, item) {
        assert forall|d: Sides| #[trigger] is_permutation(sides, d) implies fits_nowhere(cs, ps.push(p), d) by {
            lemma_fits_nowhere_grows(cs, ps, p, d);
        }
    } else {
        let d = choose|d: Sides| #[trigger] is_permutation(sides, d) && fits_nowhere(cs, ps, d);
        lemma_fits_nowhere_grows(cs, ps, p, d);
    }
}

/// With no eligible try left, no box of any tried rotation fits in any
/// container clear of the placements.
proof fn lemma_no_eligible_fits_nowhere(
    instance: PackingInstance,
    states: Seq<ContainerState>,
    placements: Seq<Placement>,
    rots: Seq<Sides>,
    ri: int,
)
    requires
        construction_inv(instance, states, placements),
        0 <= ri < rots.len(),
        forall|a: int, b: int, cc: int| #![trigger eligible(states, rots, a, b, cc)] !eligible(states, rots, a, b, cc),
    ensures
        fits_nowhere(instance.container_views(), placements.map_values(|p: Placement| p@), rots[ri]),
{
    let cs = instance.container_views();
    let ps = placements.map_values(|p: Placement| p@);
    assert forall|c: int, e: Extents|
        0 <= c < cs.len() && #[trigger] box_in_container(e, cs[c].2) && extents_sides(e) == rots[ri] implies !clear_in(
        e,
        c,
        ps,
    ) by {
        if clear_in(e, c, ps) {
            let st = states[c];
            assert(st.wf());
            assert(st.container_id@ == c);
            assert forall|m: int| 0 <= m < st.placements@.len() implies !extents_overlap(
                e,
                placement_extents(#[trigger] st.placements@[m]@).unwrap(),
            ) by {
                let q = st.placements@[m];
                assert(placements.contains(q));
                let k = choose|k: int| 0 <= k < placements.len() && placements[k] == q;
                assert(ps[k] == q@);
            }
            assert(free_box(e, st.dimensions@, st.placements@));
            lemma_free_box_eligible(states, rots, c, ri, e);
        }
    }
}

/// The placement is among those of its container's state.
spec fn recorded(states: Seq<ContainerState>, p: Placement) -> bool {
    exists|m: int|
        0 <= m < states[p@.0 as int].placements@.len() && #[trigger] states[p@.0 as int].placements@[m] == p
}

/// Placing an item at an eligible position, with a rotation of the item,
/// keeps the construction invariant.
proof fn lemma_place_keeps_construction(
    instance: PackingInstance,
    states: Seq<ContainerState>,
    new_states: Seq<ContainerState>,
    placements: Seq<Placement>,
    rots: Seq<Sides>,
    item: usize,
    a: int,
    b: int,
    cc: int,
    p: Placement,
)
    requires
        construction_inv(instance, states, placements),
        eligible(states, rots, a, b, cc),
        item < instance.item_views().len(),
        forall|i: int| 0 <= i < rots.len() ==> is_permutation(instance.item_views()[item as int].2, #[trigger] rots[i]),
        p@ == (a as usize, item, (space_origin(states[a].spaces@[b]), rots[cc])),
        new_states.len() == states.len(),
        forall|si: int| 0 <= si < states.len() && si != a ==> #[trigger] new_states[si] == states[si],
        new_states[a].placements@ == states[a].placements@.push(p),
        new_states[a].container_id == states[a].container_id,
        new_states[a].dimensions == states[a].dimensions,
        new_states[a].wf(),
    ensures
        construction_inv(instance, new_states, placements.push(p)),
{
    let cviews = instance.container_views();
    let iviews = instance.item_views();
    let st = states[a];
    let sp = st.spaces@[b];
    let rot = rots[cc];
    assert(st.wf());
    assert(space_in_container(sp, st.dimensions@));
    assert(cviews[a].2 == st.dimensions@);
    assert(sp.x_min + rot.0 <= sp.x_max && sp.y_min + rot.1 <= sp.y_max && sp.z_min + rot.2 <= sp.z_max);
    assert(placement_extents(p@) == placement_extents((0, 0, (space_origin(sp), rot))));
    assert(placement_extents(p@) is Some);
    assert(placement_extents(p@).unwrap() == box_of(states, rots, a, b, cc));
    assert(placement_valid(cviews, iviews, p@));
    let ps = placements.push(p);
    let views = ps.map_values(|q: Placement| q@);
    let old_views = placements.map_values(|q: Placement| q@);
    assert forall|k: int| 0 <= k < ps.len() implies placement_valid(cviews, iviews, #[trigger] ps[k]@) by {
        if k < placements.len() {
            assert(ps[k] == placements[k]);
        }
    }
    assert forall|i: int, j: int|
        0 <= i < j < views.len() && (#[trigger] views[i]).0 == (#[trigger] views[j]).0 implies !extents_overlap(
        placement_extents(views[i]).unwrap(),
        placement_extents(views[j]).unwrap(),
    ) by {
        if j < placements.len() {
            assert(views[i] == old_views[i] && views[j] == old_views[j]);
        } else {
            assert(views[j] == p@);
            assert(views[i] == placements[i]@);
            assert(recorded(states, placements[i]));
            let m = choose|m: int|
                0 <= m < states[placements[i]@.0 as int].placements@.len() && #[trigger] states[placements[i]@.0 as int].placements@[m]
                    == placements[i];
            assert(placements[i]@.0 == a);
            assert(states[a].placements@[m] == placements[i]);
            assert(!extents_overlap(box_of(states, rots, a, b, cc), placement_extents(states[a].placements@[m]@).unwrap()));
        }
    }
    assert forall|si: int| 0 <= si < new_states.len() implies {
        &&& (#[trigger] new_states[si]).wf()
        &&& new_states[si].container_id@ < cviews.len()
        &&& cviews[new_states[si].container_id@ as int].2 == new_states[si].dimensions@
    } by {
        if si != a {
            assert(new_states[si] == states[si]);
        }
    }
    assert forall|si: int| 0 <= si < new_states.len() implies (#[trigger] new_states[si]).container_id@ == si by {
        if si != a {
            assert(new_states[si] == states[si]);
        }
    }
    assert forall|k: int| 0 <= k < ps.len() implies recorded(new_states, #[trigger] ps[k]) by {
        if k < placements.len() {
            assert(ps[k] == placements[k]);
            assert(recorded(states, placements[k]));
            let c = placements[k]@.0 as int;
            let m = choose|m: int|
                0 <= m < states[c].placements@.len() && #[trigger] states[c].placements@[m] == placements[k];
            if c == a {
                assert(new_states[a].placements@[m] == placements[k]);
            } else {
                assert(new_states[c] == states[c]);
                assert(new_states[c].placements@[m] == placements[k]);
            }
        } else {
            assert(ps[k] == p);
            assert(new_states[a].placements@[states[a].placements@.len() as int] == p);
        }
    }
    assert forall|si: int, m: int|
        0 <= si < new_states.len() && 0 <= m < new_states[si].placements@.len() implies ps.contains(
        #[trigger] new_states[si].placements@[m],
    ) by {
        let q = new_states[si].placements@[m];
        if si == a && m == states[a].placements@.len() {
            assert(q == p);
            assert(ps[placements.len() as int] == p);
        } else {
            if si != a {
                assert(new_states[si] == states[si]);
            }
            assert(q == states[si].placements@[m]);
            assert(placements.contains(q));
            let k = choose|k: int| 0 <= k < placements.len() && placements[k] == q;
            assert(ps[k] == q);
        }
    }
    assert(states_match(instance, new_states));
    assert(placements_disjoint(views));
    assert(new_states.len() == cviews.len());
}

/// Place the items in the plan's order, each at its best-scoring position
/// (only its forced rotation when one is given), leaving it unplaced when no
/// position is eligible. Once the request should stop (cancelled or past
/// its deadline) the remaining items are left unplaced. The returned
/// solution is independently valid.
pub fn solve_with_plan(instance: &PackingInstance, request: &SolveRequest, plan: &ConstructionPlan) -> (r: Result<SolverOutcome, SolverError>)
    requires
        plan_covers(*instance, *plan),
    ensures
        r matches Ok(outcome) ==> {
            &&& solution_valid(*instance, outcome.solution_spec()@)
            &&& outcome.optimality_spec() == OptimalityStatus::Heuristic
            &&& outcome.metrics_spec()@.1 == 1
            &&& outcome.metrics_spec()@.2 == outcome.solution_spec()@.0.len()
            &&& exists|cut: int|
                #[trigger] greedy_up_to(
                    *instance,
                    item_positions(plan.item_ids@),
                    plan.forced_rotations@,
                    outcome.solution_spec()@,
                    cut,
                ) && (cut == plan.item_ids@.len() ==> outcome.solution_spec()@ == construction_result(
                    *instance,
                    item_positions(plan.item_ids@),
                    plan.forced_rotations@,
                ) && outcome.metrics_spec()@.0 == construction_explored(
                    *instance,
                    item_positions(plan.item_ids@),
                    plan.forced_rotations@,
                    plan.item_ids@.len() as nat,
                ))
            &&& !outcome.stopped_spec() ==> greedy_up_to(
                *instance,
                item_positions(plan.item_ids@),
                plan.forced_rotations@,
                outcome.solution_spec()@,
                plan.item_ids@.len() as int,
            )
            &&& !outcome.stopped_spec() ==> outcome.solution_spec()@ == construction_result(
                *instance,
                item_positions(plan.item_ids@),
                plan.forced_rotations@,
            ) && outcome.metrics_spec()@.0 == construction_explored(
                *instance,
                item_positions(plan.item_ids@),
                plan.forced_rotations@,
                plan.item_ids@.len() as nat,
            )
        },
        r is Err ==> construction_overflows(*instance, item_positions(plan.item_ids@), plan.forced_rotations@),
{
    construct(instance, request, plan, true)
}

/// Moving the item at `position` of the plan to the unplaced items keeps
/// the multiset of all items named.
proof fn lemma_move_to_unplaced(placed: Seq<usize>, unplaced: Seq<ItemId>, ids: Seq<usize>, position: int, item: ItemId)
    requires
        0 <= position < ids.len(),
        ids[position] == item@,
    ensures
        placed.to_multiset().add(unplaced.push(item).map_values(|id: ItemId| id@).to_multiset()).add(
            ids.skip(position + 1).to_multiset(),
        ) == placed.to_multiset().add(unplaced.map_values(|id: ItemId| id@).to_multiset()).add(
            ids.skip(position).to_multiset(),
        ),
{
    broadcast use {vstd::seq_lib::group_to_multiset_ensures, vstd::multiset::group_multiset_axioms};

    assert(unplaced.push(item).map_values(|id: ItemId| id@) =~= unplaced.map_values(|id: ItemId| id@).push(item@));
    assert(ids.skip(position) =~= ids.skip(position + 1).insert(0, item@));
    vstd::seq_lib::to_multiset_insert(ids.skip(position + 1), 0, item@);
    let a = placed.to_multiset();
    let b = unplaced.map_values(|id: ItemId| id@).to_multiset();
    let c = ids.skip(position + 1).to_multiset();
    assert(a.add(b.insert(item@)).add(c) =~= a.add(b).add(c.insert(item@)));
}

/// Moving the item at `position` of the plan to a new placement keeps the
/// multiset of all items named.
proof fn lemma_move_to_placed(
    placements: Seq<Placement>,
    unplaced: Seq<usize>,
    ids: Seq<usize>,
    position: int,
    p: Placement,
)
    requires
        0 <= position < ids.len(),
        ids[position] == p@.1,
    ensures
        placed_item_ids(placements.push(p)).to_multiset().add(unplaced.to_multiset()).add(
            ids.skip(position + 1).to_multiset(),
        ) == placed_item_ids(placements).to_multiset().add(unplaced.to_multiset()).add(
            ids.skip(position).to_multiset(),
        ),
{
    broadcast use {vstd::seq_lib::group_to_multiset_ensures, vstd::multiset::group_multiset_axioms};

    assert(placed_item_ids(placements.push(p)) =~= placed_item_ids(placements).push(p@.1));
    assert(ids.skip(position) =~= ids.skip(position + 1).insert(0, p@.1));
    vstd::seq_lib::to_multiset_insert(ids.skip(position + 1), 0, p@.1);
    let a = placed_item_ids(placements).to_multiset();
    let b = unplaced.to_multiset();
    let c = ids.skip(position + 1).to_multiset();
    assert(a.insert(p@.1).add(b).add(c) =~= a.add(b).add(c.insert(p@.1)));
}

/// The items placed, those left unplaced, and the rest of the plan from
/// `position` on name every item once.
spec fn accounted(
    instance: PackingInstance,
    ids: Seq<usize>,
    placements: Seq<Placement>,
    unplaced: Seq<ItemId>,
    position: int,
) -> bool {
    placed_item_ids(placements).to_multiset().add(unplaced.map_values(|id: ItemId| id@).to_multiset()).add(
        ids.skip(position).to_multiset(),
    ) == all_positions(instance.item_views().len()).to_multiset()
}

/// The item at `position` either joined the placements or the unplaced items.
spec fn one_more(
    item: usize,
    ps0: Seq<PlacementView>,
    ps1: Seq<PlacementView>,
    un0: Seq<usize>,
    un1: Seq<usize>,
) -> bool {
    ||| ps1 == ps0 && un1 == un0.push(item)
    ||| ps1.len() == ps0.len() + 1 && ps1 == ps0.push(ps1.last()) && ps1.last().1 == item && un1 == un0
}

/// After one more item, the items further along the plan are still not
/// unplaced, and an item before the cut is left unplaced only when it cannot
/// be placed.
proof fn lemma_greedy_step(
    instance: PackingInstance,
    forced: Seq<(ItemId, usize)>,
    ids: Seq<usize>,
    position: int,
    ps0: Seq<PlacementView>,
    ps1: Seq<PlacementView>,
    un0: Seq<usize>,
    un1: Seq<usize>,
    interrupted: bool,
)
    requires
        ids.no_duplicates(),
        0 <= position < ids.len(),
        one_more(ids[position], ps0, ps1, un0, un1),
        !interrupted && un1 == un0.push(ids[position]) ==> cannot_place(instance, forced, ps1, ids[position]),
        forall|i: int| #![trigger ids[i]] position <= i < ids.len() ==> !un0.contains(ids[i]),
        forall|i: int|
            #![trigger ids[i]]
            0 <= i < position && un0.contains(ids[i]) ==> cannot_place(instance, forced, ps0, ids[i]),
    ensures
        forall|i: int| #![trigger ids[i]] position + 1 <= i < ids.len() ==> !un1.contains(ids[i]),
        forall|i: int|
            #![trigger ids[i]]
            0 <= i < position + 1 && (interrupted ==> i < position) && un1.contains(ids[i]) ==> cannot_place(
                instance,
                forced,
                ps1,
                ids[i],
            ),
{
    let item = ids[position];
    assert forall|i: int| #![trigger ids[i]] position + 1 <= i < ids.len() implies !un1.contains(ids[i]) by {
        assert(ids[i] != item);
        assert(!un0.contains(ids[i]));
        if un1 == un0.push(item) && un1.contains(ids[i]) {
            let m = choose|m: int| 0 <= m < un1.len() && un1[m] == ids[i];
            assert(m < un0.len());
            assert(un0[m] == ids[i]);
        }
    }
    assert forall|i: int|
        #![trigger ids[i]]
        0 <= i < position + 1 && (interrupted ==> i < position) && un1.contains(ids[i]) implies cannot_place(
        instance,
        forced,
        ps1,
        ids[i],
    ) by {
        if i < position {
            assert(ids[i] != item);
            assert(un0.contains(ids[i])) by {
                if un1 == un0.push(item) {
                    let m = choose|m: int| 0 <= m < un1.len() && un1[m] == ids[i];
                    assert(m < un0.len());
                    assert(un0[m] == ids[i]);
                }
            }
            if ps1 != ps0 {
                lemma_cannot_place_grows(instance, forced, ps0, ps1.last(), ids[i]);
            }
        } else {
            assert(!un0.contains(item));
            if un1 == un0 {
                assert(false);
            }
        }
    }
}

/// The rotations the plan gives item `item_id`: all its orientations in
/// increasing order, or the one the plan forces.
fn plan_rotations(instance: &PackingInstance, plan: &ConstructionPlan, item_id: ItemId) -> (r: Vec<Dimensions>)
    requires
        item_id@ < instance.item_views().len(),
    ensures
        r@.map_values(|d: Dimensions| d@) == rotations_for(*instance, plan.forced_rotations@, item_id@),
        lists_rotations(
            instance.item_views()[item_id@ as int].2,
            rotations_of(instance.item_views()[item_id@ as int].2),
        ),
        forall|i: int|
            0 <= i < r@.len() ==> is_permutation(instance.item_views()[item_id@ as int].2, #[trigger] r@[i]@),
{
    let dimensions = instance.items()[item_id.index()].dimensions();
    let all_rotations = dimensions.unique_rotations();
    let forced_index = plan.forced_rotation(item_id);
    let rotations = match forced_index {
        Some(index) => {
            proof {
                assert(side_permutations(dimensions@)[0] == dimensions@);
                assert(is_permutation(dimensions@, dimensions@));
            }
            let chosen = all_rotations[index % all_rotations.len()];
            let mut only: Vec<Dimensions> = Vec::new();
            only.push(chosen);
            only
        },
        None => all_rotations,
    };
    proof {
        let rots = rotations@.map_values(|d: Dimensions| d@);
        assert(dimensions@ == instance.item_views()[item_id@ as int].2);
        let all = rotations_of(dimensions@);
        assert(all_rotations@.map_values(|d: Dimensions| d@) == all);
        match forced_index {
            Some(index) => {
                let m = (index as int) % (all.len() as int);
                assert(rots =~= seq![all[m]]);
            },
            None => {
                assert(rots == all);
            },
        }
        lemma_rotations_for(*instance, plan.forced_rotations@, item_id@, rots);
        assert forall|i: int| 0 <= i < rotations@.len() implies is_permutation(
            instance.item_views()[item_id@ as int].2,
            #[trigger] rotations@[i]@,
        ) by {
            assert(rots[i] == rotations@[i]@);
        }
    }
    rotations
}

/// The rotations the plan gives an item are orientations of it.
proof fn lemma_rotations_for(instance: PackingInstance, forced: Seq<(ItemId, usize)>, item: usize, rots: Seq<Sides>)
    requires
        item < instance.item_views().len(),
        lists_rotations(instance.item_views()[item as int].2, rotations_of(instance.item_views()[item as int].2)),
        rots == (match forced_for(forced, item) {
            Some(k) => seq![
                rotations_of(instance.item_views()[item as int].2)[(k as int) % (rotations_of(
                    instance.item_views()[item as int].2,
                ).len() as int)],
            ],
            None => rotations_of(instance.item_views()[item as int].2),
        }),
    ensures
        rots == rotations_for(instance, forced, item),
        rots.len() > 0,
        forall|i: int| 0 <= i < rots.len() ==> is_permutation(instance.item_views()[item as int].2, #[trigger] rots[i]),
{
    let sides = instance.item_views()[item as int].2;
    let all = rotations_of(sides);
    assert(side_permutations(sides)[0] == sides);
    assert(all.contains(sides));
    assert forall|i: int| 0 <= i < all.len() implies is_permutation(sides, #[trigger] all[i]) by {
        assert(all.contains(all[i]));
    }
}

/// Replacing the state of container `a` changes only its view.
proof fn lemma_views_update(before: Seq<ContainerState>, after: Seq<ContainerState>, a: int, v: StateView)
    requires
        0 <= a < before.len(),
        after.len() == before.len(),
        forall|si: int| 0 <= si < before.len() && si != a ==> #[trigger] after[si] == before[si],
        after[a].state_view() == v,
    ensures
        views_of(after) == views_of(before).update(a, v),
{
    assert forall|si: int| 0 <= si < after.len() implies #[trigger] views_of(after)[si] == views_of(before).update(a, v)[si] by {
        if si != a {
            assert(after[si] == before[si]);
        }
    }
    assert(views_of(after) =~= views_of(before).update(a, v));
}

/// An item with no eligible try among the rotations the plan gives it
/// cannot join the placements.
proof fn lemma_nothing_eligible_cannot_place(
    instance: PackingInstance,
    forced: Seq<(ItemId, usize)>,
    states: Seq<ContainerState>,
    placements: Seq<Placement>,
    rots: Seq<Sides>,
    item: usize,
)
    requires
        construction_inv(instance, states, placements),
        item < instance.item_views().len(),
        lists_rotations(instance.item_views()[item as int].2, rotations_of(instance.item_views()[item as int].2)),
        rots == rotations_for(instance, forced, item),
        forall|a: int, b: int, cc: int| #![trigger eligible(states, rots, a, b, cc)] !eligible(states, rots, a, b, cc),
    ensures
        cannot_place(instance, forced, placements.map_values(|q: Placement| q@), item),
{
    let sides = instance.item_views()[item as int].2;
    let all = rotations_of(sides);
    let ps = placements.map_values(|q: Placement| q@);
    assert(side_permutations(sides)[0] == sides);
    assert(is_permutation(sides, sides));
    assert(all.contains(sides));
    if forced_for(forced, item) is None {
        assert(rotation_free(forced, item)) by {
            if !rotation_free(forced, item) {
                let i = choose|i: int| 0 <= i < forced.len() && (#[trigger] forced[i]).0@ == item;
                lemma_first_entry_exists(forced, item, i);
            }
        }
        assert forall|d: Sides| #[trigger] is_permutation(sides, d) implies fits_nowhere(instance.container_views(), ps, d) by {
            assert(all.contains(d));
            let ri = choose|ri: int| 0 <= ri < all.len() && all[ri] == d;
            lemma_no_eligible_fits_nowhere(instance, states, placements, rots, ri);
        }
    } else {
        let k = forced_for(forced, item).unwrap();
        let i = choose|i: int| #[trigger] first_entry(forced, item, i);
        assert(!rotation_free(forced, item));
        assert(all.len() > 0);
        let m = (k as int) % (all.len() as int);
        assert(all.contains(all[m]));
        lemma_no_eligible_fits_nowhere(instance, states, placements, rots, 0);
        assert(is_permutation(sides, rots[0]));
    }
}

/// Some entry names `item`, so a first one does.
proof fn lemma_first_entry_exists(forced: Seq<(ItemId, usize)>, item: usize, i: int)
    requires
        0 <= i < forced.len(),
        forced[i].0@ == item,
    ensures
        exists|j: int| #[trigger] first_entry(forced, item, j),
    decreases i,
{
    if exists|j: int| 0 <= j < i && (#[trigger] forced[j]).0@ == item {
        let j = choose|j: int| 0 <= j < i && (#[trigger] forced[j]).0@ == item;
        lemma_first_entry_exists(forced, item, j);
    } else {
        assert(first_entry(forced, item, i));
    }
}

/// Place the item at `position` of the plan at the box of its best-scoring
/// eligible try, with the rotations the plan gives it, or leave it unplaced
/// when there is none. The result is `true` when the deadline cut the
/// search short; the item then goes to the best try found so far, if any.
#[verifier::rlimit(80)]
#[verifier::spinoff_prover]
fn construct_step(
    instance: &PackingInstance,
    request: &SolveRequest,
    plan: &ConstructionPlan,
    position: usize,
    states: &mut Vec<ContainerState>,
    placements: &mut Vec<Placement>,
    unplaced: &mut Vec<ItemId>,
    explored: &mut u64,
) -> (r: Result<Option<StopSignal>, SolverError>)
    requires
        position < plan.item_ids@.len(),
        plan_covers(*instance, *plan),
        old(states)@.len() == instance.container_views().len(),
        construction_inv(*instance, old(states)@, old(placements)@),
        accounted(*instance, item_positions(plan.item_ids@), old(placements)@, old(unplaced)@, position as int),
    ensures
        r matches Ok(stop) ==> {
            let interrupted = stop is Some;
            let ids = item_positions(plan.item_ids@);
            let forced = plan.forced_rotations@;
            let item = ids[position as int];
            let ps0 = old(placements)@.map_values(|q: Placement| q@);
            let ps1 = final(placements)@.map_values(|q: Placement| q@);
            let un0 = old(unplaced)@.map_values(|id: ItemId| id@);
            let un1 = final(unplaced)@.map_values(|id: ItemId| id@);
            &&& final(states)@.len() == instance.container_views().len()
            &&& construction_inv(*instance, final(states)@, final(placements)@)
            &&& accounted(*instance, ids, final(placements)@, final(unplaced)@, position + 1)
            &&& one_more(item, ps0, ps1, un0, un1)
            &&& !interrupted && un1 == un0.push(item) ==> cannot_place(*instance, forced, ps1, item)
            &&& request.time_limit_spec() > MAX_ELAPSED_NANOS ==> !interrupted
            &&& (!interrupted && views_of(old(states)@) == construction_run(*instance, ids, forced, position as nat).0
                && ps0 == construction_run(*instance, ids, forced, position as nat).1 && un0 == construction_run(
                *instance,
                ids,
                forced,
                position as nat,
            ).2) ==> {
                &&& views_of(final(states)@) == construction_run(*instance, ids, forced, position as nat + 1).0
                &&& ps1 == construction_run(*instance, ids, forced, position as nat + 1).1
                &&& un1 == construction_run(*instance, ids, forced, position as nat + 1).2
                &&& *old(explored) == construction_explored(*instance, ids, forced, position as nat) ==> *final(explored)
                    == construction_explored(*instance, ids, forced, position as nat + 1)
            }
        },
        (views_of(old(states)@) == construction_run(
            *instance,
            item_positions(plan.item_ids@),
            plan.forced_rotations@,
            position as nat,
        ).0 && *old(explored) == construction_explored(
            *instance,
            item_positions(plan.item_ids@),
            plan.forced_rotations@,
            position as nat,
        )) ==> {
            &&& r is Err ==> step_overflows(
                *instance,
                item_positions(plan.item_ids@),
                plan.forced_rotations@,
                position as int,
            )
            &&& request.time_limit_spec() > MAX_ELAPSED_NANOS && r is Ok ==> !step_overflows(
                *instance,
                item_positions(plan.item_ids@),
                plan.forced_rotations@,
                position as int,
            )
        },
{
    broadcast use vstd::seq_lib::group_to_multiset_ensures;

    proof {
        use_type_invariant(instance);
    }
    let ghost ids = item_positions(plan.item_ids@);
    let ghost forced = plan.forced_rotations@;
    let ghost ni = instance.item_views().len();
    let item_id = plan.item_ids[position];
    proof {
        assert(plan.item_ids@[position as int] == item_id);
        assert(ids[position as int] == item_id@);
        assert(ids.contains(item_id@));
        vstd::seq_lib::to_multiset_contains(ids, item_id@);
        assert(ids.to_multiset().count(item_id@) > 0);
        crate::validate::lemma_all_positions_count(ni as nat, item_id@);
        assert(item_id@ < ni);
    }
    let rotations = plan_rotations(instance, plan, item_id);
    let ghost rots = rotations@.map_values(|d: Dimensions| d@);
    let ghost before_states = states@;
    let ghost start_explored = *explored;
    let ghost on_run = views_of(before_states) == construction_run(
        *instance,
        ids,
        forced,
        position as nat,
    ).0 && start_explored == construction_explored(*instance, ids, forced, position as nat);
    proof {
        if on_run {
            lemma_run_step(*instance, ids, forced, position as nat, before_states);
        }
    }
    let (found, stop) = match find_best_candidate(instance, states, item_id, &rotations, explored, request) {
        Ok(result) => result,
        Err(e) => {
            return Err(e);
        },
    };
    let was_interrupted = stop.is_some();
    proof {
        if on_run && request.time_limit_spec() > MAX_ELAPSED_NANOS {
            assert(!was_interrupted);
            if unscored(*instance, before_states, item_id@ as int, rots) {
                let (a, b, c) = choose|a: int, b: int, c: int|
                    #![trigger eligible(before_states, rots, a, b, c)]
                    eligible(before_states, rots, a, b, c) && score_at(
                        *instance,
                        before_states,
                        item_id@ as int,
                        rots,
                        a,
                        b,
                        c,
                    ) is None;
                assert(visited_before(a, b, c, before_states.len() as int, 0, 0));
            }
            assert(!step_overflows(*instance, ids, forced, position as int));
        }
    }
    let ghost ps_before = placements@.map_values(|q: Placement| q@);
    let ghost unplaced_before = unplaced@.map_values(|id: ItemId| id@);
    let ghost run_known = !was_interrupted && views_of(before_states) == construction_run(*instance, ids, forced, position as nat).0
        && ps_before == construction_run(*instance, ids, forced, position as nat).1 && unplaced_before == construction_run(
        *instance,
        ids,
        forced,
        position as nat,
    ).2;
    proof {
        if run_known {
            lemma_run_step(*instance, ids, forced, position as nat, before_states);
        }
    }
    match found {
        Some(candidate) => {
            let ghost before = states@;
            let ghost (a, b, cc) = choose|a: int, b: int, cc: int|
                #![trigger eligible(before, rots, a, b, cc)]
                eligible(before, rots, a, b, cc) && candidate.container_id@ == before[a].container_id@
                    && candidate.bounds@ == (space_origin(before[a].spaces@[b]), rots[cc]) && score_at(
                    *instance,
                    before,
                    item_id@ as int,
                    rots,
                    a,
                    b,
                    cc,
                ) == Some(candidate.score@);
            let placement = Placement::new(candidate.container_id, item_id, candidate.bounds);
            let index = candidate.container_id.index();
            assert(index == a);
            let mut state = states.remove(index);
            assert(state == before[index as int]);
            match state.place(placement) {
                Ok(()) => {},
                Err(e) => {
                    assert(fits_at(before, rots, a, b, cc));
                    assert(placement_extents(placement@) is Some);
                    return Err(e);
                },
            }
            let ghost placed_view = state.state_view();
            states.insert(index, state);
            let ghost old_placements = placements@;
            placements.push(placement);
            proof {
                lemma_place_keeps_construction(
                    *instance,
                    before,
                    states@,
                    old_placements,
                    rots,
                    item_id@,
                    a,
                    b,
                    cc,
                    placement,
                );
                assert(placements@ =~= old_placements.push(placement));
                lemma_move_to_placed(old_placements, unplaced@.map_values(|id: ItemId| id@), ids, position as int, placement);
                assert(placements@.map_values(|q: Placement| q@) =~= ps_before.push(placement@));
                lemma_views_update(before, states@, a, placed_view);
            }
        },
        None => {
            let ghost before = unplaced@;
            unplaced.push(item_id);
            proof {
                lemma_move_to_unplaced(placed_item_ids(placements@), before, ids, position as int, item_id);
                assert(unplaced@ =~= before.push(item_id));
                assert(unplaced@.map_values(|id: ItemId| id@) =~= unplaced_before.push(item_id@));
                if !was_interrupted {
                    assert forall|a: int, b: int, cc: int|
                        #![trigger eligible(states@, rots, a, b, cc)]
                        !eligible(states@, rots, a, b, cc) by {
                        if eligible(states@, rots, a, b, cc) {
                            assert(visited_before(a, b, cc, states@.len() as int, 0, 0));
                        }
                    }
                    lemma_nothing_eligible_cannot_place(*instance, forced, states@, placements@, rots, item_id@);
                }
            }
        },
    }
    Ok(stop)
}

/// Construction with the plan; between items it stops once the deadline has
/// passed, and also once the request is cancelled when `honor_cancellation`.
#[verifier::rlimit(30)]
fn construct(
    instance: &PackingInstance,
    request: &SolveRequest,
    plan: &ConstructionPlan,
    honor_cancellation: bool,
) -> (r: Result<SolverOutcome, SolverError>)
    requires
        plan_covers(*instance, *plan),
    ensures
        r matches Ok(outcome) ==> {
            &&& solution_valid(*instance, outcome.solution_spec()@)
            &&& outcome.optimality_spec() == OptimalityStatus::Heuristic
            &&& outcome.metrics_spec()@.1 == 1
            &&& outcome.metrics_spec()@.2 == outcome.solution_spec()@.0.len()
            &&& exists|cut: int|
                #[trigger] greedy_up_to(
                    *instance,
                    item_positions(plan.item_ids@),
                    plan.forced_rotations@,
                    outcome.solution_spec()@,
                    cut,
                ) && (cut == plan.item_ids@.len() ==> outcome.solution_spec()@ == construction_result(
                    *instance,
                    item_positions(plan.item_ids@),
                    plan.forced_rotations@,
                ) && outcome.metrics_spec()@.0 == construction_explored(
                    *instance,
                    item_positions(plan.item_ids@),
                    plan.forced_rotations@,
                    plan.item_ids@.len() as nat,
                ))
            &&& !outcome.stopped_spec() ==> outcome.solution_spec()@ == construction_result(
                *instance,
                item_positions(plan.item_ids@),
                plan.forced_rotations@,
            ) && outcome.metrics_spec()@.0 == construction_explored(
                *instance,
                item_positions(plan.item_ids@),
                plan.forced_rotations@,
                plan.item_ids@.len() as nat,
            )
            &&& !outcome.stopped_spec() ==> greedy_up_to(
                *instance,
                item_positions(plan.item_ids@),
                plan.forced_rotations@,
                outcome.solution_spec()@,
                plan.item_ids@.len() as int,
            )
            &&& !honor_cancellation && request.time_limit_spec() > MAX_ELAPSED_NANOS ==> !outcome.stopped_spec()
            &&& !honor_cancellation && request.time_limit_spec() > MAX_ELAPSED_NANOS ==> greedy_up_to(
                *instance,
                item_positions(plan.item_ids@),
                plan.forced_rotations@,
                outcome.solution_spec()@,
                plan.item_ids@.len() as int,
            )
            &&& !honor_cancellation && request.time_limit_spec() > MAX_ELAPSED_NANOS ==> outcome.solution_spec()@
                == construction_result(*instance, item_positions(plan.item_ids@), plan.forced_rotations@)
            &&& !honor_cancellation && request.time_limit_spec() > MAX_ELAPSED_NANOS ==> outcome.metrics_spec()@.0
                == construction_explored(
                *instance,
                item_positions(plan.item_ids@),
                plan.forced_rotations@,
                plan.item_ids@.len() as nat,
            )
        },
        r is Err ==> construction_overflows(*instance, item_positions(plan.item_ids@), plan.forced_rotations@),
        request.time_limit_spec() == 0 ==> (r matches Ok(outcome) && outcome.solution_spec()@.0.len() == 0
            && outcome.solution_spec()@.1 == item_positions(plan.item_ids@)),
        !honor_cancellation && request.time_limit_spec() > MAX_ELAPSED_NANOS && r is Ok ==> !construction_overflows(
            *instance,
            item_positions(plan.item_ids@),
            plan.forced_rotations@,
        ),
{
    broadcast use vstd::seq_lib::group_to_multiset_ensures;

    proof {
        use_type_invariant(instance);
    }
    let started_at = clock_now();
    let nc = instance.containers().len();
    let ni = instance.items().len();
    let mut states: Vec<ContainerState> = Vec::new();
    let mut k: usize = 0;
    while k < nc
        invariant
            0 <= k <= nc,
            nc == instance.container_views().len(),
            crate::validate::records_wf(instance.container_views()),
            states@.len() == k,
            states_match(*instance, states@),
            forall|m: int| 0 <= m < k ==> (#[trigger] states@[m]).container_id@ == m,
            forall|m: int| 0 <= m < k ==> (#[trigger] states@[m]).placements@.len() == 0,
            forall|m: int|
                0 <= m < k ==> (#[trigger] states@[m]).state_view() == empty_state_view(
                    m as usize,
                    instance.container_views()[m].2,
                ),
        decreases nc - k,
    {
        let container = &instance.containers()[k];
        let st = ContainerState::new(container.id(), container.dimensions());
        let ghost before = states@;
        states.push(st);
        proof {
            assert forall|si: int| 0 <= si < states@.len() implies {
                &&& (#[trigger] states@[si]).wf()
                &&& states@[si].container_id@ < instance.container_views().len()
                &&& instance.container_views()[states@[si].container_id@ as int].2 == states@[si].dimensions@
            } by {
                if si < k {
                    assert(states@[si] == before[si]);
                }
            }
            assert forall|m: int| 0 <= m < k + 1 implies (#[trigger] states@[m]).placements@.len() == 0 by {
                if m < k {
                    assert(states@[m] == before[m]);
                }
            }
            assert forall|m: int| 0 <= m < k + 1 implies (#[trigger] states@[m]).state_view() == empty_state_view(
                m as usize,
                instance.container_views()[m].2,
            ) by {
                if m < k {
                    assert(states@[m] == before[m]);
                }
            }
        }
        k = k + 1;
    }
    let mut explored: u64 = 0;
    let mut placements: Vec<Placement> = Vec::new();
    let mut unplaced: Vec<ItemId> = Vec::new();
    let n = plan.item_ids.len();
    let ghost all = all_positions(ni as nat).to_multiset();
    let ghost ids = plan.item_ids@.map_values(|id: ItemId| id@);
    proof {
        assert(placed_item_ids(placements@) =~= Seq::<usize>::empty());
        assert(unplaced@.map_values(|id: ItemId| id@) =~= Seq::<usize>::empty());
        assert(ids.skip(0) =~= ids);
        assert(placements@.map_values(|q: Placement| q@) =~= Seq::<PlacementView>::empty());
    }
    let ghost forced = plan.forced_rotations@;
    proof {
        assert(views_of(states@) =~= construction_run(*instance, ids, forced, 0).0);
        assert(placements@.map_values(|q: Placement| q@) =~= construction_run(*instance, ids, forced, 0).1);
        assert(unplaced@.map_values(|id: ItemId| id@) =~= construction_run(*instance, ids, forced, 0).2);
    }
    let ghost big = !honor_cancellation && request.time_limit_spec() > MAX_ELAPSED_NANOS;
    let ghost zero = request.time_limit_spec() == 0;
    proof {
        assert forall|x: usize| ids.to_multiset().contains(x) implies ids.to_multiset().count(x) == 1 by {
            crate::validate::lemma_all_positions_count(ni as nat, x);
        }
        ids.lemma_multiset_has_no_duplicates_conv();
    }
    let mut interrupted = false;
    let mut signal: Option<StopSignal> = None;
    let ghost mut cut: int = n as int;
    let mut position: usize = 0;
    while position < n
        invariant
            0 <= position <= n,
            n == plan.item_ids@.len(),
            ids == plan.item_ids@.map_values(|id: ItemId| id@),
            ids.no_duplicates(),
            forced == plan.forced_rotations@,
            all == all_positions(ni as nat).to_multiset(),
            plan_covers(*instance, *plan),
            nc == instance.container_views().len(),
            ni == instance.item_views().len(),
            states@.len() == nc,
            construction_inv(*instance, states@, placements@),
            placed_item_ids(placements@).to_multiset().add(unplaced@.map_values(|id: ItemId| id@).to_multiset()).add(
                ids.skip(position as int).to_multiset(),
            ) == all,
            big == (!honor_cancellation && request.time_limit_spec() > MAX_ELAPSED_NANOS),
            big ==> !interrupted,
            big ==> signal is None,
            interrupted ==> signal is Some,
            cut < n ==> signal is Some,
            zero == (request.time_limit_spec() == 0),
            zero ==> placements@.len() == 0 && unplaced@.map_values(|id: ItemId| id@) == ids.take(position as int),
            0 <= cut <= n,
            !interrupted && position < n ==> cut == n,
            big ==> cut == n,
            interrupted ==> cut < position,
            cut == n ==> views_of(states@) == construction_run(*instance, ids, forced, position as nat).0,
            cut == n ==> placements@.map_values(|q: Placement| q@) == construction_run(
                *instance,
                ids,
                forced,
                position as nat,
            ).1,
            cut == n ==> unplaced@.map_values(|id: ItemId| id@) == construction_run(
                *instance,
                ids,
                forced,
                position as nat,
            ).2,
            cut == n ==> explored == construction_explored(*instance, ids, forced, position as nat),
            big ==> forall|j: int| 0 <= j < position ==> !#[trigger] step_overflows(*instance, ids, forced, j),
            forall|i: int|
                #![trigger ids[i]]
                position <= i < n ==> !unplaced@.map_values(|id: ItemId| id@).contains(ids[i]),
            forall|i: int|
                #![trigger ids[i]]
                0 <= i < position && i < cut && unplaced@.map_values(|id: ItemId| id@).contains(ids[i])
                    ==> cannot_place(*instance, forced, placements@.map_values(|q: Placement| q@), ids[i]),
            forall|i: int|
                #![trigger ids[i]]
                cut < i < position ==> unplaced@.map_values(|id: ItemId| id@).contains(ids[i]),
        decreases n - position,
    {
        let stop = if interrupted {
            true
        } else {
            let asked = if honor_cancellation {
                request.stop_signal()
            } else {
                request.deadline_signal()
            };
            match asked {
                Some(given) => {
                    signal = Some(given);
                    true
                },
                None => false,
            }
        };
        if stop {
            proof {
                if !interrupted {
                    cut = position as int;
                }
            }
            let ghost first_skipped = position as int;
            while position < n
                invariant
                    0 <= first_skipped <= position <= n,
                    zero ==> placements@.len() == 0 && unplaced@.map_values(|id: ItemId| id@) == ids.take(
                        position as int,
                    ),
                    n == plan.item_ids@.len(),
                    ids == plan.item_ids@.map_values(|id: ItemId| id@),
                    ids.no_duplicates(),
                    placed_item_ids(placements@).to_multiset().add(
                        unplaced@.map_values(|id: ItemId| id@).to_multiset(),
                    ).add(ids.skip(position as int).to_multiset()) == all,
                    0 <= cut <= first_skipped,
                    forall|i: int|
                        #![trigger ids[i]]
                        0 <= i < cut && unplaced@.map_values(|id: ItemId| id@).contains(ids[i])
                            ==> cannot_place(*instance, forced, placements@.map_values(|q: Placement| q@), ids[i]),
                    forall|i: int|
                        #![trigger ids[i]]
                        cut < i < position ==> unplaced@.map_values(|id: ItemId| id@).contains(ids[i]),
                decreases n - position,
            {
                let item_id = plan.item_ids[position];
                let ghost before = unplaced@;
                unplaced.push(item_id);
                proof {
                    lemma_move_to_unplaced(placed_item_ids(placements@), before, ids, position as int, item_id);
                    assert(unplaced@ =~= before.push(item_id));
                    let bv = before.map_values(|id: ItemId| id@);
                    assert(unplaced@.map_values(|id: ItemId| id@) =~= bv.push(item_id@));
                    assert(ids[position as int] == item_id@);
                    if zero {
                        assert(ids.take(position + 1) =~= ids.take(position as int).push(ids[position as int]));
                    }
                    assert forall|i: int|
                        #![trigger ids[i]]
                        0 <= i < cut && unplaced@.map_values(|id: ItemId| id@).contains(ids[i]) implies cannot_place(
                        *instance,
                        forced,
                        placements@.map_values(|q: Placement| q@),
                        ids[i],
                    ) by {
                        assert(ids[i] != ids[position as int]);
                        let m = choose|m: int| 0 <= m < bv.push(item_id@).len() && bv.push(item_id@)[m] == ids[i];
                        assert(m < bv.len());
                        assert(bv.contains(ids[i]));
                    }
                    assert forall|i: int| #![trigger ids[i]] cut < i < position + 1 implies unplaced@.map_values(
                        |id: ItemId| id@,
                    ).contains(ids[i]) by {
                        if i < position {
                            let m = choose|m: int| 0 <= m < bv.len() && bv[m] == ids[i];
                            assert(bv.push(item_id@)[m] == ids[i]);
                        } else {
                            assert(bv.push(item_id@)[bv.len() as int] == ids[i]);
                        }
                    }
                }
                position = position + 1;
            }
        } else {
            let ghost ps0 = placements@.map_values(|q: Placement| q@);
            let ghost un0 = unplaced@.map_values(|id: ItemId| id@);
            let step_stop = match construct_step(
                instance,
                request,
                plan,
                position,
                &mut states,
                &mut placements,
                &mut unplaced,
                &mut explored,
            ) {
                Ok(given) => given,
                Err(e) => {
                    proof {
                        assert(item_positions(plan.item_ids@) == ids);
                        assert(step_overflows(*instance, ids, forced, position as int));
                    }
                    return Err(e);
                },
            };
            let was_interrupted = step_stop.is_some();
            proof {
                if big {
                    assert(item_positions(plan.item_ids@) == ids);
                    assert(!step_overflows(*instance, ids, forced, position as int));
                }
            }
            proof {
                lemma_greedy_step(
                    *instance,
                    forced,
                    ids,
                    position as int,
                    ps0,
                    placements@.map_values(|q: Placement| q@),
                    un0,
                    unplaced@.map_values(|id: ItemId| id@),
                    was_interrupted,
                );
            }
            if was_interrupted {
                interrupted = true;
                signal = step_stop;
                proof {
                    cut = position as int;
                }
            }
            position = position + 1;
        }
    }
    proof {
        let sol_placements = placements@.map_values(|q: Placement| q@);
        let sol_unplaced = unplaced@.map_values(|id: ItemId| id@);
        assert(ids.skip(n as int) =~= Seq::<usize>::empty());
        assert(sol_placements.map_values(|q: PlacementView| q.1) =~= placed_item_ids(placements@));
        vstd::seq_lib::lemma_multiset_commutative(placed_item_ids(placements@), sol_unplaced);
        assert(item_occurrences((sol_placements, sol_unplaced)) =~= placed_item_ids(placements@) + sol_unplaced);
        assert(item_occurrences((sol_placements, sol_unplaced)).to_multiset() =~= all);
        assert forall|i: int| 0 <= i < sol_placements.len() implies placement_valid(
            instance.container_views(),
            instance.item_views(),
            #[trigger] sol_placements[i],
        ) by {
            assert(sol_placements[i] == placements@[i]@);
        }
        assert(solution_valid(*instance, (sol_placements, sol_unplaced)));
        assert(item_positions(plan.item_ids@) == ids);
        assert(greedy_up_to(*instance, ids, forced, (sol_placements, sol_unplaced), cut));
        if cut == n {
            assert(ids.len() == n);
            assert((sol_placements, sol_unplaced) == construction_result(*instance, ids, forced));
        }
        if big {
            assert(!construction_overflows(*instance, ids, forced));
        }
    }
    proof {
        if zero {
            assert(ids.take(n as int) =~= ids);
        }
    }
    let placed_count = placements.len() as u64;
    let solution = Solution::new(placements, unplaced);
    match validate_solution(instance, &solution) {
        Ok(_) => {},
        Err(_) => {
            // The construction invariant makes the candidate valid: this
            // independent check cannot fail.
            assert(false);
            return Err(SolverError::new("constructive backend produced an invalid candidate"));
        },
    }
    let elapsed = nanos_between(clock_now(), started_at);
    let outcome = SolverOutcome::new(
        solution,
        SolverMetrics::new(explored, 1, placed_count, elapsed),
        OptimalityStatus::Heuristic,
    );
    match signal {
        Some(given) => Ok(outcome.with_stop(given)),
        None => Ok(outcome),
    }
}

/// The construction order of one work unit: the canonical order, or the
/// plan derived from a seed.
#[derive(Clone, Copy, Debug, Eq, PartialEq, Structural)]
pub enum ItemOrder {
    Canonical,
    Seeded(u64),
}

/// The plan that `order` gives for the instance: the canonical order with
/// no rotation forced, or the plan that the seed derives from it.
pub open spec fn plan_of_order(
    instance: PackingInstance,
    order: ItemOrder,
    ids: Seq<ItemId>,
    forced: Seq<(ItemId, usize)>,
) -> bool {
    match order {
        ItemOrder::Canonical => canonical_order(instance, ids) && forced.len() == 0,
        ItemOrder::Seeded(seed) => exists|canonical: Seq<ItemId>|
            canonical_order(instance, canonical) && (ids, forced) == seeded_plan_spec(canonical, seed),
    }
}

/// The plan of an item order is unique.
pub proof fn lemma_plan_of_order_unique(
    instance: PackingInstance,
    order: ItemOrder,
    ids1: Seq<ItemId>,
    forced1: Seq<(ItemId, usize)>,
    ids2: Seq<ItemId>,
    forced2: Seq<(ItemId, usize)>,
)
    requires
        instance.wf(),
        plan_of_order(instance, order, ids1, forced1),
        plan_of_order(instance, order, ids2, forced2),
    ensures
        ids1 == ids2,
        forced1 == forced2,
{
    match order {
        ItemOrder::Canonical => {
            lemma_canonical_order_unique(instance, ids1, ids2);
            assert(ids1.len() == item_positions(ids1).len());
            assert forall|i: int| 0 <= i < ids1.len() implies ids1[i] == ids2[i] by {
                assert(item_positions(ids1)[i] == item_positions(ids2)[i]);
                crate::validate::lemma_item_id_is_position(ids1[i], ids2[i]);
            }
            assert(ids1 =~= ids2);
            assert(forced1 =~= forced2);
        },
        ItemOrder::Seeded(seed) => {
            let c1 = choose|c: Seq<ItemId>| canonical_order(instance, c) && (ids1, forced1) == seeded_plan_spec(c, seed);
            let c2 = choose|c: Seq<ItemId>| canonical_order(instance, c) && (ids2, forced2) == seeded_plan_spec(c, seed);
            lemma_canonical_order_unique(instance, c1, c2);
            assert(c1.len() == item_positions(c1).len());
            assert(c2.len() == item_positions(c2).len());
            assert forall|i: int| 0 <= i < c1.len() implies c1[i] == c2[i] by {
                assert(item_positions(c1)[i] == item_positions(c2)[i]);
                crate::validate::lemma_item_id_is_position(c1[i], c2[i]);
            }
            assert(c1 =~= c2);
        },
    }
}

/// Construct a solution with the plan of `order`. A returned solution is
/// independently valid.
pub fn solve_with_item_order(instance: &PackingInstance, request: &SolveRequest, order: ItemOrder) -> (r:
    Result<SolverOutcome, SolverError>)
    ensures
        r matches Ok(outcome) ==> {
            &&& solution_valid(*instance, outcome.solution_spec()@)
            &&& outcome.optimality_spec() == OptimalityStatus::Heuristic
            &&& outcome.metrics_spec()@.1 == 1
            &&& outcome.metrics_spec()@.2 == outcome.solution_spec()@.0.len()
            &&& exists|ids: Seq<ItemId>, forced: Seq<(ItemId, usize)>, cut: int|
                plan_of_order(*instance, order, ids, forced) && #[trigger] greedy_up_to(
                    *instance,
                    item_positions(ids),
                    forced,
                    outcome.solution_spec()@,
                    cut,
                ) && (cut == ids.len() ==> outcome.solution_spec()@ == construction_result(
                    *instance,
                    item_positions(ids),
                    forced,
                ) && outcome.metrics_spec()@.0 == construction_explored(
                    *instance,
                    item_positions(ids),
                    forced,
                    ids.len() as nat,
                ))
            &&& !outcome.stopped_spec() ==> exists|ids: Seq<ItemId>, forced: Seq<(ItemId, usize)>|
                plan_of_order(*instance, order, ids, forced) && greedy_up_to(
                    *instance,
                    item_positions(ids),
                    forced,
                    outcome.solution_spec()@,
                    ids.len() as int,
                ) && outcome.solution_spec()@ == #[trigger] construction_result(
                    *instance,
                    item_positions(ids),
                    forced,
                ) && outcome.metrics_spec()@.0 == construction_explored(
                    *instance,
                    item_positions(ids),
                    forced,
                    ids.len() as nat,
                )
        },
        r is Err ==> exists|ids: Seq<ItemId>, forced: Seq<(ItemId, usize)>|
            plan_of_order(*instance, order, ids, forced) && #[trigger] construction_overflows(
                *instance,
                item_positions(ids),
                forced,
            ),
{
    let plan = match order {
        ItemOrder::Canonical => ConstructionPlan::canonical(instance),
        ItemOrder::Seeded(seed) => seeded_plan(instance, seed),
    };
    let r = solve_with_plan(instance, request, &plan);
    proof {
        assert(plan_of_order(*instance, order, plan.item_ids@, plan.forced_rotations@));
        if r is Err {
            assert(construction_overflows(*instance, item_positions(plan.item_ids@), plan.forced_rotations@));
        }
        if r is Ok {
            let cut = choose|cut: int|
                #[trigger] greedy_up_to(
                    *instance,
                    item_positions(plan.item_ids@),
                    plan.forced_rotations@,
                    r.unwrap().solution_spec()@,
                    cut,
                );
        }
    }
    r
}

/// Clean-room maximal-space constructive baseline.
#[derive(Clone, Copy, Debug, Default)]
pub struct ConstructiveBackend;

impl SolverBackend for ConstructiveBackend {
    fn name(&self) -> (r: &str)
        ensures
            r@ == "constructive-maximal-space"@,
    {
        "constructive-maximal-space"
    }

    /// Place the items in the canonical order; only the deadline stops it.
    /// Before the deadline, an item is left unplaced only when no
    /// orientation of it fits clear of the boxes placed in any container.
    fn solve(&self, instance: &PackingInstance, request: &SolveRequest) -> (r: Result<
        SolverOutcome,
        SolverError,
    >)
        ensures
            r matches Ok(outcome) ==> {
                &&& solution_valid(*instance, outcome.solution_spec()@)
                &&& outcome.optimality_spec() == OptimalityStatus::Heuristic
                &&& outcome.metrics_spec()@.1 == 1
                &&& outcome.metrics_spec()@.2 == outcome.solution_spec()@.0.len()
                &&& exists|ids: Seq<ItemId>, cut: int|
                    canonical_order(*instance, ids) && #[trigger] greedy_up_to(
                        *instance,
                        item_positions(ids),
                        Seq::empty(),
                        outcome.solution_spec()@,
                        cut,
                    )
                &&& request.time_limit_spec() > MAX_ELAPSED_NANOS ==> exists|ids: Seq<ItemId>|
                    canonical_order(*instance, ids) && #[trigger] greedy_up_to(
                        *instance,
                        item_positions(ids),
                        Seq::empty(),
                        outcome.solution_spec()@,
                        ids.len() as int,
                    )
                &&& request.time_limit_spec() > MAX_ELAPSED_NANOS ==> outcome.solution_spec()@
                    == canonical_construction(*instance)
                &&& request.time_limit_spec() > MAX_ELAPSED_NANOS ==> outcome.metrics_spec()@.0
                    == canonical_explored(*instance)
                &&& !outcome.stopped_spec() ==> exists|ids: Seq<ItemId>|
                    canonical_order(*instance, ids) && #[trigger] greedy_up_to(
                        *instance,
                        item_positions(ids),
                        Seq::empty(),
                        outcome.solution_spec()@,
                        ids.len() as int,
                    )
                &&& !outcome.stopped_spec() ==> outcome.solution_spec()@ == canonical_construction(*instance)
                    && outcome.metrics_spec()@.0 == canonical_explored(*instance)
            },
            r is Err ==> canonical_overflows(*instance),
            request.time_limit_spec() > MAX_ELAPSED_NANOS ==> (r is Ok <==> !canonical_overflows(*instance)),
            request.time_limit_spec() == 0 ==> (r matches Ok(outcome) && outcome.solution_spec()@.0.len() == 0
                && exists|ids: Seq<ItemId>|
                canonical_order(*instance, ids) && #[trigger] item_positions(ids) == outcome.solution_spec()@.1),
    {
        let plan = ConstructionPlan::canonical(instance);
        let r = construct(instance, request, &plan, false);
        proof {
            use_type_invariant(instance);
            assert(plan.forced_rotations@ =~= Seq::<(ItemId, usize)>::empty());
            let chosen = choose|ids: Seq<ItemId>| canonical_order(*instance, ids);
            assert(canonical_order(*instance, chosen));
            lemma_canonical_order_unique(*instance, plan.item_ids@, chosen);
            if r is Ok {
                let cut = choose|cut: int|
                    #[trigger] greedy_up_to(
                        *instance,
                        item_positions(plan.item_ids@),
                        plan.forced_rotations@,
                        r.unwrap().solution_spec()@,
                        cut,
                    );
                assert(greedy_up_to(
                    *instance,
                    item_positions(plan.item_ids@),
                    Seq::empty(),
                    r.unwrap().solution_spec()@,
                    cut,
                ));
            }
        }
        r
    }
}

} // verus!
