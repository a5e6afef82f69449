//! Bounded exact-event repair of the residual items of a validated incumbent.
use vstd::prelude::*;

use crate::geometry::{is_permutation, rotations_of, sides_volume, Aabb, Coordinate, Dimensions, Point, Sides};
use crate::objective::{lemma_objective_order, objective_of, objective_order, ObjectiveValue, ObjectiveView};
use crate::order::{compare_str, compare_u128, lemma_order_bytes_order, lemma_sorted_unique, lex, order_int, order_str, strictly_sorted_by};
use crate::solution::{Placement, PlacementView, Solution};
use crate::solver::constructive::{extents_overlap, placement_extents, Extents};
use crate::solver::{SolveRequest, SolverError};
use crate::validate::{
    all_positions, item_occurrences, items_volume, lemma_all_positions_count, saturate, extents_within, placement_valid, placements_disjoint, solution_valid, summary_spec, validate_solution, ContainerId, ItemId,
    PackingInstance, RecordView,
};
use vstd::utf8::encode_utf8;
use crate::solver::stop::StopSignal;

verus! {

/// Bounds for exact-event repair of one validated incumbent's residual items.
#[derive(Clone, Copy, Debug, Eq, PartialEq, Structural)]
pub struct RepairConfig {
    max_items: usize,
    max_nodes: u64,
}

impl View for RepairConfig {
    type V = (usize, u64);

    closed spec fn view(&self) -> (usize, u64) {
        (self.max_items, self.max_nodes)
    }
}

impl RepairConfig {
    pub fn new(max_items: usize, max_nodes: u64) -> (r: RepairConfig)
        ensures
            r@ == (max_items, max_nodes),
    {
        RepairConfig { max_items, max_nodes }
    }

    pub fn max_items(self) -> (r: usize)
        ensures
            r == self@.0,
    {
        self.max_items
    }

    pub fn max_nodes(self) -> (r: u64)
        ensures
            r == self@.1,
    {
        self.max_nodes
    }
}

impl Default for RepairConfig {
    /// At most six residual items and 512 search nodes.
    fn default() -> (r: RepairConfig)
        ensures
            r@ == (6usize, 512u64),
    {
        RepairConfig::new(6, 512)
    }
}

/// The far end of a box along axis 0 (x), 1 (y) or 2 (z).
pub open spec fn far_end(e: Extents, axis: int) -> u64 {
    if axis == 0 {
        e.x_max
    } else if axis == 1 {
        e.y_max
    } else {
        e.z_max
    }
}

/// `c` is a face event along `axis` in `container`: zero, or the far end of
/// a placement in that container.
pub open spec fn is_event(placements: Seq<PlacementView>, container: usize, axis: int, c: u64) -> bool {
    c == 0 || exists|j: int|
        0 <= j < placements.len() && (#[trigger] placements[j]).0 == container && placement_extents(
            placements[j],
        ) is Some && far_end(placement_extents(placements[j]).unwrap(), axis) == c
}

/// A placement of `item` that is valid for the instance, overlaps none of
/// `placements` in its container, and has its origin at face events.
pub open spec fn event_sound(
    instance: PackingInstance,
    placements: Seq<PlacementView>,
    item: usize,
    p: PlacementView,
) -> bool {
    &&& p.1 == item
    &&& placement_valid(instance.container_views(), instance.item_views(), p)
    &&& forall|j: int|
        0 <= j < placements.len() && (#[trigger] placements[j]).0 == p.0 ==> placement_extents(placements[j])
            is Some && !extents_overlap(placement_extents(p).unwrap(), placement_extents(placements[j]).unwrap())
    &&& is_event(placements, p.0, 0, p.2.0.0)
    &&& is_event(placements, p.0, 1, p.2.0.1)
    &&& is_event(placements, p.0, 2, p.2.0.2)
}

/// Views of the placements.
pub open spec fn placement_views(placements: Seq<Placement>) -> Seq<PlacementView> {
    placements.map_values(|p: Placement| p@)
}

/// `c` is a face event along `axis` in `container` among the first `j`
/// placements.
spec fn event_among(placements: Seq<PlacementView>, container: usize, axis: int, c: u64, j: int) -> bool {
    c == 0 || exists|i: int|
        0 <= i < j && (#[trigger] placements[i]).0 == container && placement_extents(placements[i]) is Some
            && far_end(placement_extents(placements[i]).unwrap(), axis) == c
}

/// Ascending order on events.
pub open spec fn event_lt(a: u64, b: u64) -> bool {
    a < b
}

/// `s` lists the face events along `axis` in `container`, ascending and
/// without repeats.
pub open spec fn lists_events(s: Seq<u64>, placements: Seq<PlacementView>, container: usize, axis: int) -> bool {
    &&& strictly_sorted_by(s, |a: u64, b: u64| event_lt(a, b))
    &&& forall|c: u64| #[trigger] s.contains(c) <==> is_event(placements, container, axis, c)
}

/// The face events along `axis` in `container`, ascending and without repeats.
pub open spec fn events_along(placements: Seq<PlacementView>, container: usize, axis: int) -> Seq<u64> {
    choose|s: Seq<u64>| #[trigger] lists_events(s, placements, container, axis)
}

/// The face events along `axis` in `container`, ascending and without repeats.
fn face_events(placements: &Vec<Placement>, container: ContainerId, axis: u8) -> (r: Vec<u64>)
    requires
        axis < 3,
    ensures
        r@.len() > 0,
        forall|i: int| 0 <= i < r@.len() ==> is_event(placement_views(placements@), container@, axis as int, #[trigger] r@[i]),
        r@ == events_along(placement_views(placements@), container@, axis as int),
        lists_events(r@, placement_views(placements@), container@, axis as int),
{
    let ghost views = placement_views(placements@);
    let mut events: Vec<u64> = Vec::new();
    events.push(0);
    let mut j: usize = 0;
    proof {
        assert forall|c: u64| events@.contains(c) <==> event_among(views, container@, axis as int, c, 0) by {
            if events@.contains(c) {
                let m = choose|m: int| 0 <= m < events@.len() && events@[m] == c;
            }
            if c == 0 {
                assert(events@[0] == 0);
            }
        }
    }
    while j < placements.len()
        invariant
            0 <= j <= placements@.len(),
            axis < 3,
            views == placement_views(placements@),
            events@.len() > 0,
            forall|i: int| 0 <= i < events@.len() ==> is_event(views, container@, axis as int, #[trigger] events@[i]),
            strictly_sorted_by(events@, |a: u64, b: u64| event_lt(a, b)),
            forall|c: u64| events@.contains(c) <==> event_among(views, container@, axis as int, c, j as int),
        decreases placements@.len() - j,
    {
        let p = placements[j];
        assert(views[j as int] == p@);
        if p.container_id().index() == container.index() {
            match Extents::from_bounds(p.bounds()) {
                Ok(e) => {
                    let value = if axis == 0 {
                        e.x_max
                    } else if axis == 1 {
                        e.y_max
                    } else {
                        e.z_max
                    };
                    assert(placement_extents(views[j as int]) == Some(e));
                    assert(is_event(views, container@, axis as int, value));
                    assert(far_end(e, axis as int) == value);
                    let mut k: usize = 0;
                    while k < events.len() && events[k] < value
                        invariant
                            0 <= k <= events@.len(),
                            forall|m: int| 0 <= m < k ==> #[trigger] events@[m] < value,
                        decreases events@.len() - k,
                    {
                        k = k + 1;
                    }
                    let ghost before = events@;
                    if k == events.len() || events[k] != value {
                        events.insert(k, value);
                        proof {
                            assert(events@ =~= before.insert(k as int, value));
                            assert forall|a: int, b: int| 0 <= a < b < events@.len() implies event_lt(
                                #[trigger] events@[a],
                                #[trigger] events@[b],
                            ) by {
                                if b < k {
                                    assert(event_lt(before[a], before[b]));
                                } else if b == k {
                                } else if a < k {
                                    assert(before[b - 1] >= value);
                                    if a < k {
                                    }
                                } else if a == k {
                                    assert(before[b - 1] > value || before[b - 1] == value);
                                    if k < before.len() {
                                        assert(before[k as int] != value);
                                        if b - 1 > k {
                                            assert(event_lt(before[k as int], before[b - 1]));
                                        }
                                    }
                                } else {
                                    assert(event_lt(before[a - 1], before[b - 1]));
                                }
                            }
                        }
                    }
                    proof {
                        assert forall|c: u64| events@.contains(c) <==> event_among(
                            views,
                            container@,
                            axis as int,
                            c,
                            j + 1,
                        ) by {
                            if events@.contains(c) {
                                let m = choose|m: int| 0 <= m < events@.len() && events@[m] == c;
                                if c != value {
                                    if events@ != before {
                                        if m < k {
                                            assert(before[m] == c);
                                        } else {
                                            assert(before[m - 1] == c);
                                        }
                                    }
                                    assert(before.contains(c));
                                    assert(event_among(views, container@, axis as int, c, j as int));
                                } else {
                                    assert(views[j as int].0 == container@);
                                }
                            }
                            if event_among(views, container@, axis as int, c, j + 1) {
                                if c == value {
                                    if events@ == before {
                                        assert(before[k as int] == value);
                                    } else {
                                        assert(events@[k as int] == value);
                                    }
                                } else if event_among(views, container@, axis as int, c, j as int) {
                                    assert(before.contains(c));
                                    let m = choose|m: int| 0 <= m < before.len() && before[m] == c;
                                    if events@ != before {
                                        if m < k {
                                            assert(events@[m] == c);
                                        } else {
                                            assert(events@[m + 1] == c);
                                        }
                                    }
                                } else {
                                    let i = choose|i: int|
                                        0 <= i < j + 1 && (#[trigger] views[i]).0 == container@ && placement_extents(views[i])
                                            is Some && far_end(placement_extents(views[i]).unwrap(), axis as int) == c;
                                    assert(i == j);
                                }
                            }
                        }
                    }
                },
                Err(_) => {
                    proof {
                        assert forall|c: u64| events@.contains(c) <==> event_among(
                            views,
                            container@,
                            axis as int,
                            c,
                            j + 1,
                        ) by {
                            if event_among(views, container@, axis as int, c, j + 1) && c != 0 {
                                let i = choose|i: int|
                                    0 <= i < j + 1 && (#[trigger] views[i]).0 == container@ && placement_extents(views[i])
                                        is Some && far_end(placement_extents(views[i]).unwrap(), axis as int) == c;
                                assert(i != j);
                            }
                        }
                    }
                },
            }
        } else {
            proof {
                assert forall|c: u64| events@.contains(c) <==> event_among(views, container@, axis as int, c, j + 1) by {
                    if event_among(views, container@, axis as int, c, j + 1) && c != 0 {
                        let i = choose|i: int|
                            0 <= i < j + 1 && (#[trigger] views[i]).0 == container@ && placement_extents(views[i]) is Some
                                && far_end(placement_extents(views[i]).unwrap(), axis as int) == c;
                        assert(i != j);
                    }
                }
            }
        }
        j = j + 1;
    }
    proof {
        let lt = |a: u64, b: u64| event_lt(a, b);
        assert forall|c: u64| events@.contains(c) <==> is_event(views, container@, axis as int, c) by {
            if is_event(views, container@, axis as int, c) && c != 0 {
                let i = choose|i: int|
                    0 <= i < views.len() && (#[trigger] views[i]).0 == container@ && placement_extents(views[i]) is Some
                        && far_end(placement_extents(views[i]).unwrap(), axis as int) == c;
                assert(event_among(views, container@, axis as int, c, j as int));
            }
        }
        assert(lists_events(events@, views, container@, axis as int));
        let chosen = events_along(views, container@, axis as int);
        assert(lists_events(chosen, views, container@, axis as int));
        lemma_sorted_unique(events@, chosen, lt);
    }
    events
}

/// The box `b` lies inside a container of sides `dims` and overlaps none
/// of the placements in container `container` (a placement whose far end
/// overflows counts as overlapping).
pub open spec fn fits_spec(placements: Seq<PlacementView>, container: usize, dims: Sides, b: ((u64, u64, u64), Sides)) -> bool {
    &&& placement_extents((0, 0, b)) is Some
    &&& extents_within(placement_extents((0, 0, b)).unwrap(), dims)
    &&& forall|j: int|
        0 <= j < placements.len() && (#[trigger] placements[j]).0 == container ==> placement_extents(placements[j])
            is Some && !extents_overlap(placement_extents((0, 0, b)).unwrap(), placement_extents(placements[j]).unwrap())
}

/// Whether `bounds`, in container `container` of sides `dims`, lies inside
/// the container and overlaps none of `placements` in it (a placement whose
/// far end overflows counts as overlapping).
fn fits_among(placements: &Vec<Placement>, container: ContainerId, dims: Dimensions, bounds: Aabb) -> (r: bool)
    ensures
        r == fits_spec(placement_views(placements@), container@, dims@, bounds@),
{
    let ghost views = placement_views(placements@);
    let e = match Extents::from_bounds(bounds) {
        Ok(e) => e,
        Err(_) => {
            return false;
        },
    };
    let (w, l, h) = dims.positive_sides();
    if e.x_max > w || e.y_max > l || e.z_max > h {
        return false;
    }
    let mut j: usize = 0;
    while j < placements.len()
        invariant
            0 <= j <= placements@.len(),
            views == placement_views(placements@),
            placement_extents((0, 0, bounds@)) == Some(e),
            extents_within(e, dims@),
            forall|i: int|
                0 <= i < j && (#[trigger] views[i]).0 == container@ ==> placement_extents(views[i])
                    is Some && !extents_overlap(e, placement_extents(views[i]).unwrap()),
        decreases placements@.len() - j,
    {
        let p = placements[j];
        assert(views[j as int] == p@);
        if p.container_id().index() == container.index() {
            match Extents::from_bounds(p.bounds()) {
                Ok(other) => {
                    if e.overlaps(other) {
                        return false;
                    }
                },
                Err(_) => {
                    return false;
                },
            }
        }
        j = j + 1;
    }
    true
}

/// The placement of `item` with origin `(x, y, z)` and sides `rot` in
/// container `container`, when it fits.
pub open spec fn event_try(
    views: Seq<PlacementView>,
    container: usize,
    dims: Sides,
    item: usize,
    rot: Sides,
    x: u64,
    y: u64,
    z: u64,
) -> Seq<PlacementView> {
    if fits_spec(views, container, dims, ((x, y, z), rot)) {
        seq![(container, item, ((x, y, z), rot))]
    } else {
        Seq::empty()
    }
}

/// The fitting placements at `(x, y, z)` for the first `k` of `zs`.
pub open spec fn event_row(
    views: Seq<PlacementView>,
    container: usize,
    dims: Sides,
    item: usize,
    rot: Sides,
    x: u64,
    y: u64,
    zs: Seq<u64>,
    k: int,
) -> Seq<PlacementView>
    decreases k,
{
    if k <= 0 {
        Seq::empty()
    } else {
        event_row(views, container, dims, item, rot, x, y, zs, k - 1) + event_try(
            views,
            container,
            dims,
            item,
            rot,
            x,
            y,
            zs[k - 1],
        )
    }
}

/// The fitting placements at `x` for the first `j` of `ys`, each with every one of `zs`.
pub open spec fn event_plane(
    views: Seq<PlacementView>,
    container: usize,
    dims: Sides,
    item: usize,
    rot: Sides,
    x: u64,
    ys: Seq<u64>,
    zs: Seq<u64>,
    j: int,
) -> Seq<PlacementView>
    decreases j,
{
    if j <= 0 {
        Seq::empty()
    } else {
        event_plane(views, container, dims, item, rot, x, ys, zs, j - 1) + event_row(
            views,
            container,
            dims,
            item,
            rot,
            x,
            ys[j - 1],
            zs,
            zs.len() as int,
        )
    }
}

/// The fitting placements for the first `i` of `xs`, each with every one of
/// `ys` and `zs`, in x, then y, then z order.
pub open spec fn event_grid(
    views: Seq<PlacementView>,
    container: usize,
    dims: Sides,
    item: usize,
    rot: Sides,
    xs: Seq<u64>,
    ys: Seq<u64>,
    zs: Seq<u64>,
    i: int,
) -> Seq<PlacementView>
    decreases i,
{
    if i <= 0 {
        Seq::empty()
    } else {
        event_grid(views, container, dims, item, rot, xs, ys, zs, i - 1) + event_plane(
            views,
            container,
            dims,
            item,
            rot,
            xs[i - 1],
            ys,
            zs,
            ys.len() as int,
        )
    }
}

/// Origins tried before `(xi, yi, zi)` in a grid of `ny` by `nz` events per x.
proof fn lemma_grid_count(xi: int, yi: int, zi: int, nx: int, ny: int, nz: int)
    requires
        0 <= xi < nx,
        0 <= yi < ny,
        0 <= zi < nz,
    ensures
        xi * (ny * nz) + yi * nz + zi + 1 <= nx * (ny * nz),
{
    assert(yi * nz + zi + 1 <= ny * nz) by (nonlinear_arith)
        requires
            0 <= yi < ny,
            0 <= zi < nz,
    ;
    assert(xi * (ny * nz) + ny * nz <= nx * (ny * nz)) by (nonlinear_arith)
        requires
            0 <= xi < nx,
            ny * nz >= 0,
    ;
}

/// Try `rotation` at every combination of the face events in container
/// `container_index`, appending each placement that fits.
fn events_for_rotation(
    instance: &PackingInstance,
    placements: &Vec<Placement>,
    item_id: ItemId,
    container_index: usize,
    rotation: Dimensions,
    xs: &Vec<u64>,
    ys: &Vec<u64>,
    zs: &Vec<u64>,
    explored: &mut u64,
    result: &mut Vec<Placement>,
) -> (r: Result<(), SolverError>)
    requires
        item_id@ < instance.item_views().len(),
        container_index < instance.container_views().len(),
        instance.container_views()[container_index as int].0 == container_index,
        is_permutation(instance.item_views()[item_id@ as int].2, rotation@),
        forall|i: int| 0 <= i < xs@.len() ==> is_event(placement_views(placements@), container_index, 0, #[trigger] xs@[i]),
        forall|i: int| 0 <= i < ys@.len() ==> is_event(placement_views(placements@), container_index, 1, #[trigger] ys@[i]),
        forall|i: int| 0 <= i < zs@.len() ==> is_event(placement_views(placements@), container_index, 2, #[trigger] zs@[i]),
        forall|i: int|
            0 <= i < old(result)@.len() ==> event_sound(
                *instance,
                placement_views(placements@),
                item_id@,
                #[trigger] old(result)@[i]@,
            ),
    ensures
        forall|i: int|
            0 <= i < final(result)@.len() ==> event_sound(
                *instance,
                placement_views(placements@),
                item_id@,
                #[trigger] final(result)@[i]@,
            ),
        r is Ok ==> *final(explored) >= *old(explored),
        r matches Err(e) ==> e@ == "repair candidate metric overflowed"@,
        r is Ok <==> *old(explored) + xs@.len() * (ys@.len() * zs@.len()) <= u64::MAX,
        r is Ok ==> *final(explored) == *old(explored) + xs@.len() * (ys@.len() * zs@.len()),
        r is Ok ==> final(result)@.map_values(|p: Placement| p@) == old(result)@.map_values(|p: Placement| p@)
            + event_grid(
            placement_views(placements@),
            container_index,
            instance.container_views()[container_index as int].2,
            item_id@,
            rotation@,
            xs@,
            ys@,
            zs@,
            xs@.len() as int,
        ),
{
    let ghost views = placement_views(placements@);
    let ghost start = *explored;
    let ghost r0 = result@.map_values(|p: Placement| p@);
    let ghost nx = xs@.len() as int;
    let ghost ny = ys@.len() as int;
    let ghost nz = zs@.len() as int;
    let ghost cdims = instance.container_views()[container_index as int].2;
    let ghost item = item_id@;
    let ghost rot = rotation@;
    let container = &instance.containers()[container_index];
    let container_id = container.id();
    let dims = container.dimensions();
    let mut xi: usize = 0;
    while xi < xs.len()
        invariant
            0 <= xi <= xs@.len(),
            views == placement_views(placements@),
            item_id@ < instance.item_views().len(),
            container_index < instance.container_views().len(),
            container_id@ == container_index,
            dims@ == instance.container_views()[container_index as int].2,
            is_permutation(instance.item_views()[item_id@ as int].2, rotation@),
            forall|i: int| 0 <= i < xs@.len() ==> is_event(views, container_index, 0, #[trigger] xs@[i]),
            forall|i: int| 0 <= i < ys@.len() ==> is_event(views, container_index, 1, #[trigger] ys@[i]),
            forall|i: int| 0 <= i < zs@.len() ==> is_event(views, container_index, 2, #[trigger] zs@[i]),
            forall|i: int| 0 <= i < result@.len() ==> event_sound(*instance, views, item_id@, #[trigger] result@[i]@),
            *explored >= *old(explored),
            start == *old(explored),
            r0 == old(result)@.map_values(|p: Placement| p@),
            nx == xs@.len(),
            ny == ys@.len(),
            nz == zs@.len(),
            cdims == instance.container_views()[container_index as int].2,
            item == item_id@,
            rot == rotation@,
            *explored == start + xi * (ny * nz),
            result@.map_values(|p: Placement| p@) == r0 + event_grid(views, container_index, cdims, item, rot, xs@, ys@, zs@, xi as int),
        decreases xs@.len() - xi,
    {
        let mut yi: usize = 0;
        while yi < ys.len()
            invariant
                0 <= xi < xs@.len(),
                0 <= yi <= ys@.len(),
                views == placement_views(placements@),
                item_id@ < instance.item_views().len(),
                container_index < instance.container_views().len(),
                container_id@ == container_index,
                dims@ == instance.container_views()[container_index as int].2,
                is_permutation(instance.item_views()[item_id@ as int].2, rotation@),
                forall|i: int| 0 <= i < xs@.len() ==> is_event(views, container_index, 0, #[trigger] xs@[i]),
                forall|i: int| 0 <= i < ys@.len() ==> is_event(views, container_index, 1, #[trigger] ys@[i]),
                forall|i: int| 0 <= i < zs@.len() ==> is_event(views, container_index, 2, #[trigger] zs@[i]),
                forall|i: int| 0 <= i < result@.len() ==> event_sound(*instance, views, item_id@, #[trigger] result@[i]@),
                *explored >= *old(explored),
                start == *old(explored),
                r0 == old(result)@.map_values(|p: Placement| p@),
                nx == xs@.len(),
                ny == ys@.len(),
                nz == zs@.len(),
                cdims == instance.container_views()[container_index as int].2,
                item == item_id@,
                rot == rotation@,
                *explored == start + xi * (ny * nz) + yi * nz,
                result@.map_values(|p: Placement| p@) == r0 + event_grid(views, container_index, cdims, item, rot, xs@, ys@, zs@, xi as int)
                    + event_plane(views, container_index, cdims, item, rot, xs@[xi as int], ys@, zs@, yi as int),
            decreases ys@.len() - yi,
        {
            let mut zi: usize = 0;
            while zi < zs.len()
                invariant
                    0 <= xi < xs@.len(),
                    0 <= yi < ys@.len(),
                    0 <= zi <= zs@.len(),
                    views == placement_views(placements@),
                    item_id@ < instance.item_views().len(),
                    container_index < instance.container_views().len(),
                    container_id@ == container_index,
                    dims@ == instance.container_views()[container_index as int].2,
                    is_permutation(instance.item_views()[item_id@ as int].2, rotation@),
                    forall|i: int| 0 <= i < xs@.len() ==> is_event(views, container_index, 0, #[trigger] xs@[i]),
                    forall|i: int| 0 <= i < ys@.len() ==> is_event(views, container_index, 1, #[trigger] ys@[i]),
                    forall|i: int| 0 <= i < zs@.len() ==> is_event(views, container_index, 2, #[trigger] zs@[i]),
                    forall|i: int|
                        0 <= i < result@.len() ==> event_sound(*instance, views, item_id@, #[trigger] result@[i]@),
                    *explored >= *old(explored),
                    start == *old(explored),
                    r0 == old(result)@.map_values(|p: Placement| p@),
                    nx == xs@.len(),
                    ny == ys@.len(),
                    nz == zs@.len(),
                    cdims == instance.container_views()[container_index as int].2,
                    item == item_id@,
                    rot == rotation@,
                    *explored == start + xi * (ny * nz) + yi * nz + zi,
                    result@.map_values(|p: Placement| p@) == r0 + event_grid(views, container_index, cdims, item, rot, xs@, ys@, zs@, xi as int)
                        + event_plane(views, container_index, cdims, item, rot, xs@[xi as int], ys@, zs@, yi as int)
                        + event_row(views, container_index, cdims, item, rot, xs@[xi as int], ys@[yi as int], zs@, zi as int),
                decreases zs@.len() - zi,
            {
                *explored = match explored.checked_add(1) {
                    Some(v) => v,
                    None => {
                        proof {
                            lemma_grid_count(xi as int, yi as int, zi as int, nx, ny, nz);
                        }
                        return Err(SolverError::new("repair candidate metric overflowed"));
                    },
                };
                let ghost before = result@.map_values(|p: Placement| p@);
                let origin = Point::new(
                    Coordinate::from_scaled_units(xs[xi]),
                    Coordinate::from_scaled_units(ys[yi]),
                    Coordinate::from_scaled_units(zs[zi]),
                );
                let bounds = Aabb::new(origin, rotation);
                if fits_among(placements, container_id, dims, bounds) {
                    let placement = Placement::new(container_id, item_id, bounds);
                    proof {
                        let p = placement@;
                        assert(p.2 == bounds@);
                        assert(placement_extents(p) == placement_extents((0, 0, bounds@)));
                        assert forall|j: int|
                            0 <= j < views.len() && (#[trigger] views[j]).0 == p.0 implies placement_extents(views[j])
                                is Some && !extents_overlap(
                                placement_extents(p).unwrap(),
                                placement_extents(views[j]).unwrap(),
                            ) by {
                            assert(views[j] == placements@[j]@);
                        }
                        assert(is_event(views, p.0, 0, p.2.0.0));
                        assert(is_event(views, p.0, 1, p.2.0.1));
                        assert(is_event(views, p.0, 2, p.2.0.2));
                    }
                    result.push(placement);
                    assert(result@.map_values(|p: Placement| p@) =~= before.push(placement@));
                }
                proof {
                    let x = xs@[xi as int];
                    let y = ys@[yi as int];
                    let z = zs@[zi as int];
                    assert(bounds@ == ((x, y, z), rot));
                    assert(event_try(views, container_index, cdims, item, rot, x, y, z) =~= if fits_spec(
                        views,
                        container_index,
                        cdims,
                        bounds@,
                    ) {
                        seq![(container_index, item, bounds@)]
                    } else {
                        Seq::empty()
                    });
                    assert(event_row(views, container_index, cdims, item, rot, x, y, zs@, zi + 1) == event_row(
                        views,
                        container_index,
                        cdims,
                        item,
                        rot,
                        x,
                        y,
                        zs@,
                        zi as int,
                    ) + event_try(views, container_index, cdims, item, rot, x, y, z));
                }
                zi = zi + 1;
            }
            proof {
                assert((yi + 1) * nz == yi * nz + nz) by (nonlinear_arith);
            }
            yi = yi + 1;
        }
        proof {
            assert((xi + 1) * (ny * nz) == xi * (ny * nz) + ny * nz) by (nonlinear_arith);
        }
        xi = xi + 1;
    }
    Ok(())
}

/// The origins tried for one rotation in container `c`: every combination
/// of its face events.
pub open spec fn block_tries(views: Seq<PlacementView>, c: usize) -> int {
    (events_along(views, c, 0).len() * (events_along(views, c, 1).len() * events_along(views, c, 2).len())) as int
}

/// The fitting placements of `item` with sides `rot` in container `c`, at
/// every combination of its face events in x, then y, then z order.
pub open spec fn rotation_block(
    instance: PackingInstance,
    views: Seq<PlacementView>,
    item: usize,
    c: int,
    rot: Sides,
) -> Seq<PlacementView> {
    event_grid(
        views,
        c as usize,
        instance.container_views()[c].2,
        item,
        rot,
        events_along(views, c as usize, 0),
        events_along(views, c as usize, 1),
        events_along(views, c as usize, 2),
        events_along(views, c as usize, 0).len() as int,
    )
}

/// The blocks of the first `k` rotations in container `c`.
pub open spec fn container_blocks(
    instance: PackingInstance,
    views: Seq<PlacementView>,
    item: usize,
    rots: Seq<Sides>,
    c: int,
    k: int,
) -> Seq<PlacementView>
    decreases k,
{
    if k <= 0 {
        Seq::empty()
    } else {
        container_blocks(instance, views, item, rots, c, k - 1) + rotation_block(instance, views, item, c, rots[k - 1])
    }
}

/// The blocks of every rotation in the first `c` containers.
pub open spec fn blocks_before(
    instance: PackingInstance,
    views: Seq<PlacementView>,
    item: usize,
    rots: Seq<Sides>,
    c: int,
) -> Seq<PlacementView>
    decreases c,
{
    if c <= 0 {
        Seq::empty()
    } else {
        blocks_before(instance, views, item, rots, c - 1) + container_blocks(
            instance,
            views,
            item,
            rots,
            c - 1,
            rots.len() as int,
        )
    }
}

/// The origins tried for every rotation in the first `c` containers.
pub open spec fn tries_before(views: Seq<PlacementView>, rotation_count: int, c: int) -> int
    decreases c,
{
    if c <= 0 {
        0
    } else {
        tries_before(views, rotation_count, c - 1) + rotation_count * block_tries(views, (c - 1) as usize)
    }
}

/// The enumeration of `item`'s event placements after the first `k`
/// rotations of container `c`: the placements found and the origins tried.
pub open spec fn enumeration_at(
    instance: PackingInstance,
    views: Seq<PlacementView>,
    item: usize,
    c: int,
    k: int,
) -> (Seq<PlacementView>, int) {
    let rots = rotations_of(instance.item_views()[item as int].2);
    (
        blocks_before(instance, views, item, rots, c) + container_blocks(instance, views, item, rots, c, k),
        tries_before(views, rots.len() as int, c) + k * block_tries(views, c as usize),
    )
}

/// Every placement of `item` at a face event, in the order a complete
/// enumeration lists them.
pub open spec fn all_event_placements(instance: PackingInstance, views: Seq<PlacementView>, item: usize) -> Seq<
    PlacementView,
> {
    enumeration_at(instance, views, item, instance.container_views().len() as int, 0).0
}

/// An upper bound on the origins one enumeration of event placements tries
/// with `placed` placements made: every container, at most six rotations,
/// and at most `placed + 1` face events along each axis.
pub open spec fn event_cap(instance: PackingInstance, placed: nat) -> int {
    let v: int = placed as int + 1;
    let b: int = v * (v * v);
    instance.container_views().len() as int * (6 * b)
}

/// A list without repeats whose members all occur in `t` is no longer
/// than `t`.
proof fn lemma_distinct_within<A>(s: Seq<A>, t: Seq<A>)
    requires
        s.no_duplicates(),
        forall|i: int| 0 <= i < s.len() ==> t.contains(#[trigger] s[i]),
    ensures
        s.len() <= t.len(),
{
    broadcast use vstd::seq_lib::seq_to_set_is_finite;

    s.unique_seq_to_set();
    t.lemma_cardinality_of_set();
    assert(s.to_set().subset_of(t.to_set())) by {
        assert forall|x: A| s.to_set().contains(x) implies t.to_set().contains(x) by {
            let i = choose|i: int| 0 <= i < s.len() && s[i] == x;
            assert(t.contains(s[i]));
        }
    }
    vstd::set_lib::lemma_len_subset(s.to_set(), t.to_set());
}

/// At most one face event more than there are placements.
proof fn lemma_events_count(s: Seq<u64>, views: Seq<PlacementView>, container: usize, axis: int)
    requires
        lists_events(s, views, container, axis),
    ensures
        s.len() <= views.len() + 1,
{
    let t = seq![0u64] + Seq::new(
        views.len(),
        |j: int|
            if placement_extents(views[j]) is Some {
                far_end(placement_extents(views[j]).unwrap(), axis)
            } else {
                0u64
            },
    );
    assert(s.no_duplicates()) by {
        assert forall|i: int, j: int| 0 <= i < s.len() && 0 <= j < s.len() && i != j implies s[i] != s[j] by {
            if i < j {
                assert(event_lt(s[i], s[j]));
            } else {
                assert(event_lt(s[j], s[i]));
            }
        }
    }
    assert forall|i: int| 0 <= i < s.len() implies t.contains(#[trigger] s[i]) by {
        assert(s.contains(s[i]));
        assert(is_event(views, container, axis, s[i]));
        if s[i] == 0 {
            assert(t[0] == 0);
        } else {
            let j = choose|j: int|
                0 <= j < views.len() && (#[trigger] views[j]).0 == container && placement_extents(views[j]) is Some
                    && far_end(placement_extents(views[j]).unwrap(), axis) == s[i];
            assert(t[j + 1] == s[i]);
        }
    }
    lemma_distinct_within(s, t);
}

/// An item has at most six distinct rotations.
proof fn lemma_rotations_count(d: Sides)
    requires
        crate::geometry::lists_rotations(d, rotations_of(d)),
    ensures
        rotations_of(d).len() <= 6,
{
    let r = rotations_of(d);
    assert(r.no_duplicates()) by {
        assert forall|i: int, j: int| 0 <= i < r.len() && 0 <= j < r.len() && i != j implies r[i] != r[j] by {
            if i < j {
                assert(crate::geometry::sides_lt(r[i], r[j]));
            } else {
                assert(crate::geometry::sides_lt(r[j], r[i]));
            }
        }
    }
    assert forall|i: int| 0 <= i < r.len() implies crate::geometry::side_permutations(d).contains(#[trigger] r[i]) by {
        assert(r.contains(r[i]));
    }
    lemma_distinct_within(r, crate::geometry::side_permutations(d));
}

/// The origins tried in the first `c` containers, each block at most `b`.
proof fn lemma_tries_bound(views: Seq<PlacementView>, rotation_count: int, c: int, b: int)
    requires
        0 <= c <= usize::MAX,
        0 <= rotation_count,
        forall|c2: int| 0 <= c2 < c ==> #[trigger] block_tries(views, c2 as usize) <= b,
    ensures
        tries_before(views, rotation_count, c) <= c * (rotation_count * b),
    decreases c,
{
    if c > 0 {
        lemma_tries_bound(views, rotation_count, c - 1, b);
        let bt = block_tries(views, (c - 1) as usize);
        assert(tries_before(views, rotation_count, c) == tries_before(views, rotation_count, c - 1) + rotation_count * bt);
        assert(rotation_count * bt <= rotation_count * b) by (nonlinear_arith)
            requires
                bt <= b,
                rotation_count >= 0,
        ;
        assert((c - 1) * (rotation_count * b) + rotation_count * b == c * (rotation_count * b)) by (nonlinear_arith);
    } else {
        assert(c * (rotation_count * b) == 0) by (nonlinear_arith)
            requires
                c == 0,
        ;
    }
}

/// The tries of `k` more rotation blocks after `c` containers, and one more
/// when `extra`, stay within the cap.
proof fn lemma_cap_bound(tb: int, bt: int, c: int, k: int, nc: int, nrots: int, b: int, extra: bool)
    requires
        0 <= c <= nc,
        0 <= k <= nrots,
        0 <= nrots <= 6,
        0 <= bt <= b,
        tb <= c * (nrots * b),
        c == nc ==> k == 0 && !extra,
        extra ==> k < nrots,
    ensures
        tb + k * bt + (if extra { bt } else { 0 }) <= nc * (6 * b),
{
    let e: int = if extra { 1 } else { 0 };
    assert(k * bt + e * bt <= nrots * b) by (nonlinear_arith)
        requires
            0 <= bt <= b,
            0 <= k,
            k + e <= nrots,
            0 <= e,
    ;
    if c < nc {
        assert(c * (nrots * b) + nrots * b <= nc * (6 * b)) by (nonlinear_arith)
            requires
                0 <= c < nc,
                0 <= nrots <= 6,
                0 <= b,
        ;
    } else {
        assert(c * (nrots * b) <= nc * (6 * b)) by (nonlinear_arith)
            requires
                c == nc,
                0 <= nrots <= 6,
                0 <= b,
                0 <= c,
        ;
    }
}

/// The event placements of `item_id` as `event_placements` lists them,
/// with whether the enumeration ran to the end.
fn enumerate_event_placements(
    instance: &PackingInstance,
    placements: &Vec<Placement>,
    item_id: ItemId,
    request: &SolveRequest,
    explored: &mut u64,
) -> (r: Result<(Vec<Placement>, Option<StopSignal>), SolverError>)
    requires
        item_id@ < instance.item_views().len(),
    ensures
        r matches Ok((list, stop)) ==> forall|i: int|
            0 <= i < list@.len() ==> event_sound(
                *instance,
                placement_views(placements@),
                item_id@,
                #[trigger] list@[i]@,
            ),
        r is Ok ==> *final(explored) >= *old(explored),
        r is Ok ==> *final(explored) - *old(explored) <= event_cap(*instance, placements@.len()),
        r is Err ==> *old(explored) + event_cap(*instance, placements@.len()) > u64::MAX,
        r matches Ok((list, stop)) ==> (stop is None ==> list@.map_values(|p: Placement| p@) == all_event_placements(
            *instance,
            placement_views(placements@),
            item_id@,
        )),
        r matches Err(e) ==> e@ == "repair candidate metric overflowed"@,
        r matches Ok((list, stop)) ==> exists|c: int, k: int|
            0 <= c <= instance.container_views().len() && 0 <= k <= rotations_of(
                instance.item_views()[item_id@ as int].2,
            ).len() && (c == instance.container_views().len() ==> k == 0) && #[trigger] enumeration_at(
                *instance,
                placement_views(placements@),
                item_id@,
                c,
                k,
            ) == (list@.map_values(|p: Placement| p@), *final(explored) - *old(explored)),
        r is Err ==> exists|c: int, k: int|
            0 <= c < instance.container_views().len() && 0 <= k < rotations_of(
                instance.item_views()[item_id@ as int].2,
            ).len() && *old(explored) + #[trigger] enumeration_at(
                *instance,
                placement_views(placements@),
                item_id@,
                c,
                k,
            ).1 + block_tries(placement_views(placements@), c as usize) > u64::MAX,
{
    proof {
        use_type_invariant(instance);
    }
    let ghost views = placement_views(placements@);
    let ghost start = *explored;
    let ghost item = item_id@;
    let dimensions = instance.items()[item_id.index()].dimensions();
    let rotations = dimensions.unique_rotations();
    let ghost rots = rotations_of(dimensions@);
    let ghost nrots = rots.len() as int;
    let ghost v: int = views.len() as int + 1;
    let ghost b: int = v * (v * v);
    proof {
        lemma_rotations_count(dimensions@);
        assert(b >= 0) by (nonlinear_arith)
            requires
                v >= 1,
                b == v * (v * v),
        ;
    }
    let mut result: Vec<Placement> = Vec::new();
    let containers = instance.containers();
    let mut c: usize = 0;
    while c < containers.len()
        invariant
            0 <= c <= containers@.len(),
            containers@.len() == instance.container_views().len(),
            forall|i: int| 0 <= i < containers@.len() ==> #[trigger] containers@[i]@ == instance.container_views()[i],
            crate::validate::records_wf(instance.container_views()),
            views == placement_views(placements@),
            item_id@ < instance.item_views().len(),
            dimensions@ == instance.item_views()[item_id@ as int].2,
            forall|i: int| 0 <= i < rotations@.len() ==> is_permutation(dimensions@, #[trigger] rotations@[i]@),
            forall|i: int| 0 <= i < result@.len() ==> event_sound(*instance, views, item_id@, #[trigger] result@[i]@),
            *explored >= *old(explored),
            start == *old(explored),
            item == item_id@,
            rots == rotations_of(dimensions@),
            rotations@.map_values(|x: Dimensions| x@) == rots,
            nrots == rots.len(),
            result@.map_values(|p: Placement| p@) == blocks_before(*instance, views, item, rots, c as int),
            *explored == start + tries_before(views, nrots, c as int),
            nrots <= 6,
            v == views.len() + 1,
            b == v * (v * v),
            b >= 0,
            forall|c2: int| 0 <= c2 < c ==> #[trigger] block_tries(views, c2 as usize) <= b,
        decreases containers@.len() - c,
    {
        let id = containers[c].id();
        assert(id@ == c);
        let xs = face_events(placements, id, 0);
        let ys = face_events(placements, id, 1);
        let zs = face_events(placements, id, 2);
        proof {
            lemma_events_count(xs@, views, c, 0);
            lemma_events_count(ys@, views, c, 1);
            lemma_events_count(zs@, views, c, 2);
            let lx = xs@.len() as int;
            let ly = ys@.len() as int;
            let lz = zs@.len() as int;
            assert(lx * (ly * lz) <= b) by (nonlinear_arith)
                requires
                    0 <= lx <= v,
                    0 <= ly <= v,
                    0 <= lz <= v,
                    b == v * (v * v),
            ;
            assert(block_tries(views, c) <= b);
            assert(container_blocks(*instance, views, item, rots, c as int, 0) =~= Seq::<PlacementView>::empty());
        }
        let mut r: usize = 0;
        while r < rotations.len()
            invariant
                0 <= c < containers@.len(),
                containers@.len() == instance.container_views().len(),
                instance.container_views()[c as int].0 == c,
                0 <= r <= rotations@.len(),
                views == placement_views(placements@),
                item_id@ < instance.item_views().len(),
                dimensions@ == instance.item_views()[item_id@ as int].2,
                forall|i: int| 0 <= i < rotations@.len() ==> is_permutation(dimensions@, #[trigger] rotations@[i]@),
                forall|i: int| 0 <= i < xs@.len() ==> is_event(views, c, 0, #[trigger] xs@[i]),
                forall|i: int| 0 <= i < ys@.len() ==> is_event(views, c, 1, #[trigger] ys@[i]),
                forall|i: int| 0 <= i < zs@.len() ==> is_event(views, c, 2, #[trigger] zs@[i]),
                forall|i: int| 0 <= i < result@.len() ==> event_sound(*instance, views, item_id@, #[trigger] result@[i]@),
                *explored >= *old(explored),
                start == *old(explored),
                item == item_id@,
                rots == rotations_of(dimensions@),
                rotations@.map_values(|x: Dimensions| x@) == rots,
                nrots == rots.len(),
                xs@ == events_along(views, c, 0),
                ys@ == events_along(views, c, 1),
                zs@ == events_along(views, c, 2),
                result@.map_values(|p: Placement| p@) == blocks_before(*instance, views, item, rots, c as int)
                    + container_blocks(*instance, views, item, rots, c as int, r as int),
                *explored == start + tries_before(views, nrots, c as int) + r * block_tries(views, c),
                nrots <= 6,
                v == views.len() + 1,
                b == v * (v * v),
                b >= 0,
                forall|c2: int| 0 <= c2 < c ==> #[trigger] block_tries(views, c2 as usize) <= b,
                block_tries(views, c) <= b,
            decreases rotations@.len() - r,
        {
            if let Some(given) = request.stop_signal() {
                proof {
                    assert(enumeration_at(*instance, views, item, c as int, r as int).0 =~= result@.map_values(
                        |p: Placement| p@,
                    ));
                }
                proof {
                    lemma_tries_bound(views, nrots, c as int, b);
                    lemma_cap_bound(
                        tries_before(views, nrots, c as int),
                        block_tries(views, c),
                        c as int,
                        r as int,
                        containers@.len() as int,
                        nrots,
                        b,
                        false,
                    );
                }
                return Ok((result, Some(given)));
            }
            let rotation = rotations[r];
            assert(rotation@ == rots[r as int]);
            let ghost before = result@.map_values(|p: Placement| p@);
            match events_for_rotation(instance, placements, item_id, c, rotation, &xs, &ys, &zs, explored, &mut result) {
                Ok(()) => {},
                Err(e) => {
                    proof {
                        assert(block_tries(views, c) == xs@.len() * (ys@.len() * zs@.len()));
                        assert(enumeration_at(*instance, views, item, c as int, r as int).1 == tries_before(
                            views,
                            nrots,
                            c as int,
                        ) + r * block_tries(views, c));
                        assert(start + enumeration_at(*instance, views, item, c as int, r as int).1 + block_tries(
                            views,
                            c,
                        ) > u64::MAX);
                        lemma_tries_bound(views, nrots, c as int, b);
                        lemma_cap_bound(
                            tries_before(views, nrots, c as int),
                            block_tries(views, c),
                            c as int,
                            r as int,
                            containers@.len() as int,
                            nrots,
                            b,
                            true,
                        );
                    }
                    return Err(e);
                },
            }
            proof {
                assert(block_tries(views, c) == xs@.len() * (ys@.len() * zs@.len()));
                assert(rotation_block(*instance, views, item, c as int, rots[r as int]) == event_grid(
                    views,
                    c,
                    instance.container_views()[c as int].2,
                    item,
                    rotation@,
                    xs@,
                    ys@,
                    zs@,
                    xs@.len() as int,
                ));
                assert((r + 1) * block_tries(views, c) == r * block_tries(views, c) + block_tries(views, c))
                    by (nonlinear_arith);
            }
            r = r + 1;
        }
        proof {
            assert(blocks_before(*instance, views, item, rots, c + 1) == blocks_before(*instance, views, item, rots, c as int)
                + container_blocks(*instance, views, item, rots, c as int, nrots));
        }
        c = c + 1;
    }
    proof {
        assert(container_blocks(*instance, views, item, rots, c as int, 0) =~= Seq::<PlacementView>::empty());
        assert(enumeration_at(*instance, views, item, c as int, 0).0 =~= result@.map_values(|p: Placement| p@));
        lemma_tries_bound(views, nrots, c as int, b);
        lemma_cap_bound(tries_before(views, nrots, c as int), 0, c as int, 0, containers@.len() as int, nrots, b, false);
    }
    Ok((result, None))
}

/// Every placement of `item_id` at a face event: each origin coordinate is
/// zero or the far face of a placement already in that container, in every
/// distinct rotation, inside the container and overlapping none of
/// `placements`. Containers in input order, then rotations in order, then
/// origins by x, y and z. Each tried origin counts as an explored candidate.
/// Enumeration stops, keeping what was found, once the request should stop.
pub fn event_placements(
    instance: &PackingInstance,
    placements: &Vec<Placement>,
    item_id: ItemId,
    request: &SolveRequest,
    explored: &mut u64,
) -> (r: Result<Vec<Placement>, SolverError>)
    requires
        item_id@ < instance.item_views().len(),
    ensures
        r matches Ok(list) ==> forall|i: int|
            0 <= i < list@.len() ==> event_sound(
                *instance,
                placement_views(placements@),
                item_id@,
                #[trigger] list@[i]@,
            ),
        r is Ok ==> *final(explored) >= *old(explored),
        r matches Err(e) ==> e@ == "repair candidate metric overflowed"@,
        r matches Ok(list) ==> exists|c: int, k: int|
            0 <= c <= instance.container_views().len() && 0 <= k <= rotations_of(
                instance.item_views()[item_id@ as int].2,
            ).len() && (c == instance.container_views().len() ==> k == 0) && #[trigger] enumeration_at(
                *instance,
                placement_views(placements@),
                item_id@,
                c,
                k,
            ) == (list@.map_values(|p: Placement| p@), *final(explored) - *old(explored)),
        r is Err ==> exists|c: int, k: int|
            0 <= c < instance.container_views().len() && 0 <= k < rotations_of(
                instance.item_views()[item_id@ as int].2,
            ).len() && *old(explored) + #[trigger] enumeration_at(
                *instance,
                placement_views(placements@),
                item_id@,
                c,
                k,
            ).1 + block_tries(placement_views(placements@), c as usize) > u64::MAX,
{
    match enumerate_event_placements(instance, placements, item_id, request, explored) {
        Ok((list, _)) => Ok(list),
        Err(e) => Err(e),
    }
}

/// Best independently valid incumbent found by a bounded residual repair.
#[derive(Clone, Debug, Eq, PartialEq)]
pub struct RepairOutcome {
    solution: Solution,
    explored_nodes: u64,
    explored_candidates: u64,
    exhaustive: bool,
    stop: Option<StopSignal>,
}

impl RepairOutcome {
    /// Whether the search gave up because its request asked it to stop.
    pub closed spec fn stopped_spec(self) -> bool {
        self.stop is Some
    }

    /// Whether the search gave up because its request asked it to stop.
    pub fn stopped_early(&self) -> (r: bool)
        ensures
            r == self.stopped_spec(),
    {
        self.stop.is_some()
    }

    pub closed spec fn solution_spec(self) -> Solution {
        self.solution
    }

    pub closed spec fn explored_nodes_spec(self) -> u64 {
        self.explored_nodes
    }

    pub closed spec fn explored_candidates_spec(self) -> u64 {
        self.explored_candidates
    }

    pub closed spec fn exhaustive_spec(self) -> bool {
        self.exhaustive
    }

    pub fn solution(&self) -> (r: &Solution)
        ensures
            *r == self.solution_spec(),
    {
        &self.solution
    }

    pub fn explored_nodes(&self) -> (r: u64)
        ensures
            r == self.explored_nodes_spec(),
    {
        self.explored_nodes
    }

    pub fn explored_candidates(&self) -> (r: u64)
        ensures
            r == self.explored_candidates_spec(),
    {
        self.explored_candidates
    }

    /// True only for the frozen-placement event subproblem, never the global packing problem.
    pub fn into_solution(self) -> (r: Solution)
        ensures
            r == self.solution_spec(),
    {
        self.solution
    }

    pub fn exhaustive(&self) -> (r: bool)
        ensures
            r == self.exhaustive_spec(),
    {
        self.exhaustive
    }
}

/// Residual order: larger volume first, then name, then input position.
pub open spec fn residual_order(items: Seq<RecordView>, a: int, b: int) -> int {
    lex(
        order_int(sides_volume(items[b].2), sides_volume(items[a].2)),
        lex(order_str(items[a].1, items[b].1), order_int(a, b)),
    )
}

/// The residual order is a total preorder on positions (a total order, as
/// positions differ).
pub proof fn lemma_residual_order(items: Seq<RecordView>, a: int, b: int, c: int)
    ensures
        residual_order(items, a, b) == -residual_order(items, b, a),
        residual_order(items, a, b) == 0 <==> a == b,
        residual_order(items, a, b) <= 0 && residual_order(items, b, c) <= 0 ==> residual_order(items, a, c) <= 0,
        residual_order(items, a, b) < 0 && residual_order(items, b, c) <= 0 ==> residual_order(items, a, c) < 0,
{
    lemma_order_bytes_order(encode_utf8(items[a].1), encode_utf8(items[b].1), encode_utf8(items[c].1));
    lemma_order_bytes_order(encode_utf8(items[b].1), encode_utf8(items[c].1), encode_utf8(items[a].1));
    lemma_order_bytes_order(encode_utf8(items[a].1), encode_utf8(items[c].1), encode_utf8(items[b].1));
    lemma_order_bytes_order(encode_utf8(items[a].1), encode_utf8(items[a].1), encode_utf8(items[a].1));
}

/// Compare two residual items.
fn compare_residual_items(instance: &PackingInstance, left: ItemId, right: ItemId) -> (r: i8)
    requires
        left@ < instance.item_views().len(),
        right@ < instance.item_views().len(),
    ensures
        r == residual_order(instance.item_views(), left@ as int, right@ as int),
{
    proof {
        use_type_invariant(instance);
    }
    let left_item = &instance.items()[left.index()];
    let right_item = &instance.items()[right.index()];
    let left_volume = match left_item.dimensions().checked_volume() {
        Some(v) => v,
        None => 0,
    };
    let right_volume = match right_item.dimensions().checked_volume() {
        Some(v) => v,
        None => 0,
    };
    let o = compare_u128(right_volume, left_volume);
    if o != 0 {
        return o;
    }
    let o = compare_str(left_item.name(), right_item.name());
    if o != 0 {
        return o;
    }
    compare_u128(left.index() as u128, right.index() as u128)
}

/// `rv` holds the items of `ids`, sorted by the residual order: the order in
/// which the repair search decides them.
pub open spec fn repair_order(items: Seq<RecordView>, ids: Seq<usize>, rv: Seq<usize>) -> bool {
    &&& rv.to_multiset() == ids.to_multiset()
    &&& forall|i: int, j: int| 0 <= i < j < rv.len() ==> residual_order(items, rv[i] as int, rv[j] as int) <= 0
}

/// The residual items sorted by the residual order.
fn sort_residual(instance: &PackingInstance, residual: &[ItemId]) -> (r: Vec<ItemId>)
    requires
        forall|i: int| 0 <= i < residual@.len() ==> (#[trigger] residual@[i])@ < instance.item_views().len(),
    ensures
        r@.to_multiset() == residual@.to_multiset(),
        forall|i: int| 0 <= i < r@.len() ==> (#[trigger] r@[i])@ < instance.item_views().len(),
        forall|i: int, j: int|
            0 <= i < j < r@.len() ==> residual_order(instance.item_views(), r@[i]@ as int, r@[j]@ as int) <= 0,
{
    broadcast use {vstd::seq_lib::group_to_multiset_ensures, vstd::multiset::group_multiset_axioms};

    let ghost items = instance.item_views();
    let mut r: Vec<ItemId> = Vec::new();
    let mut i: usize = 0;
    while i < residual.len()
        invariant
            0 <= i <= residual@.len(),
            items == instance.item_views(),
            forall|k: int| 0 <= k < residual@.len() ==> (#[trigger] residual@[k])@ < items.len(),
            r@.to_multiset() == residual@.take(i as int).to_multiset(),
            forall|k: int| 0 <= k < r@.len() ==> (#[trigger] r@[k])@ < items.len(),
            forall|a: int, b: int| 0 <= a < b < r@.len() ==> residual_order(items, r@[a]@ as int, r@[b]@ as int) <= 0,
        decreases residual@.len() - i,
    {
        let id = residual[i];
        let mut k: usize = 0;
        while k < r.len() && compare_residual_items(instance, r[k], id) <= 0
            invariant
                0 <= k <= r@.len(),
                items == instance.item_views(),
                id@ < items.len(),
                forall|m: int| 0 <= m < r@.len() ==> (#[trigger] r@[m])@ < items.len(),
                forall|m: int| 0 <= m < k ==> residual_order(items, (#[trigger] r@[m])@ as int, id@ as int) <= 0,
            decreases r@.len() - k,
        {
            k = k + 1;
        }
        let ghost before = r@;
        r.insert(k, id);
        proof {
            assert(r@ =~= before.insert(k as int, id));
            assert forall|a: int, b: int| 0 <= a < b < r@.len() implies residual_order(
                items,
                r@[a]@ as int,
                r@[b]@ as int,
            ) <= 0 by {
                if b < k {
                    assert(r@[a] == before[a] && r@[b] == before[b]);
                } else if b == k {
                    assert(r@[a] == before[a]);
                } else if a == k {
                    assert(r@[b] == before[b - 1]);
                    lemma_residual_order(items, before[k as int]@ as int, id@ as int, id@ as int);
                    lemma_residual_order(items, id@ as int, before[k as int]@ as int, before[b - 1]@ as int);
                } else if a < k {
                    assert(r@[a] == before[a] && r@[b] == before[b - 1]);
                } else {
                    assert(r@[a] == before[a - 1] && r@[b] == before[b - 1]);
                }
            }
            assert(residual@.take(i + 1) =~= residual@.take(i as int).push(id));
            vstd::seq_lib::to_multiset_insert(before, k as int, id);
            vstd::seq_lib::to_multiset_build(residual@.take(i as int), id);
        }
        i = i + 1;
    }
    assert(residual@.take(residual@.len() as int) =~= residual@);
    r
}

/// State of the depth-first residual search.
struct Search {
    config: RepairConfig,
    residual: Vec<ItemId>,
    placements: Vec<Placement>,
    unplaced: Vec<ItemId>,
    best_solution: Solution,
    best_objective: ObjectiveValue,
    best_added_volume: u128,
    best_added_count: usize,
    explored_nodes: u64,
    explored_candidates: u64,
    exhaustive: bool,
    stop: Option<StopSignal>,
}

/// The solution a search leaf stands for: the frozen and chosen placements,
/// and the items left unplaced on the way down.
spec fn leaf_of(search: Search) -> (Seq<PlacementView>, Seq<usize>) {
    (placement_views(search.placements@), search.unplaced@.map_values(|i: ItemId| i@))
}

/// The total volume of the listed items.
pub open spec fn ids_volume(items: Seq<RecordView>, ids: Seq<usize>) -> int
    decreases ids.len(),
{
    if ids.len() == 0 {
        0
    } else {
        ids_volume(items, ids.drop_last()) + sides_volume(items[ids.last() as int].2)
    }
}

proof fn lemma_ids_volume_concat(items: Seq<RecordView>, a: Seq<usize>, b: Seq<usize>)
    ensures
        ids_volume(items, a + b) == ids_volume(items, a) + ids_volume(items, b),
    decreases b.len(),
{
    if b.len() == 0 {
        assert(a + b =~= a);
    } else {
        lemma_ids_volume_concat(items, a, b.drop_last());
        assert((a + b).drop_last() =~= a + b.drop_last());
    }
}

proof fn lemma_ids_volume_nonneg(items: Seq<RecordView>, a: Seq<usize>)
    ensures
        ids_volume(items, a) >= 0,
    decreases a.len(),
{
    if a.len() > 0 {
        lemma_ids_volume_nonneg(items, a.drop_last());
        let sd = items[a.last() as int].2;
        assert(sd.0 * sd.1 * sd.2 >= 0) by (nonlinear_arith)
            requires
                sd.0 >= 0,
                sd.1 >= 0,
                sd.2 >= 0,
        ;
    }
}

proof fn lemma_ids_volume_perm(items: Seq<RecordView>, a: Seq<usize>, b: Seq<usize>)
    requires
        a.to_multiset() == b.to_multiset(),
    ensures
        ids_volume(items, a) == ids_volume(items, b),
    decreases a.len(),
{
    broadcast use vstd::seq_lib::group_to_multiset_ensures;

    if a.len() == 0 {
        assert(b.to_multiset().len() == 0);
        assert(b =~= Seq::<usize>::empty());
    } else {
        let x = a.last();
        assert(a.to_multiset().contains(x)) by {
            assert(a.contains(x)) by {
                assert(a[a.len() - 1] == x);
            }
        }
        assert(b.contains(x));
        let i = choose|i: int| 0 <= i < b.len() && b[i] == x;
        let rest = b.remove(i);
        assert(a.drop_last().to_multiset() =~= a.to_multiset().remove(x)) by {
            assert(a =~= a.drop_last().push(x));
        }
        assert(rest.to_multiset() =~= b.to_multiset().remove(x));
        lemma_ids_volume_perm(items, a.drop_last(), rest);
        assert(b =~= b.take(i) + seq![x] + b.skip(i + 1));
        assert(rest =~= b.take(i) + b.skip(i + 1));
        lemma_ids_volume_concat(items, b.take(i), seq![x]);
        lemma_ids_volume_concat(items, b.take(i) + seq![x], b.skip(i + 1));
        lemma_ids_volume_concat(items, b.take(i), b.skip(i + 1));
        assert(seq![x].drop_last() =~= Seq::<usize>::empty());
        assert(ids_volume(items, Seq::<usize>::empty()) == 0);
        assert(seq![x].last() == x);
        assert(ids_volume(items, seq![x]) == ids_volume(items, seq![x].drop_last()) + sides_volume(items[x as int].2));
        assert(ids_volume(items, seq![x]) == sides_volume(items[x as int].2));
        assert(ids_volume(items, b) == ids_volume(items, b.take(i) + seq![x] + b.skip(i + 1)));
        assert(ids_volume(items, a) == ids_volume(items, a.drop_last()) + sides_volume(items[x as int].2));
    }
}

/// Sequences of the same identities have the same positions.
proof fn lemma_positions_multiset(a: Seq<ItemId>, b: Seq<ItemId>)
    requires
        a.to_multiset() == b.to_multiset(),
    ensures
        a.map_values(|i: ItemId| i@).to_multiset() == b.map_values(|i: ItemId| i@).to_multiset(),
    decreases a.len(),
{
    broadcast use vstd::seq_lib::group_to_multiset_ensures;

    if a.len() == 0 {
        assert(b.to_multiset().len() == 0);
        assert(b =~= Seq::<ItemId>::empty());
        assert(a.map_values(|i: ItemId| i@) =~= b.map_values(|i: ItemId| i@));
    } else {
        let x = a.last();
        assert(a.contains(x)) by {
            assert(a[a.len() - 1] == x);
        }
        assert(a.to_multiset().count(x) > 0);
        assert(b.contains(x));
        let i = choose|i: int| 0 <= i < b.len() && b[i] == x;
        let rest = b.remove(i);
        assert(a =~= a.drop_last().push(x));
        vstd::seq_lib::to_multiset_build(a.drop_last(), x);
        vstd::seq_lib::to_multiset_remove(b, i);
        assert(a.drop_last().to_multiset() =~= rest.to_multiset());
        lemma_positions_multiset(a.drop_last(), rest);
        let ra = a.drop_last().map_values(|i: ItemId| i@);
        let rb = rest.map_values(|i: ItemId| i@);
        assert(a.map_values(|i: ItemId| i@) =~= ra.push(x@));
        assert(b.map_values(|i: ItemId| i@) =~= rb.insert(i, x@));
        vstd::seq_lib::to_multiset_build(ra, x@);
        vstd::seq_lib::to_multiset_insert(rb, i, x@);
    }
}

/// The state of the search at `depth`: the frozen placements come first,
/// every placement is valid and none overlaps another, the items placed
/// after the frozen ones together with the items left unplaced are the
/// first `depth` residual items, and the frozen items with all residual
/// items name every item once.
spec fn path_ok(search: Search, instance: PackingInstance, frozen: Seq<PlacementView>, depth: int) -> bool {
    let ps = placement_views(search.placements@);
    let f = frozen.len() as int;
    &&& f <= ps.len() && ps.take(f) == frozen
    &&& forall|i: int|
        0 <= i < ps.len() ==> placement_valid(instance.container_views(), instance.item_views(), #[trigger] ps[i])
    &&& placements_disjoint(ps)
    &&& (ps.skip(f).map_values(|p: PlacementView| p.1) + search.unplaced@.map_values(|i: ItemId| i@)).to_multiset()
        == search.residual@.map_values(|i: ItemId| i@).take(depth).to_multiset()
    &&& (frozen.map_values(|p: PlacementView| p.1) + search.residual@.map_values(|i: ItemId| i@)).to_multiset()
        == all_positions(instance.item_views().len()).to_multiset()
}

/// The best solution keeps the frozen placements first and leaves unplaced
/// only residual items.
spec fn best_ok(search: Search, frozen: Seq<PlacementView>) -> bool {
    &&& frozen.len() <= search.best_solution@.0.len()
    &&& search.best_solution@.0.take(frozen.len() as int) == frozen
    &&& forall|x: usize| #[trigger] search.best_solution@.1.contains(x) ==> search.residual@.map_values(|i: ItemId| i@).contains(x)
}

/// A complete path is a valid solution.
proof fn lemma_leaf_valid(search: Search, instance: PackingInstance, frozen: Seq<PlacementView>)
    requires
        path_ok(search, instance, frozen, search.residual@.len() as int),
    ensures
        solution_valid(instance, leaf_of(search)),
{
    broadcast use vstd::seq_lib::group_to_multiset_ensures;

    let ps = placement_views(search.placements@);
    let f = frozen.len() as int;
    let r = search.residual@.map_values(|i: ItemId| i@);
    let un = search.unplaced@.map_values(|i: ItemId| i@);
    let items_of = |p: PlacementView| p.1;
    assert(ps =~= frozen + ps.skip(f));
    assert(ps.map_values(items_of) =~= frozen.map_values(items_of) + ps.skip(f).map_values(items_of));
    assert(r.take(r.len() as int) =~= r);
    let occ = item_occurrences(leaf_of(search));
    assert(occ =~= frozen.map_values(items_of) + (ps.skip(f).map_values(items_of) + un));
    vstd::seq_lib::lemma_multiset_commutative(frozen.map_values(items_of), ps.skip(f).map_values(items_of) + un);
    vstd::seq_lib::lemma_multiset_commutative(frozen.map_values(items_of), r);
}

/// Unplaced items of a path are residual items.
proof fn lemma_path_unplaced(search: Search, instance: PackingInstance, frozen: Seq<PlacementView>, depth: int, x: usize)
    requires
        path_ok(search, instance, frozen, depth),
        0 <= depth <= search.residual@.len(),
        search.unplaced@.map_values(|i: ItemId| i@).contains(x),
    ensures
        search.residual@.map_values(|i: ItemId| i@).contains(x),
{
    broadcast use vstd::seq_lib::group_to_multiset_ensures;

    let ps = placement_views(search.placements@);
    let f = frozen.len() as int;
    let r = search.residual@.map_values(|i: ItemId| i@);
    let un = search.unplaced@.map_values(|i: ItemId| i@);
    let s = ps.skip(f).map_values(|p: PlacementView| p.1) + un;
    let k = choose|k: int| 0 <= k < un.len() && un[k] == x;
    assert(s[ps.skip(f).len() + k] == x);
    assert(s.contains(x));
    assert(s.to_multiset().count(x) > 0);
    assert(r.take(depth).to_multiset().count(x) > 0);
    assert(r.take(depth).contains(x));
    let m = choose|m: int| 0 <= m < r.take(depth).len() && r.take(depth)[m] == x;
    assert(r[m] == x);
}

/// Placing residual item `depth` at an event placement extends a path.
proof fn lemma_path_place(
    search: Search,
    instance: PackingInstance,
    frozen: Seq<PlacementView>,
    depth: int,
    c: PlacementView,
    next: Search,
)
    requires
        path_ok(search, instance, frozen, depth),
        0 <= depth < search.residual@.len(),
        event_sound(instance, placement_views(search.placements@), search.residual@[depth]@, c),
        placement_views(next.placements@) == placement_views(search.placements@).push(c),
        next.unplaced@ == search.unplaced@,
        next.residual@ == search.residual@,
    ensures
        path_ok(next, instance, frozen, depth + 1),
{
    broadcast use vstd::seq_lib::group_to_multiset_ensures;

    let ps = placement_views(search.placements@);
    let ps2 = placement_views(next.placements@);
    let f = frozen.len() as int;
    let r = search.residual@.map_values(|i: ItemId| i@);
    let un = search.unplaced@.map_values(|i: ItemId| i@);
    let items_of = |p: PlacementView| p.1;
    assert(ps2.take(f) =~= ps.take(f));
    assert forall|i: int| 0 <= i < ps2.len() implies placement_valid(
        instance.container_views(),
        instance.item_views(),
        #[trigger] ps2[i],
    ) by {
        if i < ps.len() {
            assert(ps2[i] == ps[i]);
        }
    }
    assert forall|i: int, j: int|
        0 <= i < j < ps2.len() && (#[trigger] ps2[i]).0 == (#[trigger] ps2[j]).0 implies !extents_overlap(
        placement_extents(ps2[i]).unwrap(),
        placement_extents(ps2[j]).unwrap(),
    ) by {
        if j < ps.len() {
            assert(ps2[i] == ps[i] && ps2[j] == ps[j]);
        } else {
            assert(ps2[i] == ps[i] && ps2[j] == c);
            assert(ps[i].0 == c.0);
        }
    }
    assert(ps2.skip(f) =~= ps.skip(f).push(c));
    let a = ps.skip(f).map_values(items_of);
    assert(ps2.skip(f).map_values(items_of) =~= a.push(c.1));
    assert(r.take(depth + 1) =~= r.take(depth).push(r[depth]));
    vstd::seq_lib::lemma_multiset_commutative(a.push(c.1), un);
    vstd::seq_lib::lemma_multiset_commutative(a, un);
    assert(c.1 == r[depth]);
    vstd::seq_lib::to_multiset_build(a, c.1);
    vstd::seq_lib::to_multiset_build(r.take(depth), r[depth]);
    assert((a.push(c.1) + un).to_multiset() =~= (a + un).to_multiset().insert(c.1));
    assert((a.push(c.1) + un).to_multiset() == r.take(depth + 1).to_multiset());
}

/// Leaving residual item `depth` unplaced extends a path.
proof fn lemma_path_skip(search: Search, instance: PackingInstance, frozen: Seq<PlacementView>, depth: int, next: Search)
    requires
        path_ok(search, instance, frozen, depth),
        0 <= depth < search.residual@.len(),
        next.placements@ == search.placements@,
        next.unplaced@ == search.unplaced@.push(search.residual@[depth]),
        next.residual@ == search.residual@,
    ensures
        path_ok(next, instance, frozen, depth + 1),
{
    broadcast use vstd::seq_lib::group_to_multiset_ensures;

    let ps = placement_views(search.placements@);
    let f = frozen.len() as int;
    let r = search.residual@.map_values(|i: ItemId| i@);
    let un = search.unplaced@.map_values(|i: ItemId| i@);
    let a = ps.skip(f).map_values(|p: PlacementView| p.1);
    assert(next.unplaced@.map_values(|i: ItemId| i@) =~= un.push(r[depth]));
    assert(a + un.push(r[depth]) =~= (a + un).push(r[depth]));
    assert(r.take(depth + 1) =~= r.take(depth).push(r[depth]));
    vstd::seq_lib::to_multiset_build(a + un, r[depth]);
    vstd::seq_lib::to_multiset_build(r.take(depth), r[depth]);
    let un2 = next.unplaced@.map_values(|i: ItemId| i@);
    assert((a + un).to_multiset() == r.take(depth).to_multiset());
    assert((a + un2).to_multiset() == (a + un).push(r[depth]).to_multiset());
    assert((a + un2).to_multiset() == r.take(depth + 1).to_multiset());
    assert(placement_views(next.placements@) == ps);
}

/// The positions of the listed item identities.
pub open spec fn ids_of(ids: Seq<ItemId>) -> Seq<usize> {
    ids.map_values(|i: ItemId| i@)
}

/// The complete assignment the repair search reaches from the state with
/// placements `ps` and unplaced items `un` at `depth` of the residual order
/// `rv`, following `choices`: residual item `d` goes to its face-event
/// placement number `choices[d]`, or stays unplaced when there is no such
/// placement. Every leaf of the search is reached by some choices.
pub open spec fn search_leaf(
    instance: PackingInstance,
    rv: Seq<usize>,
    depth: int,
    ps: Seq<PlacementView>,
    un: Seq<usize>,
    choices: Seq<int>,
) -> (Seq<PlacementView>, Seq<usize>)
    decreases rv.len() - depth,
{
    if depth < 0 || depth >= rv.len() {
        (ps, un)
    } else {
        let events = all_event_placements(instance, ps, rv[depth]);
        let k = choices[depth];
        if 0 <= k < events.len() {
            search_leaf(instance, rv, depth + 1, ps.push(events[k]), un, choices)
        } else {
            search_leaf(instance, rv, depth + 1, ps, un.push(rv[depth]), choices)
        }
    }
}

/// The number of nodes of the repair search below the state with
/// placements `ps` and unplaced items `un` at `depth` of the residual order
/// `rv`: the node itself, the subtrees of each face-event placement of the
/// next residual item, and the subtree that leaves it unplaced.
pub open spec fn search_tree_size(
    instance: PackingInstance,
    rv: Seq<usize>,
    depth: int,
    ps: Seq<PlacementView>,
    un: Seq<usize>,
) -> nat
    decreases rv.len() - depth, 1int, 0int,
{
    if depth < 0 || depth >= rv.len() {
        1
    } else {
        1 + placed_subtrees_size(
            instance,
            rv,
            depth,
            ps,
            un,
            all_event_placements(instance, ps, rv[depth]).len() as int,
        ) + search_tree_size(instance, rv, depth + 1, ps, un.push(rv[depth]))
    }
}

/// The nodes of the subtrees that put residual item `depth` at its first
/// `j` face-event placements.
pub open spec fn placed_subtrees_size(
    instance: PackingInstance,
    rv: Seq<usize>,
    depth: int,
    ps: Seq<PlacementView>,
    un: Seq<usize>,
    j: int,
) -> nat
    decreases rv.len() - depth, 0int, j,
{
    if depth < 0 || depth >= rv.len() || j <= 0 {
        0
    } else {
        placed_subtrees_size(instance, rv, depth, ps, un, j - 1) + search_tree_size(
            instance,
            rv,
            depth + 1,
            ps.push(all_event_placements(instance, ps, rv[depth])[j - 1]),
            un,
        )
    }
}

/// More placed subtrees hold more nodes.
proof fn lemma_placed_subtrees_monotone(
    instance: PackingInstance,
    rv: Seq<usize>,
    depth: int,
    ps: Seq<PlacementView>,
    un: Seq<usize>,
    i: int,
    j: int,
)
    requires
        i <= j,
    ensures
        placed_subtrees_size(instance, rv, depth, ps, un, i) <= placed_subtrees_size(instance, rv, depth, ps, un, j),
    decreases j - i,
{
    if i < j {
        lemma_placed_subtrees_monotone(instance, rv, depth, ps, un, i, j - 1);
    }
}

/// The two volume sums agree.
proof fn lemma_ids_items_volume(items: Seq<RecordView>, ids: Seq<usize>)
    ensures
        items_volume(items, ids) == ids_volume(items, ids),
    decreases ids.len(),
{
    if ids.len() > 0 {
        lemma_ids_items_volume(items, ids.drop_last());
    }
}

/// Going down the search only adds unplaced items.
proof fn lemma_leaf_unplaced_grows(
    instance: PackingInstance,
    rv: Seq<usize>,
    depth: int,
    ps: Seq<PlacementView>,
    un: Seq<usize>,
    choices: Seq<int>,
)
    requires
        crate::validate::records_wf(instance.item_views()),
        forall|i: int| 0 <= i < rv.len() ==> (#[trigger] rv[i]) < instance.item_views().len(),
    ensures
        ids_volume(instance.item_views(), search_leaf(instance, rv, depth, ps, un, choices).1) >= ids_volume(
            instance.item_views(),
            un,
        ),
        search_leaf(instance, rv, depth, ps, un, choices).1.len() >= un.len(),
    decreases rv.len() - depth,
{
    if depth < 0 || depth >= rv.len() {
    } else {
        let events = all_event_placements(instance, ps, rv[depth]);
        let k = choices[depth];
        if 0 <= k < events.len() {
            lemma_leaf_unplaced_grows(instance, rv, depth + 1, ps.push(events[k]), un, choices);
        } else {
            let un2 = un.push(rv[depth]);
            lemma_leaf_unplaced_grows(instance, rv, depth + 1, ps, un2, choices);
            assert(un2.drop_last() =~= un);
            let sd = instance.item_views()[rv[depth] as int].2;
            assert(sd.0 * sd.1 * sd.2 >= 0) by (nonlinear_arith)
                requires
                    sd.0 >= 0,
                    sd.1 >= 0,
                    sd.2 >= 0,
            ;
        }
    }
}

/// A leaf below a state with more unplaced volume than `best`, or as much
/// volume and more unplaced items, is worse than `best`.
proof fn lemma_pruned_leaf(
    instance: PackingInstance,
    rv: Seq<usize>,
    depth: int,
    ps: Seq<PlacementView>,
    un: Seq<usize>,
    choices: Seq<int>,
    best: ObjectiveView,
)
    requires
        crate::validate::records_wf(instance.item_views()),
        forall|i: int| 0 <= i < rv.len() ==> (#[trigger] rv[i]) < instance.item_views().len(),
        ids_volume(instance.item_views(), un) <= u128::MAX,
        best.unplaced_volume < ids_volume(instance.item_views(), un) || (best.unplaced_volume == ids_volume(
            instance.item_views(),
            un,
        ) && best.unplaced_item_count < un.len()),
    ensures
        objective_order(best, objective_of(summary_spec(instance, search_leaf(instance, rv, depth, ps, un, choices)))) > 0,
{
    let leaf = search_leaf(instance, rv, depth, ps, un, choices);
    lemma_leaf_unplaced_grows(instance, rv, depth, ps, un, choices);
    lemma_ids_items_volume(instance.item_views(), leaf.1);
    let o = objective_of(summary_spec(instance, leaf));
    assert(o.unplaced_volume >= ids_volume(instance.item_views(), un));
    assert(o.unplaced_item_count >= un.len());
}

/// The most origins one node of the repair search can try: the cap of one
/// enumeration with every item placed.
pub open spec fn repair_cap(instance: PackingInstance) -> int {
    event_cap(instance, instance.item_views().len())
}

/// The cap grows with the placements made.
proof fn lemma_event_cap_monotone(instance: PackingInstance, a: nat, b: nat)
    requires
        a <= b,
    ensures
        0 <= event_cap(instance, a) <= event_cap(instance, b),
{
    let va: int = a as int + 1;
    let vb: int = b as int + 1;
    let nc: int = instance.container_views().len() as int;
    assert(0 <= nc * (6 * (va * (va * va))) <= nc * (6 * (vb * (vb * vb)))) by (nonlinear_arith)
        requires
            1 <= va <= vb,
            0 <= nc,
    ;
}

/// A search path places at most every item.
proof fn lemma_path_placements(search: Search, instance: PackingInstance, frozen: Seq<PlacementView>, depth: int)
    requires
        path_ok(search, instance, frozen, depth),
        0 <= depth <= search.residual@.len(),
    ensures
        search.placements@.len() <= instance.item_views().len(),
{
    broadcast use vstd::seq_lib::group_to_multiset_ensures;

    let ps = placement_views(search.placements@);
    let f = frozen.len() as int;
    let rv = search.residual@.map_values(|i: ItemId| i@);
    let a = ps.skip(f).map_values(|p: PlacementView| p.1) + search.unplaced@.map_values(|i: ItemId| i@);
    assert(a.to_multiset().len() == a.len());
    assert(rv.take(depth).to_multiset().len() == rv.take(depth).len());
    let b = frozen.map_values(|p: PlacementView| p.1) + rv;
    assert(b.to_multiset().len() == b.len());
    let all = all_positions(instance.item_views().len());
    assert(all.to_multiset().len() == all.len());
}

impl Search {
    /// The best objective's unplaced volume and count are those of the
    /// residual less the best added volume and count.
    spec fn best_tracks(self, instance: PackingInstance) -> bool {
        let rv = ids_of(self.residual@);
        &&& self.best_objective@.unplaced_volume == saturate(
            ids_volume(instance.item_views(), rv) - self.best_added_volume,
        )
        &&& self.best_objective@.unplaced_item_count == rv.len() - self.best_added_count
    }

    /// The best solution is valid, its objective is recorded and at least
    /// `floor`, and the node budget is respected.
    spec fn inv(self, instance: PackingInstance, floor: ObjectiveView) -> bool {
        &&& solution_valid(instance, self.best_solution@)
        &&& self.best_objective@ == objective_of(summary_spec(instance, self.best_solution@))
        &&& objective_order(self.best_objective@, floor) >= 0
        &&& self.explored_nodes <= self.config@.1
        &&& forall|i: int| 0 <= i < self.residual@.len() ==> (#[trigger] self.residual@[i])@ < instance.item_views().len()
        &&& self.explored_candidates <= self.explored_nodes * repair_cap(instance)
    }

    /// Validate the complete assignment and keep it when its objective is better.
    fn consider_leaf(
        &mut self,
        instance: &PackingInstance,
        added_volume: u128,
        added_count: usize,
        Ghost(floor): Ghost<ObjectiveView>,
    ) -> (r: Result<(), SolverError>)
        requires
            old(self).inv(*instance, floor),
        ensures
            final(self).inv(*instance, floor),
            final(self).config == old(self).config,
            final(self).residual@ == old(self).residual@,
            final(self).placements@ == old(self).placements@,
            final(self).unplaced@ == old(self).unplaced@,
            final(self).explored_nodes == old(self).explored_nodes,
            final(self).explored_candidates == old(self).explored_candidates,
            final(self).exhaustive == old(self).exhaustive,
            final(self).stop == old(self).stop,
            r is Ok <==> solution_valid(*instance, leaf_of(*old(self))),
            r is Err ==> *final(self) == *old(self),
            r matches Err(e) ==> e@ == "exact repair generated an invalid leaf"@,
            r is Ok && objective_order(objective_of(summary_spec(*instance, leaf_of(*old(self)))), old(self).best_objective@)
                > 0 ==> {
                &&& final(self).best_solution@ == leaf_of(*old(self))
                &&& final(self).best_objective@ == objective_of(summary_spec(*instance, leaf_of(*old(self))))
                &&& final(self).best_added_volume == added_volume
                &&& final(self).best_added_count == added_count
            },
            r is Ok && objective_order(objective_of(summary_spec(*instance, leaf_of(*old(self)))), old(self).best_objective@)
                <= 0 ==> *final(self) == *old(self),
    {
        let solution = Solution::new(self.placements.clone(), self.unplaced.clone());
        assert(solution@ == leaf_of(*self));
        let summary = match validate_solution(instance, &solution) {
            Ok(summary) => summary,
            Err(_) => {
                return Err(SolverError::new("exact repair generated an invalid leaf"));
            },
        };
        let objective = ObjectiveValue::from_summary(&summary);
        if objective.is_better_than(&self.best_objective) {
            proof {
                lemma_objective_order(objective@, self.best_objective@, floor);
            }
            self.best_solution = solution;
            self.best_objective = objective;
            self.best_added_volume = added_volume;
            self.best_added_count = added_count;
        }
        Ok(())
    }

    /// Explore the residual items from `depth` on: each in every event
    /// placement, then unplaced. Subtrees that cannot beat the best added
    /// volume (or, at equal volume, its added count) are skipped.
    fn visit(
        &mut self,
        instance: &PackingInstance,
        request: &SolveRequest,
        depth: usize,
        added_volume: u128,
        added_count: usize,
        Ghost(floor): Ghost<ObjectiveView>,
        Ghost(frozen): Ghost<Seq<PlacementView>>,
    ) -> (r: Result<(), SolverError>)
        requires
            old(self).inv(*instance, floor),
            depth <= old(self).residual@.len(),
            added_count + old(self).unplaced@.len() == depth,
            path_ok(*old(self), *instance, frozen, depth as int),
            best_ok(*old(self), frozen),
            added_volume + ids_volume(instance.item_views(), ids_of(old(self).unplaced@)) == ids_volume(
                instance.item_views(),
                ids_of(old(self).residual@).take(depth as int),
            ),
            depth > 0 ==> ids_volume(instance.item_views(), ids_of(old(self).residual@)) <= u128::MAX,
            old(self).best_tracks(*instance),
        ensures
            final(self).inv(*instance, floor),
            final(self).best_tracks(*instance),
            r is Ok && final(self).exhaustive ==> forall|choices: Seq<int>|
                objective_order(
                    final(self).best_objective@,
                    objective_of(
                        summary_spec(
                            *instance,
                            #[trigger] search_leaf(
                                *instance,
                                ids_of(old(self).residual@),
                                depth as int,
                                placement_views(old(self).placements@),
                                ids_of(old(self).unplaced@),
                                choices,
                            ),
                        ),
                    ),
                ) >= 0,
            best_ok(*final(self), frozen),
            final(self).config == old(self).config,
            final(self).residual@ == old(self).residual@,
            final(self).explored_nodes >= old(self).explored_nodes,
            r is Ok ==> final(self).placements@ == old(self).placements@ && final(self).unplaced@ == old(
                self,
            ).unplaced@,
            final(self).exhaustive ==> old(self).exhaustive,
            old(self).stop is Some ==> final(self).stop is Some,
            r is Ok && final(self).stop is None ==> final(self).explored_nodes <= old(self).explored_nodes + search_tree_size(
                *instance,
                ids_of(old(self).residual@),
                depth as int,
                placement_views(old(self).placements@),
                ids_of(old(self).unplaced@),
            ),
            r is Ok && old(self).exhaustive && !final(self).exhaustive ==> final(self).stop is Some
                || final(self).explored_nodes == final(self).config@.1,
            final(self).exhaustive ==> final(self).explored_nodes > old(self).explored_nodes,
            old(self).explored_nodes >= old(self).config@.1 ==> r is Ok && *final(self) == (Search {
                exhaustive: false,
                ..*old(self)
            }),
            depth < old(self).residual@.len() && old(self).explored_nodes + 1 >= old(self).config@.1 && old(
                self,
            ).best_added_volume == 0 && old(self).best_added_count == 0 && r is Ok ==> final(self).best_solution
                == old(self).best_solution && !final(self).exhaustive,
            objective_order(final(self).best_objective@, old(self).best_objective@) >= 0,
            final(self).explored_candidates >= old(self).explored_candidates,
            r matches Err(e) ==> (e@ == "repair candidate metric overflowed"@ && old(self).config@.1 * repair_cap(
                *instance,
            ) > u64::MAX) || ids_volume(instance.item_views(), ids_of(old(self).residual@)) > u128::MAX,
        decreases old(self).residual@.len() - depth, 1int,
    {
        proof {
            use_type_invariant(instance);
            lemma_objective_order(self.best_objective@, self.best_objective@, self.best_objective@);
        }
        let ghost items = instance.item_views();
        let ghost rv = ids_of(self.residual@);
        if self.explored_nodes >= self.config.max_nodes {
            self.exhaustive = false;
            return Ok(());
        }
        if let Some(given) = request.stop_signal() {
            self.stop = Some(given);
            self.exhaustive = false;
            return Ok(());
        }
        self.explored_nodes = self.explored_nodes + 1;
        proof {
            lemma_event_cap_monotone(*instance, 0, instance.item_views().len());
            let cap = repair_cap(*instance);
            let nodes = old(self).explored_nodes as int;
            assert((nodes + 1) * cap == nodes * cap + cap) by (nonlinear_arith);
        }
        let n = self.residual.len();
        let mut remaining_volume: u128 = 0;
        let mut k: usize = depth;
        let ghost entry = *self;
        proof {
            assert(rv.subrange(depth as int, depth as int) =~= Seq::<usize>::empty());
            assert(rv =~= rv.take(depth as int) + rv.subrange(depth as int, n as int));
            lemma_ids_volume_concat(items, rv.take(depth as int), rv.subrange(depth as int, n as int));
            lemma_ids_volume_nonneg(items, rv.take(depth as int));
            lemma_ids_volume_nonneg(items, ids_of(old(self).unplaced@));
        }
        while k < n
            invariant
                depth <= k <= n,
                *self == entry,
                entry.inv(*instance, floor),
                entry.config == old(self).config,
                entry.residual@ == old(self).residual@,
                entry.explored_nodes > old(self).explored_nodes,
                entry.exhaustive == old(self).exhaustive,
                entry.best_objective == old(self).best_objective,
                entry.best_solution == old(self).best_solution,
                entry.explored_candidates == old(self).explored_candidates,
                entry.placements == old(self).placements,
                entry.unplaced == old(self).unplaced,
                entry.best_added_volume == old(self).best_added_volume,
                entry.best_added_count == old(self).best_added_count,
                entry.best_tracks(*instance),
                entry.stop == old(self).stop,
                added_volume <= ids_volume(items, rv.take(depth as int)),
                entry.explored_nodes == old(self).explored_nodes + 1,
                old(self).explored_nodes < old(self).config@.1,
                objective_order(old(self).best_objective@, old(self).best_objective@) >= 0,
                best_ok(*old(self), frozen),
                n == self.residual@.len(),
                forall|i: int| 0 <= i < self.residual@.len() ==> (#[trigger] self.residual@[i])@ < instance.item_views().len(),
                crate::validate::records_wf(instance.item_views()),
                items == instance.item_views(),
                rv == ids_of(self.residual@),
                remaining_volume == ids_volume(items, rv.subrange(depth as int, k as int)),
                ids_volume(items, rv) == ids_volume(items, rv.take(depth as int)) + ids_volume(
                    items,
                    rv.subrange(depth as int, n as int),
                ),
                ids_volume(items, rv.take(depth as int)) >= 0,
            decreases n - k,
        {
            let item_id = self.residual[k];
            let volume = match instance.items()[item_id.index()].dimensions().checked_volume() {
                Some(v) => v,
                None => 0,
            };
            proof {
                assert(rv[k as int] == item_id@);
                assert(rv.subrange(depth as int, k + 1).drop_last() =~= rv.subrange(depth as int, k as int));
                assert(volume == sides_volume(items[item_id@ as int].2));
                assert(rv.subrange(depth as int, n as int) =~= rv.subrange(depth as int, k + 1) + rv.subrange(
                    k + 1,
                    n as int,
                ));
                lemma_ids_volume_concat(items, rv.subrange(depth as int, k + 1), rv.subrange(k + 1, n as int));
                lemma_ids_volume_nonneg(items, rv.subrange(k + 1, n as int));
            }
            remaining_volume = match remaining_volume.checked_add(volume) {
                Some(v) => v,
                None => {
                    return Err(SolverError::new("repair volume bound overflowed"));
                },
            };
            k = k + 1;
        }
        assert(rv.subrange(depth as int, n as int) == rv.subrange(depth as int, k as int));
        let volume_bound = match added_volume.checked_add(remaining_volume) {
            Some(v) => v,
            None => {
                return Err(SolverError::new("repair volume bound overflowed"));
            },
        };
        let remaining_count = n - depth;
        let ghost pv = placement_views(old(self).placements@);
        let ghost un = ids_of(old(self).unplaced@);
        proof {
            assert(rv == ids_of(old(self).residual@));
            if depth == 0 {
                assert(rv.take(0) =~= Seq::<usize>::empty());
            }
            lemma_ids_volume_nonneg(items, un);
            assert(ids_volume(items, rv) <= u128::MAX);
            assert(ids_volume(items, un) <= u128::MAX);
        }
        if volume_bound < self.best_added_volume || (volume_bound == self.best_added_volume && added_count
            + remaining_count < self.best_added_count) {
            proof {
                assert forall|choices: Seq<int>|
                    objective_order(
                        self.best_objective@,
                        objective_of(summary_spec(*instance, #[trigger] search_leaf(*instance, rv, depth as int, pv, un, choices))),
                    ) > 0 by {
                    lemma_pruned_leaf(*instance, rv, depth as int, pv, un, choices, self.best_objective@);
                }
            }
            return Ok(());
        }
        if depth == n {
            let ghost before = *self;
            proof {
                lemma_leaf_valid(before, *instance, frozen);
            }
            let r = self.consider_leaf(instance, added_volume, added_count, Ghost(floor));
            proof {
                lemma_objective_order(self.best_objective@, before.best_objective@, before.best_objective@);
                let o = objective_of(summary_spec(*instance, leaf_of(before)));
                lemma_objective_order(o, before.best_objective@, o);
                lemma_objective_order(self.best_objective@, o, o);
                assert(search_leaf(*instance, rv, depth as int, pv, un, Seq::<int>::empty()) == leaf_of(before));
                assert forall|choices: Seq<int>|
                    objective_order(
                        self.best_objective@,
                        objective_of(summary_spec(*instance, #[trigger] search_leaf(*instance, rv, depth as int, pv, un, choices))),
                    ) >= 0 by {
                    assert(search_leaf(*instance, rv, depth as int, pv, un, choices) == leaf_of(before));
                }
                if self.best_solution != before.best_solution {
                    lemma_ids_items_volume(items, un);
                    assert(rv.take(n as int) =~= rv);
                    assert(self.best_solution@ == leaf_of(before));
                    let ps = placement_views(before.placements@);
                    assert(ps.take(frozen.len() as int) == frozen);
                    assert forall|x: usize| #[trigger] self.best_solution@.1.contains(x) implies self.residual@.map_values(
                        |i: ItemId| i@,
                    ).contains(x) by {
                        lemma_path_unplaced(before, *instance, frozen, depth as int, x);
                    }
                }
            }
            return r;
        }
        proof {
            assert(entry.best_tracks(*instance));
        }
        self.visit_children(instance, request, depth, added_volume, added_count, Ghost(floor), Ghost(frozen))
    }

    /// Explore the children of the node at `depth`: residual item `depth` in
    /// each of its event placements, then unplaced.
    fn visit_children(
        &mut self,
        instance: &PackingInstance,
        request: &SolveRequest,
        depth: usize,
        added_volume: u128,
        added_count: usize,
        Ghost(floor): Ghost<ObjectiveView>,
        Ghost(frozen): Ghost<Seq<PlacementView>>,
    ) -> (r: Result<(), SolverError>)
        requires
            old(self).inv(*instance, floor),
            depth < old(self).residual@.len(),
            added_count + old(self).unplaced@.len() == depth,
            path_ok(*old(self), *instance, frozen, depth as int),
            best_ok(*old(self), frozen),
            added_volume + ids_volume(instance.item_views(), ids_of(old(self).unplaced@)) == ids_volume(
                instance.item_views(),
                ids_of(old(self).residual@).take(depth as int),
            ),
            ids_volume(instance.item_views(), ids_of(old(self).residual@)) <= u128::MAX,
            old(self).best_tracks(*instance),
            old(self).explored_candidates + repair_cap(*instance) <= old(self).explored_nodes * repair_cap(*instance),
        ensures
            final(self).inv(*instance, floor),
            final(self).best_tracks(*instance),
            best_ok(*final(self), frozen),
            final(self).config == old(self).config,
            final(self).residual@ == old(self).residual@,
            final(self).explored_nodes >= old(self).explored_nodes,
            r is Ok ==> final(self).placements@ == old(self).placements@ && final(self).unplaced@ == old(
                self,
            ).unplaced@,
            final(self).exhaustive ==> old(self).exhaustive,
            old(self).stop is Some ==> final(self).stop is Some,
            r is Ok && final(self).stop is None ==> final(self).explored_nodes <= old(self).explored_nodes + placed_subtrees_size(
                *instance,
                ids_of(old(self).residual@),
                depth as int,
                placement_views(old(self).placements@),
                ids_of(old(self).unplaced@),
                all_event_placements(
                    *instance,
                    placement_views(old(self).placements@),
                    ids_of(old(self).residual@)[depth as int],
                ).len() as int,
            ) + search_tree_size(
                *instance,
                ids_of(old(self).residual@),
                depth + 1,
                placement_views(old(self).placements@),
                ids_of(old(self).unplaced@).push(ids_of(old(self).residual@)[depth as int]),
            ),
            r is Ok && old(self).exhaustive && !final(self).exhaustive ==> final(self).stop is Some
                || final(self).explored_nodes == final(self).config@.1,
            old(self).explored_nodes >= old(self).config@.1 && old(self).best_added_volume == 0 && old(
                self,
            ).best_added_count == 0 && r is Ok ==> final(self).best_solution == old(self).best_solution
                && !final(self).exhaustive,
            objective_order(final(self).best_objective@, old(self).best_objective@) >= 0,
            final(self).explored_candidates >= old(self).explored_candidates,
            r is Ok && final(self).exhaustive ==> forall|choices: Seq<int>|
                objective_order(
                    final(self).best_objective@,
                    objective_of(
                        summary_spec(
                            *instance,
                            #[trigger] search_leaf(
                                *instance,
                                ids_of(old(self).residual@),
                                depth as int,
                                placement_views(old(self).placements@),
                                ids_of(old(self).unplaced@),
                                choices,
                            ),
                        ),
                    ),
                ) >= 0,
            r matches Err(e) ==> e@ == "repair candidate metric overflowed"@ && old(self).config@.1 * repair_cap(
                *instance,
            ) > u64::MAX,
        decreases old(self).residual@.len() - depth, 0int,
    {
        proof {
            use_type_invariant(instance);
            lemma_objective_order(self.best_objective@, self.best_objective@, self.best_objective@);
        }
        let ghost items = instance.item_views();
        let ghost rv = ids_of(self.residual@);
        let ghost pv = placement_views(self.placements@);
        let ghost un = ids_of(self.unplaced@);
        let n = self.residual.len();
        proof {
            lemma_ids_volume_nonneg(items, rv.subrange(depth + 1, n as int));
        }
        let item_id = self.residual[depth];
        let item_volume = match instance.items()[item_id.index()].dimensions().checked_volume() {
            Some(v) => v,
            None => 0,
        };
        proof {
            assert(rv[depth as int] == item_id@);
            assert(item_volume == sides_volume(items[item_id@ as int].2));
            assert(rv.take(depth + 1).drop_last() =~= rv.take(depth as int));
            assert(rv =~= rv.take(depth + 1) + rv.subrange(depth + 1, n as int));
            lemma_ids_volume_concat(items, rv.take(depth + 1), rv.subrange(depth + 1, n as int));
            lemma_ids_volume_nonneg(items, rv.subrange(depth + 1, n as int));
        }
        let mut explored_candidates = self.explored_candidates;
        let (candidates, enumeration_stop) = match enumerate_event_placements(
            instance,
            &self.placements,
            item_id,
            request,
            &mut explored_candidates,
        ) {
            Ok(found) => found,
            Err(e) => {
                proof {
                    lemma_path_placements(*old(self), *instance, frozen, depth as int);
                    lemma_event_cap_monotone(*instance, old(self).placements@.len(), instance.item_views().len());
                    let cap = repair_cap(*instance);
                    let nodes = old(self).explored_nodes as int;
                    let limit = old(self).config@.1 as int;
                    assert(nodes * cap <= limit * cap) by (nonlinear_arith)
                        requires
                            nodes <= limit,
                            cap >= 0,
                    ;
                }
                return Err(e);
            },
        };
        proof {
            lemma_path_placements(*old(self), *instance, frozen, depth as int);
            lemma_event_cap_monotone(*instance, old(self).placements@.len(), instance.item_views().len());
        }
        self.explored_candidates = explored_candidates;
        if let Some(given) = enumeration_stop {
            self.stop = Some(given);
            self.exhaustive = false;
        }
        let ghost residual = self.residual@;
        let ghost placements = self.placements@;
        let ghost unplaced = self.unplaced@;
        let ghost config = self.config;
        let ghost nodes = self.explored_nodes;
        let ghost capped = self.explored_nodes >= self.config@.1 && old(self).best_added_volume == 0 && old(
            self,
        ).best_added_count == 0;
        let ghost events = all_event_placements(*instance, pv, item_id@);
        let mut c: usize = 0;
        let mut halted = false;
        while c < candidates.len() && !halted
            invariant
                self.inv(*instance, floor),
                self.best_tracks(*instance),
                best_ok(*self, frozen),
                self.config == config,
                self.residual@ == residual,
                self.placements@ == placements,
                self.unplaced@ == unplaced,
                self.explored_nodes >= nodes,
                residual == old(self).residual@,
                config == old(self).config,
                placements == old(self).placements@,
                unplaced == old(self).unplaced@,
                nodes >= old(self).explored_nodes,
                depth < residual.len(),
                residual.len() == n,
                0 <= c <= candidates@.len(),
                added_count + unplaced.len() == depth,
                objective_order(self.best_objective@, old(self).best_objective@) >= 0,
                self.exhaustive ==> old(self).exhaustive,
                self.explored_candidates >= old(self).explored_candidates,
                path_ok(*old(self), *instance, frozen, depth as int),
                forall|i: int|
                    0 <= i < candidates@.len() ==> event_sound(
                        *instance,
                        placement_views(placements),
                        item_id@,
                        #[trigger] candidates@[i]@,
                    ),
                item_id == residual[depth as int],
                item_id@ == rv[depth as int],
                items == instance.item_views(),
                rv == ids_of(residual),
                pv == placement_views(placements),
                un == ids_of(unplaced),
                item_volume == sides_volume(items[item_id@ as int].2),
                added_volume + ids_volume(items, un) == ids_volume(items, rv.take(depth as int)),
                rv.take(depth + 1).drop_last() == rv.take(depth as int),
                rv.take(depth + 1).last() == item_id@,
                ids_volume(items, rv) <= u128::MAX,
                ids_volume(items, rv) == ids_volume(items, rv.take(depth + 1)) + ids_volume(
                    items,
                    rv.subrange(depth + 1, n as int),
                ),
                ids_volume(items, rv.subrange(depth + 1, n as int)) >= 0,
                events == all_event_placements(*instance, pv, item_id@),
                self.exhaustive ==> candidates@.map_values(|p: Placement| p@) == events,
                halted ==> !self.exhaustive,
                old(self).stop is Some ==> self.stop is Some,
                old(self).exhaustive && !self.exhaustive ==> self.stop is Some || self.explored_nodes == self.config@.1,
                self.stop is None ==> candidates@.map_values(|p: Placement| p@) == events,
                self.stop is None ==> self.explored_nodes <= nodes + placed_subtrees_size(*instance, rv, depth as int, pv, un, c as int),
                nodes == old(self).explored_nodes,
                self.exhaustive ==> forall|choices: Seq<int>|
                    0 <= choices[depth as int] < c ==> objective_order(
                        self.best_objective@,
                        objective_of(
                            summary_spec(*instance, #[trigger] search_leaf(*instance, rv, depth as int, pv, un, choices)),
                        ),
                    ) >= 0,
                capped ==> c == 0 && self.best_solution == old(self).best_solution && self.explored_nodes == nodes,
                capped == (nodes >= config@.1 && old(self).best_added_volume == 0 && old(self).best_added_count == 0),
            decreases candidates@.len() - c + if halted {
                0int
            } else {
                1int
            },
        {
            if self.explored_nodes >= self.config.max_nodes {
                self.exhaustive = false;
                halted = true;
            } else if let Some(given) = request.stop_signal() {
                self.stop = Some(given);
                self.exhaustive = false;
                halted = true;
            } else {
                proof {
                    lemma_ids_volume_nonneg(items, un);
                    assert(ids_volume(items, rv.take(depth + 1)) == ids_volume(items, rv.take(depth as int))
                        + item_volume);
                }
                let next_volume = match added_volume.checked_add(item_volume) {
                    Some(v) => v,
                    None => {
                        return Err(SolverError::new("repair placed volume overflowed"));
                    },
                };
                let ghost before = *self;
                self.placements.push(candidates[c]);
                proof {
                    assert(placement_views(self.placements@) =~= pv.push(candidates@[c as int]@));
                    lemma_path_place(before, *instance, frozen, depth as int, candidates@[c as int]@, *self);
                }
                let ghost mid = self.best_objective@;
                let ghost mid_exhaustive = self.exhaustive;
                let r = self.visit(instance, request, depth + 1, next_volume, added_count + 1, Ghost(floor), Ghost(frozen));
                proof {
                    lemma_objective_order(self.best_objective@, mid, old(self).best_objective@);
                }
                match r {
                    Ok(()) => {},
                    Err(e) => {
                        return Err(e);
                    },
                }
                proof {
                    if self.exhaustive {
                        assert(events[c as int] == candidates@[c as int]@);
                        assert forall|choices: Seq<int>|
                            0 <= choices[depth as int] < c + 1 implies objective_order(
                                self.best_objective@,
                                objective_of(
                                    summary_spec(*instance, #[trigger] search_leaf(*instance, rv, depth as int, pv, un, choices)),
                                ),
                            ) >= 0 by {
                            let lf = objective_of(summary_spec(*instance, search_leaf(*instance, rv, depth as int, pv, un, choices)));
                            if choices[depth as int] < c {
                                lemma_objective_order(self.best_objective@, mid, lf);
                            } else {
                                assert(search_leaf(*instance, rv, depth as int, pv, un, choices) == search_leaf(
                                    *instance,
                                    rv,
                                    depth + 1,
                                    pv.push(candidates@[c as int]@),
                                    un,
                                    choices,
                                ));
                            }
                        }
                    }
                }
                self.placements.pop();
                assert(self.placements@ =~= placements);
                c = c + 1;
            }
        }
        let ghost before_skip = *self;
        self.unplaced.push(item_id);
        proof {
            lemma_path_skip(before_skip, *instance, frozen, depth as int, *self);
            assert(ids_of(self.unplaced@) =~= un.push(item_id@));
            assert(un.push(item_id@).drop_last() =~= un);
        }
        let ghost mid = self.best_objective@;
        let r = self.visit(instance, request, depth + 1, added_volume, added_count, Ghost(floor), Ghost(frozen));
        proof {
            lemma_objective_order(self.best_objective@, mid, old(self).best_objective@);
        }
        match r {
            Ok(()) => {},
            Err(e) => {
                return Err(e);
            },
        }
        proof {
            if self.stop is None {
                lemma_placed_subtrees_monotone(*instance, rv, depth as int, pv, un, c as int, candidates@.len() as int);
                assert(candidates@.map_values(|p: Placement| p@).len() == events.len());
            }
            if self.exhaustive {
                assert forall|choices: Seq<int>| #![trigger search_leaf(*instance, rv, depth as int, pv, un, choices)]
                    objective_order(
                        self.best_objective@,
                        objective_of(summary_spec(*instance, search_leaf(*instance, rv, depth as int, pv, un, choices))),
                    ) >= 0 by {
                    let lf = objective_of(summary_spec(*instance, search_leaf(*instance, rv, depth as int, pv, un, choices)));
                    if 0 <= choices[depth as int] < candidates@.len() {
                        lemma_objective_order(self.best_objective@, mid, lf);
                    } else {
                        assert(search_leaf(*instance, rv, depth as int, pv, un, choices) == search_leaf(
                            *instance,
                            rv,
                            depth + 1,
                            pv,
                            un.push(item_id@),
                            choices,
                        ));
                    }
                }
            }
        }
        self.unplaced.pop();
        assert(self.unplaced@ =~= unplaced);
        Ok(())
    }
}

/// Every unplaced item of a valid solution is an item of the instance.
proof fn lemma_unplaced_in_range(instance: PackingInstance, sol: (Seq<PlacementView>, Seq<usize>), i: int)
    requires
        instance.wf(),
        solution_valid(instance, sol),
        0 <= i < sol.1.len(),
    ensures
        sol.1[i] < instance.item_views().len(),
{
    broadcast use vstd::seq_lib::group_to_multiset_ensures;

    let occ = item_occurrences(sol);
    let k = sol.0.len() + i;
    assert(occ[k] == sol.1[i]);
    assert(occ.contains(sol.1[i]));
    lemma_all_positions_count(instance.item_views().len(), sol.1[i]);
}

/// A copy of `solution`.
fn copy_solution(solution: &Solution) -> (r: Solution)
    ensures
        r@ == solution@,
{
    let placements = solution.placements();
    let mut ps: Vec<Placement> = Vec::new();
    let mut i: usize = 0;
    while i < placements.len()
        invariant
            0 <= i <= placements@.len(),
            ps@ == placements@.take(i as int),
        decreases placements@.len() - i,
    {
        ps.push(placements[i]);
        i = i + 1;
        assert(ps@ =~= placements@.take(i as int));
    }
    let unplaced = solution.unplaced_items();
    let mut us: Vec<ItemId> = Vec::new();
    let mut j: usize = 0;
    while j < unplaced.len()
        invariant
            0 <= j <= unplaced@.len(),
            us@ == unplaced@.take(j as int),
        decreases unplaced@.len() - j,
    {
        us.push(unplaced[j]);
        j = j + 1;
        assert(us@ =~= unplaced@.take(j as int));
    }
    assert(ps@ =~= placements@);
    assert(us@ =~= unplaced@);
    Solution::new(ps, us)
}

/// Repair the residual (unplaced) items of a valid incumbent: when there are
/// between one and `max_items` of them and the node budget is positive,
/// search their placements at exact face events with the incumbent's
/// placements frozen, visiting at most `max_nodes` nodes, and return the
/// best valid solution found. A leaf replaces the best only with a strictly
/// better objective, so the result is never worse than the incumbent.
pub fn repair_residual(
    instance: &PackingInstance,
    incumbent: &Solution,
    request: &SolveRequest,
    config: RepairConfig,
) -> (r: Result<Option<RepairOutcome>, SolverError>)
    ensures
        !solution_valid(*instance, incumbent@) ==> r is Err,
        solution_valid(*instance, incumbent@) && (incumbent@.1.len() == 0 || incumbent@.1.len() > config@.0
            || config@.1 == 0) ==> r matches Ok(None),
        r matches Ok(None) ==> solution_valid(*instance, incumbent@) && (incumbent@.1.len() == 0
            || incumbent@.1.len() > config@.0 || config@.1 == 0),
        r matches Ok(Some(outcome)) ==> {
            &&& solution_valid(*instance, incumbent@)
            &&& 0 < incumbent@.1.len() <= config@.0
            &&& config@.1 > 0
            &&& solution_valid(*instance, outcome.solution_spec()@)
            &&& objective_order(
                objective_of(summary_spec(*instance, outcome.solution_spec()@)),
                objective_of(summary_spec(*instance, incumbent@)),
            ) >= 0
            &&& outcome.explored_nodes_spec() <= config@.1
            &&& outcome.explored_candidates_spec() <= config@.1 * repair_cap(*instance)
            &&& !outcome.exhaustive_spec() ==> outcome.stopped_spec() || outcome.explored_nodes_spec() == config@.1
            &&& incumbent@.0.len() <= outcome.solution_spec()@.0.len()
            &&& outcome.solution_spec()@.0.take(incumbent@.0.len() as int) == incumbent@.0
            &&& forall|x: usize| #[trigger] outcome.solution_spec()@.1.contains(x) ==> incumbent@.1.contains(x)
        },
        solution_valid(*instance, incumbent@) ==> (r matches Err(e) ==> (e@ == "repair candidate metric overflowed"@
            && config@.1 * repair_cap(*instance) > u64::MAX) || ids_volume(instance.item_views(), incumbent@.1)
            > u128::MAX),
        solution_valid(*instance, incumbent@) && 0 < incumbent@.1.len() <= config@.0 && config@.1 > 0 && ids_volume(
            instance.item_views(),
            incumbent@.1,
        ) <= u128::MAX && config@.1 * repair_cap(*instance) <= u64::MAX ==> r matches Ok(Some(_)),
        r matches Ok(Some(outcome)) ==> exists|rv: Seq<usize>|
            #[trigger] repair_order(instance.item_views(), incumbent@.1, rv) && (!outcome.stopped_spec()
                ==> outcome.explored_nodes_spec() <= search_tree_size(*instance, rv, 0, incumbent@.0, Seq::empty()))
                && (!outcome.stopped_spec() && config@.1 > search_tree_size(
                *instance,
                rv,
                0,
                incumbent@.0,
                Seq::empty(),
            ) ==> outcome.exhaustive_spec()),
        r matches Ok(Some(outcome)) ==> (outcome.exhaustive_spec() ==> exists|rv: Seq<usize>|
            #[trigger] repair_order(instance.item_views(), incumbent@.1, rv) && forall|choices: Seq<int>|
                objective_order(
                    objective_of(summary_spec(*instance, outcome.solution_spec()@)),
                    objective_of(
                        summary_spec(*instance, #[trigger] search_leaf(*instance, rv, 0, incumbent@.0, Seq::empty(), choices)),
                    ),
                ) >= 0),
        config@.1 == 1 ==> (r matches Ok(Some(outcome)) ==> outcome.solution_spec()@ == incumbent@
            && !outcome.exhaustive_spec() && outcome.explored_nodes_spec() <= 1),
{
    proof {
        use_type_invariant(instance);
    }
    let incumbent_summary = match validate_solution(instance, incumbent) {
        Ok(summary) => summary,
        Err(_) => {
            return Err(SolverError::new("exact repair requires a valid incumbent"));
        },
    };
    let unplaced = incumbent.unplaced_items();
    if unplaced.len() == 0 || unplaced.len() > config.max_items || config.max_nodes == 0 {
        return Ok(None);
    }
    proof {
        assert forall|i: int| 0 <= i < unplaced@.len() implies (#[trigger] unplaced@[i])@ < instance.item_views().len() by {
            assert(incumbent@.1[i] == unplaced@[i]@);
            lemma_unplaced_in_range(*instance, incumbent@, i);
        }
    }
    let residual = sort_residual(instance, unplaced);
    let frozen = copy_solution(incumbent);
    let best_objective = ObjectiveValue::from_summary(&incumbent_summary);
    let ghost floor = best_objective@;
    let placements = frozen.placements();
    let mut ps: Vec<Placement> = Vec::new();
    let mut i: usize = 0;
    while i < placements.len()
        invariant
            0 <= i <= placements@.len(),
            ps@ == placements@.take(i as int),
        decreases placements@.len() - i,
    {
        ps.push(placements[i]);
        i = i + 1;
        assert(ps@ =~= placements@.take(i as int));
    }
    let ghost fz = incumbent@.0;
    let ghost rv = residual@.map_values(|i: ItemId| i@);
    proof {
        broadcast use vstd::seq_lib::group_to_multiset_ensures;

        assert(unplaced@.map_values(|i: ItemId| i@) == incumbent@.1);
        lemma_positions_multiset(residual@, unplaced@);
        assert(rv.to_multiset() == incumbent@.1.to_multiset());
        lemma_ids_volume_perm(instance.item_views(), rv, incumbent@.1);
        assert(placement_views(ps@) =~= fz);
        assert(fz.take(fz.len() as int) =~= fz);
        assert(fz.skip(fz.len() as int) =~= Seq::<PlacementView>::empty());
        assert(rv.take(0) =~= Seq::<usize>::empty());
        vstd::seq_lib::lemma_multiset_commutative(fz.map_values(|p: PlacementView| p.1), rv);
        vstd::seq_lib::lemma_multiset_commutative(fz.map_values(|p: PlacementView| p.1), incumbent@.1);
        assert(item_occurrences(incumbent@) == fz.map_values(|p: PlacementView| p.1) + incumbent@.1);
        assert forall|x: usize| #[trigger] incumbent@.1.contains(x) implies rv.contains(x) by {
            assert(incumbent@.1.to_multiset().count(x) > 0);
            assert(rv.to_multiset().count(x) > 0);
        }
        assert(ids_volume(instance.item_views(), Seq::<usize>::empty()) == 0);
        lemma_ids_items_volume(instance.item_views(), incumbent@.1);
        assert(rv.to_multiset().len() == incumbent@.1.to_multiset().len());
    }
    let mut search = Search {
        config,
        residual,
        placements: ps,
        unplaced: Vec::new(),
        best_solution: frozen,
        best_objective,
        best_added_volume: 0,
        best_added_count: 0,
        explored_nodes: 0,
        explored_candidates: 0,
        exhaustive: true,
        stop: None,
    };
    proof {
        lemma_objective_order(floor, floor, floor);
    }
    proof {
        let empty_un = search.unplaced@.map_values(|i: ItemId| i@);
        assert(empty_un =~= Seq::<usize>::empty());
        assert(placement_views(search.placements@).skip(fz.len() as int).map_values(|p: PlacementView| p.1)
            + empty_un =~= Seq::<usize>::empty());
        assert(path_ok(search, *instance, fz, 0));
        assert(ids_of(search.residual@) == rv);
        assert(search.best_tracks(*instance));
        assert(best_ok(search, fz));
        assert(residual@.to_multiset().len() == residual@.len());
        assert(unplaced@.to_multiset().len() == unplaced@.len());
        assert(search.residual@.len() > 0);
    }
    let ghost before_visit = search;
    match search.visit(instance, request, 0, 0, 0, Ghost(floor), Ghost(fz)) {
        Ok(()) => {},
        Err(e) => {
            return Err(e);
        },
    }
    proof {
        let cap = repair_cap(*instance);
        lemma_event_cap_monotone(*instance, 0, instance.item_views().len());
        let nodes = search.explored_nodes as int;
        let limit = config@.1 as int;
        assert(nodes * cap <= limit * cap) by (nonlinear_arith)
            requires
                nodes <= limit,
                cap >= 0,
        ;
        assert(repair_order(instance.item_views(), incumbent@.1, rv)) by {
            assert forall|i: int, j: int| 0 <= i < j < rv.len() implies residual_order(
                instance.item_views(),
                rv[i] as int,
                rv[j] as int,
            ) <= 0 by {
                assert(rv[i] == residual@[i]@ && rv[j] == residual@[j]@);
            }
        }
        assert(ids_of(before_visit.residual@) == rv);
        assert(ids_of(before_visit.unplaced@) =~= Seq::<usize>::empty());
        assert(placement_views(before_visit.placements@) == incumbent@.0);
        if config.max_nodes == 1 {
            assert(search.best_solution == before_visit.best_solution);
            assert(search.best_solution@ == incumbent@);
        }
        assert forall|x: usize| #[trigger] search.best_solution@.1.contains(x) implies incumbent@.1.contains(x) by {
            assert(rv.contains(x));
            assert(rv.to_multiset().count(x) > 0);
            assert(incumbent@.1.to_multiset().count(x) > 0);
        }
    }
    Ok(
        Some(
            RepairOutcome {
                solution: search.best_solution,
                explored_nodes: search.explored_nodes,
                explored_candidates: search.explored_candidates,
                exhaustive: search.exhaustive,
                stop: search.stop,
            },
        ),
    )
}

} // verus!
