//! Resolution of a saved compatibility output to stable input identities.
//!
//! Display names are resolved back to the stable IDs of a validated input
//! instance; coordinates and dimensions arrive already converted to exact
//! geometry (or with the reason their conversion failed). Whether placements
//! are in bounds, non-overlapping or valid rotations is left to the
//! independent solution validator.
use vstd::prelude::*;

use crate::geometry::{
    is_permutation, Aabb, Coordinate, CoordinateConversionError, Dimensions, Length, LengthConversionError,
    Point, Sides,
};
use crate::order::str_equal;
use crate::solution::{Placement, PlacementView, Solution};
use crate::validate::{
    record_sides, records_wf, all_positions, item_occurrences, lemma_all_positions_count, ContainerId, DimensionInput, ItemId,
    PackingInstance, RecordInput, RecordView,
};

verus! {

/// One saved coordinate as read: the bit pattern of the number that was
/// given and the outcome of converting it to exact geometry.
#[derive(Clone, Copy, Debug)]
pub struct CoordinateInput {
    pub value_bits: u64,
    pub converted: Result<Coordinate, CoordinateConversionError>,
}

/// One saved placement as read.
#[derive(Clone, Debug)]
pub struct SavedPlacementInput {
    pub name: String,
    pub x: CoordinateInput,
    pub y: CoordinateInput,
    pub z: CoordinateInput,
    pub w: DimensionInput,
    pub l: DimensionInput,
    pub h: DimensionInput,
}

/// One saved container and its placements as read.
#[derive(Clone, Debug)]
pub struct SavedContainerInput {
    pub name: String,
    pub width: DimensionInput,
    pub length: DimensionInput,
    pub height: DimensionInput,
    pub placed_items: Vec<SavedPlacementInput>,
}

/// A saved compatibility output as read.
#[derive(Clone, Debug)]
pub struct SavedOutputInput {
    pub containers: Vec<SavedContainerInput>,
    pub unplaced_items: Vec<RecordInput>,
}

/// Where in the saved output a value was found.
#[derive(Clone, Copy, Debug, Eq, PartialEq, Structural)]
pub enum SavedLocation {
    Container(usize),
    PlacedItem(usize, usize),
    UnplacedItem(usize),
}

/// Which number of a saved record.
#[derive(Clone, Copy, Debug, Eq, PartialEq, Structural)]
pub enum SavedField {
    Width,
    Length,
    Height,
    W,
    L,
    H,
    X,
    Y,
    Z,
}

impl SavedField {
    /// The field's name in the compatibility document.
    pub fn field_name(self) -> (r: &'static str)
        ensures
            r@ == saved_field_name(self),
    {
        match self {
            SavedField::Width => "width",
            SavedField::Length => "length",
            SavedField::Height => "height",
            SavedField::W => "w",
            SavedField::L => "l",
            SavedField::H => "h",
            SavedField::X => "x",
            SavedField::Y => "y",
            SavedField::Z => "z",
        }
    }
}

/// Field names as the document spells them.
pub open spec fn saved_field_name(field: SavedField) -> Seq<char> {
    match field {
        SavedField::Width => "width"@,
        SavedField::Length => "length"@,
        SavedField::Height => "height"@,
        SavedField::W => "w"@,
        SavedField::L => "l"@,
        SavedField::H => "h"@,
        SavedField::X => "x"@,
        SavedField::Y => "y"@,
        SavedField::Z => "z"@,
    }
}

/// Failure to resolve or exactly convert a saved compatibility output.
#[derive(Clone, Debug, Eq, PartialEq)]
pub enum SavedSolutionAdapterError {
    InvalidDimension {
        location: SavedLocation,
        field: SavedField,
        value_bits: u64,
        reason: LengthConversionError,
    },
    InvalidCoordinate {
        location: SavedLocation,
        field: SavedField,
        value_bits: u64,
        reason: CoordinateConversionError,
    },
    UnknownContainer { index: usize, name: String },
    UnknownPlacedItem { container_index: usize, item_index: usize, name: String },
    UnknownUnplacedItem { index: usize, name: String },
    MissingItems(Vec<ItemId>),
}

/// One saved placement converted to stable identity and exact geometry.
#[derive(Clone, Copy, Debug, Eq, PartialEq, Structural)]
pub struct SavedPlacement {
    item_id: ItemId,
    bounds: Aabb,
}

/// Item index and box of a saved placement.
pub type SavedPlacementView = (usize, ((u64, u64, u64), Sides));

impl View for SavedPlacement {
    type V = SavedPlacementView;

    closed spec fn view(&self) -> SavedPlacementView {
        (self.item_id@, self.bounds@)
    }
}

impl SavedPlacement {
    pub fn item_id(self) -> (r: ItemId)
        ensures
            r@ == self@.0,
    {
        self.item_id
    }

    pub fn bounds(self) -> (r: Aabb)
        ensures
            r@ == self@.1,
    {
        self.bounds
    }
}

/// Placements associated with one stable input container.
#[derive(Clone, Debug, Eq, PartialEq)]
pub struct SavedContainer {
    container_id: ContainerId,
    placed_items: Vec<SavedPlacement>,
}

/// Container index and placements of a saved container.
pub type SavedContainerView = (usize, Seq<SavedPlacementView>);

impl View for SavedContainer {
    type V = SavedContainerView;

    closed spec fn view(&self) -> SavedContainerView {
        (self.container_id@, self.placed_items@.map_values(|p: SavedPlacement| p@))
    }
}

impl SavedContainer {
    pub fn container_id(&self) -> (r: ContainerId)
        ensures
            r@ == self@.0,
    {
        self.container_id
    }

    pub fn placed_items(&self) -> (r: &[SavedPlacement])
        ensures
            r@.map_values(|p: SavedPlacement| p@) == self@.1,
    {
        self.placed_items.as_slice()
    }
}

/// A saved compatibility output resolved to stable input identities.
#[derive(Clone, Debug, Eq, PartialEq)]
pub struct SavedSolution {
    containers: Vec<SavedContainer>,
    unplaced_items: Vec<ItemId>,
}

impl View for SavedSolution {
    type V = (Seq<SavedContainerView>, Seq<usize>);

    closed spec fn view(&self) -> (Seq<SavedContainerView>, Seq<usize>) {
        (self.containers@.map_values(|c: SavedContainer| c@), self.unplaced_items@.map_values(|i: ItemId| i@))
    }
}

/// The placements of saved containers, container by container, each with
/// its container's index.
pub open spec fn flatten_saved(containers: Seq<SavedContainerView>) -> Seq<PlacementView>
    decreases containers.len(),
{
    if containers.len() == 0 {
        Seq::empty()
    } else {
        let last = containers.last();
        flatten_saved(containers.drop_last()) + last.1.map_values(
            |p: SavedPlacementView| (last.0, p.0, p.1),
        )
    }
}

/// Items named by a saved solution: placed ones container by container,
/// then unplaced ones.
pub open spec fn saved_item_ids(sol: (Seq<SavedContainerView>, Seq<usize>)) -> Seq<usize> {
    flatten_saved(sol.0).map_values(|p: PlacementView| p.1) + sol.1
}

impl SavedSolution {
    pub fn containers(&self) -> (r: &[SavedContainer])
        ensures
            r@.map_values(|c: SavedContainer| c@) == self@.0,
    {
        self.containers.as_slice()
    }

    pub fn unplaced_items(&self) -> (r: &[ItemId])
        ensures
            r@.map_values(|i: ItemId| i@) == self@.1,
    {
        self.unplaced_items.as_slice()
    }

    /// Copy the adapted output into the backend-neutral solution model:
    /// placements container by container, then the unplaced items.
    pub fn to_solution(&self) -> (r: Solution)
        ensures
            r@ == (flatten_saved(self@.0), self@.1),
            item_occurrences(r@) == saved_item_ids(self@),
    {
        let ghost cs = self@.0;
        let mut placements: Vec<Placement> = Vec::new();
        let mut k: usize = 0;
        while k < self.containers.len()
            invariant
                0 <= k <= self.containers@.len(),
                cs == self@.0,
                placements@.map_values(|p: Placement| p@) == flatten_saved(cs.take(k as int)),
            decreases self.containers@.len() - k,
        {
            let container = &self.containers[k];
            let ghost before = placements@.map_values(|p: Placement| p@);
            let ghost cv = container@;
            assert(cs[k as int] == cv);
            let mut t: usize = 0;
            while t < container.placed_items.len()
                invariant
                    0 <= t <= container.placed_items@.len(),
                    cv == container@,
                    placements@.map_values(|p: Placement| p@) == before + cv.1.take(t as int).map_values(
                        |p: SavedPlacementView| (cv.0, p.0, p.1),
                    ),
                decreases container.placed_items@.len() - t,
            {
                let saved = container.placed_items[t];
                let ghost old_placements = placements@;
                let placement = Placement::new(container.container_id, saved.item_id, saved.bounds);
                placements.push(placement);
                proof {
                    let f = |p: SavedPlacementView| (cv.0, p.0, p.1);
                    assert(cv.1[t as int] == saved@);
                    assert(placement@ == f(saved@));
                    assert(cv.1.take(t + 1) =~= cv.1.take(t as int).push(saved@));
                    assert(cv.1.take(t + 1).map_values(f) =~= cv.1.take(t as int).map_values(f).push(f(saved@)));
                    assert(placements@ =~= old_placements.push(placement));
                    assert(placements@.map_values(|p: Placement| p@) =~= old_placements.map_values(|p: Placement| p@).push(
                        placement@,
                    ));
                    assert(placements@.map_values(|p: Placement| p@) =~= before + cv.1.take(t + 1).map_values(f));
                }
                t = t + 1;
            }
            assert(cv.1.take(cv.1.len() as int) =~= cv.1);
            assert(cs.take(k + 1).drop_last() =~= cs.take(k as int));
            k = k + 1;
        }
        assert(cs.take(cs.len() as int) =~= cs);
        let mut unplaced: Vec<ItemId> = Vec::new();
    let ghost mut unplaced_views: Seq<usize> = Seq::empty();
        let mut i: usize = 0;
        while i < self.unplaced_items.len()
            invariant
                0 <= i <= self.unplaced_items@.len(),
                unplaced@ == self.unplaced_items@.take(i as int),
            decreases self.unplaced_items@.len() - i,
        {
            unplaced.push(self.unplaced_items[i]);
            i = i + 1;
            assert(unplaced@ =~= self.unplaced_items@.take(i as int));
        }
        assert(unplaced@ =~= self.unplaced_items@);
        let r = Solution::new(placements, unplaced);
        assert(item_occurrences(r@) =~= saved_item_ids(self@));
        r
    }
}

/// Record `p` is still available and carries `name`.
pub open spec fn named_available(records: Seq<RecordView>, available: Seq<bool>, name: Seq<char>, p: int) -> bool {
    &&& 0 <= p < records.len()
    &&& p < available.len()
    &&& available[p]
    &&& records[p].1 == name
}

/// A record's dimensions agree with saved ones: equal, or, where the saved
/// box may be rotated, the same sides in another order.
pub open spec fn dims_agree(record: Sides, dims: Sides, rotated: bool) -> bool {
    if rotated {
        is_permutation(record, dims)
    } else {
        record == dims
    }
}

/// Record `p` is available, named `name`, and its dimensions agree.
pub open spec fn fully_matches(
    records: Seq<RecordView>,
    available: Seq<bool>,
    name: Seq<char>,
    dims: Sides,
    rotated: bool,
    p: int,
) -> bool {
    named_available(records, available, name, p) && dims_agree(records[p].2, dims, rotated)
}

/// The resolution of a saved name: the first available record with that
/// name and agreeing dimensions, else the first available record with that
/// name, else none.
pub open spec fn resolves_to(
    records: Seq<RecordView>,
    available: Seq<bool>,
    name: Seq<char>,
    dims: Sides,
    rotated: bool,
    r: Option<usize>,
) -> bool {
    match r {
        Some(p) => {
            &&& named_available(records, available, name, p as int)
            &&& forall|q: int| 0 <= q < p ==> !fully_matches(records, available, name, dims, rotated, q)
            &&& (fully_matches(records, available, name, dims, rotated, p as int) || (forall|q: int|
                !fully_matches(records, available, name, dims, rotated, q) && (0 <= q < p ==> !named_available(
                    records,
                    available,
                    name,
                    q,
                ))))
        },
        None => forall|q: int| !named_available(records, available, name, q),
    }
}

/// How many of the first `k` records are available and named `name`.
pub open spec fn count_available(records: Seq<RecordView>, available: Seq<bool>, name: Seq<char>, k: int) -> nat
    decreases k,
{
    if k <= 0 {
        0
    } else {
        count_available(records, available, name, k - 1) + if available[k - 1] && records[k - 1].1 == name {
            1nat
        } else {
            0nat
        }
    }
}

/// How many of `names` are `name`.
pub open spec fn count_name(names: Seq<Seq<char>>, name: Seq<char>) -> nat
    decreases names.len(),
{
    if names.len() == 0 {
        0
    } else {
        count_name(names.drop_last(), name) + if names.last() == name {
            1nat
        } else {
            0nat
        }
    }
}

/// How many records are named `name`.
pub open spec fn count_named(records: Seq<RecordView>, name: Seq<char>) -> nat {
    count_name(records.map_values(|r: RecordView| r.1), name)
}

/// Some available record is named `name` exactly when the count of them is positive.
proof fn lemma_count_available_positive(records: Seq<RecordView>, available: Seq<bool>, name: Seq<char>, k: int)
    requires
        0 <= k <= records.len(),
        available.len() == records.len(),
    ensures
        count_available(records, available, name, k) > 0 <==> exists|q: int|
            0 <= q < k && #[trigger] named_available(records, available, name, q),
    decreases k,
{
    if k > 0 {
        lemma_count_available_positive(records, available, name, k - 1);
        if count_available(records, available, name, k - 1) > 0 {
            let q = choose|q: int| 0 <= q < k - 1 && #[trigger] named_available(records, available, name, q);
            assert(named_available(records, available, name, q));
        }
        if available[k - 1] && records[k - 1].1 == name {
            assert(named_available(records, available, name, k - 1));
        }
        if exists|q: int| 0 <= q < k && #[trigger] named_available(records, available, name, q) {
            let q = choose|q: int| 0 <= q < k && #[trigger] named_available(records, available, name, q);
            if q < k - 1 {
                assert(count_available(records, available, name, k - 1) > 0);
            }
        }
    }
}

/// Taking record `p` lowers the count of its name by one and leaves the others.
proof fn lemma_count_available_take(
    records: Seq<RecordView>,
    available: Seq<bool>,
    name: Seq<char>,
    p: int,
    k: int,
)
    requires
        0 <= p < records.len(),
        available.len() == records.len(),
        available[p],
        0 <= k <= records.len(),
    ensures
        count_available(records, available.update(p, false), name, k) + if p < k && records[p].1 == name {
            1nat
        } else {
            0nat
        } == count_available(records, available, name, k),
    decreases k,
{
    if k > 0 {
        lemma_count_available_take(records, available, name, p, k - 1);
    }
}

/// With every record available, the count is the number of records so named.
proof fn lemma_count_all_available(records: Seq<RecordView>, available: Seq<bool>, name: Seq<char>, k: int)
    requires
        0 <= k <= records.len(),
        available.len() == records.len(),
        forall|q: int| 0 <= q < available.len() ==> #[trigger] available[q],
    ensures
        count_available(records, available, name, k) == count_name(
            records.map_values(|r: RecordView| r.1).take(k),
            name,
        ),
    decreases k,
{
    if k > 0 {
        lemma_count_all_available(records, available, name, k - 1);
        let names = records.map_values(|r: RecordView| r.1);
        assert(names.take(k).drop_last() =~= names.take(k - 1));
    }
}

/// Counting a name over a longer list.
proof fn lemma_count_name_push(names: Seq<Seq<char>>, x: Seq<char>, name: Seq<char>)
    ensures
        count_name(names.push(x), name) == count_name(names, name) + if x == name {
            1nat
        } else {
            0nat
        },
{
    assert(names.push(x).drop_last() =~= names);
}

fn find_container(instance: &PackingInstance, available: &Vec<bool>, name: &str, dimensions: Dimensions) -> (r:
    Option<ContainerId>)
    requires
        available@.len() == instance.container_views().len(),
    ensures
        resolves_to(
            instance.container_views(),
            available@,
            name@,
            dimensions@,
            false,
            match r {
                Some(id) => Some(id@),
                None => None,
            },
        ),
        r matches Some(id) ==> id@ < instance.container_views().len(),
{
    proof {
        use_type_invariant(instance);
    }
    let ghost records = instance.container_views();
    let containers = instance.containers();
    let mut p: usize = 0;
    while p < containers.len()
        invariant
            0 <= p <= containers@.len(),
            containers@.len() == records.len(),
            available@.len() == records.len(),
            records == instance.container_views(),
            forall|i: int| 0 <= i < containers@.len() ==> #[trigger] containers@[i]@ == records[i],
            crate::validate::records_wf(records),
            forall|q: int| 0 <= q < p ==> !fully_matches(records, available@, name@, dimensions@, false, q),
        decreases containers@.len() - p,
    {
        let c = &containers[p];
        if available[p] && str_equal(c.name(), name) && c.dimensions().same_as(dimensions) {
            assert(fully_matches(records, available@, name@, dimensions@, false, p as int));
            assert(records[p as int].0 == p);
            return Some(c.id());
        }
        p = p + 1;
    }
    let mut p: usize = 0;
    while p < containers.len()
        invariant
            0 <= p <= containers@.len(),
            containers@.len() == records.len(),
            available@.len() == records.len(),
            records == instance.container_views(),
            forall|i: int| 0 <= i < containers@.len() ==> #[trigger] containers@[i]@ == records[i],
            crate::validate::records_wf(records),
            forall|q: int| 0 <= q < records.len() ==> !fully_matches(records, available@, name@, dimensions@, false, q),
            forall|q: int| 0 <= q < p ==> !named_available(records, available@, name@, q),
        decreases containers@.len() - p,
    {
        let c = &containers[p];
        if available[p] && str_equal(c.name(), name) {
            assert(records[p as int].0 == p);
            return Some(c.id());
        }
        p = p + 1;
    }
    None
}

fn find_item(
    instance: &PackingInstance,
    available: &Vec<bool>,
    name: &str,
    dimensions: Dimensions,
    dimensions_may_be_rotated: bool,
) -> (r: Option<ItemId>)
    requires
        available@.len() == instance.item_views().len(),
    ensures
        resolves_to(
            instance.item_views(),
            available@,
            name@,
            dimensions@,
            dimensions_may_be_rotated,
            match r {
                Some(id) => Some(id@),
                None => None,
            },
        ),
        r matches Some(id) ==> id@ < instance.item_views().len(),
{
    proof {
        use_type_invariant(instance);
    }
    let ghost records = instance.item_views();
    let items = instance.items();
    let mut p: usize = 0;
    while p < items.len()
        invariant
            0 <= p <= items@.len(),
            items@.len() == records.len(),
            available@.len() == records.len(),
            records == instance.item_views(),
            forall|i: int| 0 <= i < items@.len() ==> #[trigger] items@[i]@ == records[i],
            crate::validate::records_wf(records),
            forall|q: int|
                0 <= q < p ==> !fully_matches(records, available@, name@, dimensions@, dimensions_may_be_rotated, q),
        decreases items@.len() - p,
    {
        let item = &items[p];
        if available[p] && str_equal(item.name(), name) {
            let agrees = if dimensions_may_be_rotated {
                item.dimensions().is_permutation_of(dimensions)
            } else {
                item.dimensions().same_as(dimensions)
            };
            if agrees {
                assert(fully_matches(records, available@, name@, dimensions@, dimensions_may_be_rotated, p as int));
                assert(records[p as int].0 == p);
                return Some(item.id());
            }
        }
        p = p + 1;
    }
    let mut p: usize = 0;
    while p < items.len()
        invariant
            0 <= p <= items@.len(),
            items@.len() == records.len(),
            available@.len() == records.len(),
            records == instance.item_views(),
            forall|i: int| 0 <= i < items@.len() ==> #[trigger] items@[i]@ == records[i],
            crate::validate::records_wf(records),
            forall|q: int|
                0 <= q < records.len() ==> !fully_matches(
                    records,
                    available@,
                    name@,
                    dimensions@,
                    dimensions_may_be_rotated,
                    q,
                ),
            forall|q: int| 0 <= q < p ==> !named_available(records, available@, name@, q),
        decreases items@.len() - p,
    {
        let item = &items[p];
        if available[p] && str_equal(item.name(), name) {
            assert(records[p as int].0 == p);
            return Some(item.id());
        }
        p = p + 1;
    }
    None
}

/// The three converted sides, when all three converted.
pub open spec fn converted_sides(a: DimensionInput, b: DimensionInput, c: DimensionInput) -> Option<Sides> {
    match (a.converted, b.converted, c.converted) {
        (Ok(w), Ok(l), Ok(h)) => Some((w@, l@, h@)),
        _ => None,
    }
}

/// The diagnostic for the first of three dimensions that failed to convert.
pub open spec fn first_dimension_failure(
    location: SavedLocation,
    fields: (SavedField, SavedField, SavedField),
    a: DimensionInput,
    b: DimensionInput,
    c: DimensionInput,
) -> Option<SavedSolutionAdapterError> {
    match (a.converted, b.converted, c.converted) {
        (Err(reason), _, _) => Some(
            SavedSolutionAdapterError::InvalidDimension { location, field: fields.0, value_bits: a.value_bits, reason },
        ),
        (_, Err(reason), _) => Some(
            SavedSolutionAdapterError::InvalidDimension { location, field: fields.1, value_bits: b.value_bits, reason },
        ),
        (_, _, Err(reason)) => Some(
            SavedSolutionAdapterError::InvalidDimension { location, field: fields.2, value_bits: c.value_bits, reason },
        ),
        _ => None,
    }
}

fn convert_dimensions(
    location: SavedLocation,
    fields: (SavedField, SavedField, SavedField),
    a: DimensionInput,
    b: DimensionInput,
    c: DimensionInput,
) -> (r: Result<Dimensions, SavedSolutionAdapterError>)
    ensures
        r matches Ok(d) ==> converted_sides(a, b, c) == Some(d@),
        r matches Err(e) ==> converted_sides(a, b, c) is None && first_dimension_failure(location, fields, a, b, c) == Some(e),
{
    let w = match a.converted {
        Ok(v) => v,
        Err(reason) => {
            return Err(
                SavedSolutionAdapterError::InvalidDimension {
                    location,
                    field: fields.0,
                    value_bits: a.value_bits,
                    reason,
                },
            );
        },
    };
    let l = match b.converted {
        Ok(v) => v,
        Err(reason) => {
            return Err(
                SavedSolutionAdapterError::InvalidDimension {
                    location,
                    field: fields.1,
                    value_bits: b.value_bits,
                    reason,
                },
            );
        },
    };
    let h = match c.converted {
        Ok(v) => v,
        Err(reason) => {
            return Err(
                SavedSolutionAdapterError::InvalidDimension {
                    location,
                    field: fields.2,
                    value_bits: c.value_bits,
                    reason,
                },
            );
        },
    };
    Ok(Dimensions::new(w, l, h))
}

fn convert_coordinate(location: SavedLocation, field: SavedField, input: CoordinateInput) -> (r: Result<
    Coordinate,
    SavedSolutionAdapterError,
>)
    ensures
        r matches Ok(c) ==> input.converted == Ok::<Coordinate, CoordinateConversionError>(c),
        r matches Err(e) ==> input.converted matches Err(reason) && e
            == (SavedSolutionAdapterError::InvalidCoordinate { location, field, value_bits: input.value_bits, reason }),
{
    match input.converted {
        Ok(c) => Ok(c),
        Err(reason) => Err(
            SavedSolutionAdapterError::InvalidCoordinate { location, field, value_bits: input.value_bits, reason },
        ),
    }
}

/// A saved placement was resolved to item `p.0` of the same name, with its
/// converted origin and dimensions.
pub open spec fn placement_adapted(items: Seq<RecordView>, input: SavedPlacementInput, p: SavedPlacementView) -> bool {
    &&& p.0 < items.len()
    &&& items[p.0 as int].1 == input.name@
    &&& converted_sides(input.w, input.l, input.h) == Some(p.1.1)
    &&& input.x.converted matches Ok(x) && x@ == p.1.0.0
    &&& input.y.converted matches Ok(y) && y@ == p.1.0.1
    &&& input.z.converted matches Ok(z) && z@ == p.1.0.2
}

/// A saved container was resolved to container `c.0` of the same name, its
/// dimensions converted, and each of its placements resolved in order.
pub open spec fn container_adapted(
    containers: Seq<RecordView>,
    items: Seq<RecordView>,
    input: SavedContainerInput,
    c: SavedContainerView,
) -> bool {
    &&& c.0 < containers.len()
    &&& containers[c.0 as int].1 == input.name@
    &&& converted_sides(input.width, input.length, input.height) is Some
    &&& c.1.len() == input.placed_items@.len()
    &&& forall|t: int| 0 <= t < c.1.len() ==> placement_adapted(items, input.placed_items@[t], #[trigger] c.1[t])
}

/// A saved output was resolved: each container and placement in order to a
/// distinct input container and an input item of the same name, each
/// unplaced record to an input item of the same name, and every input item
/// named exactly once.
pub open spec fn adapted_soundly(
    instance: PackingInstance,
    output: SavedOutputInput,
    sol: (Seq<SavedContainerView>, Seq<usize>),
) -> bool {
    let cs = instance.container_views();
    let is = instance.item_views();
    &&& sol.0.len() == output.containers@.len()
    &&& forall|k: int| 0 <= k < sol.0.len() ==> container_adapted(cs, is, output.containers@[k], #[trigger] sol.0[k])
    &&& forall|k1: int, k2: int| 0 <= k1 < k2 < sol.0.len() ==> (#[trigger] sol.0[k1]).0 != (#[trigger] sol.0[k2]).0
    &&& sol.1.len() == output.unplaced_items@.len()
    &&& forall|i: int|
        0 <= i < sol.1.len() ==> {
            &&& (#[trigger] sol.1[i]) < is.len()
            &&& is[sol.1[i] as int].1 == output.unplaced_items@[i].name@
            &&& record_sides(output.unplaced_items@[i]) is Some
        }
    &&& saved_item_ids(sol).to_multiset() == all_positions(is.len()).to_multiset()
}

/// A sequence of distinct positions below `n` naming every one of them is
/// the positions below `n` in some order.
proof fn lemma_exact_cover(used: Seq<usize>, n: nat)
    requires
        n <= usize::MAX + 1,
        used.no_duplicates(),
        forall|i: int| 0 <= i < used.len() ==> (#[trigger] used[i]) < n,
        forall|p: usize| p < n ==> used.contains(p),
    ensures
        used.to_multiset() == all_positions(n).to_multiset(),
{
    broadcast use vstd::seq_lib::group_to_multiset_ensures;

    used.lemma_multiset_has_no_duplicates();
    assert forall|x: usize| used.to_multiset().count(x) == all_positions(n).to_multiset().count(x) by {
        lemma_all_positions_count(n, x);
        if x < n {
            assert(used.contains(x));
            assert(used.to_multiset().contains(x));
        } else {
            if used.to_multiset().count(x) > 0 {
                assert(used.contains(x));
                let i = choose|i: int| 0 <= i < used.len() && used[i] == x;
                assert(used[i] < n);
            }
        }
    }
    assert(used.to_multiset() =~= all_positions(n).to_multiset());
}

proof fn lemma_flatten_push(cs: Seq<SavedContainerView>, c: SavedContainerView)
    ensures
        flatten_saved(cs.push(c)).map_values(|p: PlacementView| p.1) == flatten_saved(cs).map_values(
            |p: PlacementView| p.1,
        ) + c.1.map_values(|p: SavedPlacementView| p.0),
{
    assert(cs.push(c).drop_last() =~= cs);
    let tail = c.1.map_values(|p: SavedPlacementView| (c.0, p.0, p.1));
    assert((flatten_saved(cs) + tail).map_values(|p: PlacementView| p.1) =~= flatten_saved(cs).map_values(
        |p: PlacementView| p.1,
    ) + c.1.map_values(|p: SavedPlacementView| p.0));
}

/// `available` marks exactly the positions below `n` that `used` does not
/// name; `used` names distinct positions below `n`.
pub open spec fn availability(available: Seq<bool>, used: Seq<usize>, n: nat) -> bool {
    &&& available.len() == n
    &&& used.no_duplicates()
    &&& forall|i: int| 0 <= i < used.len() ==> (#[trigger] used[i]) < n
    &&& forall|p: int| 0 <= p < n ==> (#[trigger] available[p] <==> !used.contains(p as usize))
}

/// Take position `p` out of the available ones.
proof fn lemma_take_available(available: Seq<bool>, used: Seq<usize>, n: nat, p: usize)
    requires
        availability(available, used, n),
        n <= usize::MAX,
        p < n,
        available[p as int],
    ensures
        availability(available.update(p as int, false), used.push(p), n),
{
    let a2 = available.update(p as int, false);
    let u2 = used.push(p);
    assert forall|q: int| 0 <= q < n implies (#[trigger] a2[q] <==> !u2.contains(q as usize)) by {
        if q == p {
            assert(u2[used.len() as int] == p);
        } else {
            if u2.contains(q as usize) {
                let i = choose|i: int| 0 <= i < u2.len() && u2[i] == q as usize;
                assert(i < used.len());
                assert(used[i] == q as usize);
            }
            if used.contains(q as usize) {
                let i = choose|i: int| 0 <= i < used.len() && used[i] == q as usize;
                assert(u2[i] == q as usize);
            }
        }
    }
    assert forall|i: int, j: int| 0 <= i < u2.len() && 0 <= j < u2.len() && i != j implies u2[i] != u2[j] by {
        if i == used.len() as int {
            assert(!used.contains(p));
            assert(u2[j] == used[j]);
        } else if j == used.len() as int {
            assert(!used.contains(p));
            assert(u2[i] == used[i]);
        }
    }
}

/// For every name, the records of that name still available and the uses
/// of it in `before` add up to the records of that name.
spec fn counts_balance(records: Seq<RecordView>, available: Seq<bool>, before: Seq<Seq<char>>) -> bool {
    forall|x: Seq<char>|
        #![trigger count_available(records, available, x, records.len() as int)]
        count_available(records, available, x, records.len() as int) + count_name(before, x) == count_named(records, x)
}

/// Taking available record `p` of `name` after the names `before`: a record
/// of `name` was left, and the counts balance with `name` added.
proof fn lemma_take_named(records: Seq<RecordView>, available: Seq<bool>, before: Seq<Seq<char>>, name: Seq<char>, p: int)
    requires
        available.len() == records.len(),
        named_available(records, available, name, p),
        counts_balance(records, available, before),
    ensures
        name_remains(records, before, name),
        counts_balance(records, available.update(p, false), before.push(name)),
{
    let n = records.len() as int;
    lemma_count_available_positive(records, available, name, n);
    assert(named_available(records, available, name, p));
    assert(count_available(records, available, name, n) + count_name(before, name) == count_named(records, name));
    assert forall|x: Seq<char>| #![trigger count_available(records, available.update(p, false), x, n)]
        count_available(records, available.update(p, false), x, n) + count_name(before.push(name), x)
            == count_named(records, x) by {
        lemma_count_available_take(records, available, x, p, n);
        lemma_count_name_push(before, name, x);
        assert(count_available(records, available, x, n) + count_name(before, x) == count_named(records, x));
    }
}

/// No available record carries `name` after the names `before`: none of
/// that name is left.
proof fn lemma_none_named(records: Seq<RecordView>, available: Seq<bool>, before: Seq<Seq<char>>, name: Seq<char>)
    requires
        available.len() == records.len(),
        forall|q: int| !named_available(records, available, name, q),
        counts_balance(records, available, before),
    ensures
        !name_remains(records, before, name),
{
    let n = records.len() as int;
    lemma_count_available_positive(records, available, name, n);
    assert(count_available(records, available, name, n) + count_name(before, name) == count_named(records, name));
}

/// The records below `n` that `used` does not name, as availability flags.
pub open spec fn avail_except(n: nat, used: Seq<usize>) -> Seq<bool> {
    Seq::new(n, |p: int| !used.contains(p as usize))
}

proof fn lemma_avail_except(available: Seq<bool>, used: Seq<usize>, n: nat)
    requires
        availability(available, used, n),
    ensures
        available == avail_except(n, used),
{
    assert(available =~= avail_except(n, used));
}

/// The identities of the placements of the saved containers, in order.
pub open spec fn placed_ids(cs: Seq<SavedContainerView>) -> Seq<usize> {
    flatten_saved(cs).map_values(|p: PlacementView| p.1)
}

/// Saved container `k` resolved, given the containers before it, to the
/// container `resolves_to` picks among those still available.
pub open spec fn container_resolved(
    instance: PackingInstance,
    output: SavedOutputInput,
    cs: Seq<SavedContainerView>,
    k: int,
) -> bool {
    let c = output.containers@[k];
    resolves_to(
        instance.container_views(),
        avail_except(instance.container_views().len(), cs.take(k).map_values(|x: SavedContainerView| x.0)),
        c.name@,
        converted_sides(c.width, c.length, c.height).unwrap(),
        false,
        Some(cs[k].0),
    )
}

/// Placement `t` of saved container `k` resolved, given every placement
/// before it, to the item `resolves_to` picks (dimensions may be rotated)
/// among those still available.
pub open spec fn placement_resolved(
    instance: PackingInstance,
    output: SavedOutputInput,
    cs: Seq<SavedContainerView>,
    k: int,
    t: int,
) -> bool {
    let p = output.containers@[k].placed_items@[t];
    resolves_to(
        instance.item_views(),
        avail_except(
            instance.item_views().len(),
            placed_ids(cs.take(k)) + cs[k].1.take(t).map_values(|x: SavedPlacementView| x.0),
        ),
        p.name@,
        converted_sides(p.w, p.l, p.h).unwrap(),
        true,
        Some(cs[k].1[t].0),
    )
}

/// Unplaced record `i` resolved, given every placement and the unplaced
/// records before it, to the item `resolves_to` picks among those still
/// available.
pub open spec fn unplaced_resolved(
    instance: PackingInstance,
    output: SavedOutputInput,
    sol: (Seq<SavedContainerView>, Seq<usize>),
    i: int,
) -> bool {
    let rec = output.unplaced_items@[i];
    resolves_to(
        instance.item_views(),
        avail_except(instance.item_views().len(), placed_ids(sol.0) + sol.1.take(i)),
        rec.name@,
        converted_sides(rec.width, rec.length, rec.height).unwrap(),
        false,
        Some(sol.1[i]),
    )
}

/// Every saved container, placement and unplaced record of `output` is
/// resolved in document order as `resolves_to` prescribes, giving `sol`.
pub open spec fn resolved_as(
    instance: PackingInstance,
    output: SavedOutputInput,
    sol: (Seq<SavedContainerView>, Seq<usize>),
) -> bool {
    &&& sol.0.len() == output.containers@.len()
    &&& sol.1.len() == output.unplaced_items@.len()
    &&& forall|k: int| 0 <= k < sol.0.len() ==> #[trigger] container_resolved(instance, output, sol.0, k)
    &&& forall|k: int, t: int|
        0 <= k < sol.0.len() && 0 <= t < sol.0[k].1.len() ==> #[trigger] placement_resolved(
            instance,
            output,
            sol.0,
            k,
            t,
        )
    &&& forall|i: int| 0 <= i < sol.1.len() ==> #[trigger] unplaced_resolved(instance, output, sol, i)
}

/// Resolve the placements of saved container `k`, taking their items out of
/// the available ones.
fn adapt_placements(
    instance: &PackingInstance,
    output: &SavedOutputInput,
    k: usize,
    available: &mut Vec<bool>,
    Ghost(used): Ghost<Seq<usize>>,
) -> (r: Result<Vec<SavedPlacement>, SavedSolutionAdapterError>)
    requires
        k < output.containers@.len(),
        availability(old(available)@, used, instance.item_views().len()),
        counts_balance(instance.item_views(), old(available)@, placed_names(*output, k as int)),
    ensures
        r matches Ok(placed) ==> {
            &&& placed@.len() == output.containers@[k as int].placed_items@.len()
            &&& forall|t: int| 0 <= t < placed@.len() ==> #[trigger] placement_ok(*instance, *output, k as int, t)
            &&& counts_balance(instance.item_views(), final(available)@, placed_names(*output, k + 1))
            &&& forall|t: int|
                0 <= t < placed@.len() ==> placement_adapted(
                    instance.item_views(),
                    output.containers@[k as int].placed_items@[t],
                    #[trigger] placed@[t]@,
                )
            &&& availability(
                final(available)@,
                used + placed@.map_values(|p: SavedPlacement| p@).map_values(|p: SavedPlacementView| p.0),
                instance.item_views().len(),
            )
            &&& forall|t: int|
                0 <= t < placed@.len() ==> resolves_to(
                    instance.item_views(),
                    avail_except(
                        instance.item_views().len(),
                        used + placed@.map_values(|p: SavedPlacement| p@).map_values(|p: SavedPlacementView| p.0).take(
                            t,
                        ),
                    ),
                    output.containers@[k as int].placed_items@[t].name@,
                    converted_sides(
                        output.containers@[k as int].placed_items@[t].w,
                        output.containers@[k as int].placed_items@[t].l,
                        output.containers@[k as int].placed_items@[t].h,
                    ).unwrap(),
                    true,
                    Some(#[trigger] placed@[t]@.0),
                )
        },
        r matches Err(e) ==> !(e is MissingItems) && failure_points_into(*instance, *output, e),
        r matches Err(e) ==> exists|t: int|
            0 <= t < output.containers@[k as int].placed_items@.len() && (forall|u: int|
                0 <= u < t ==> #[trigger] placement_ok(*instance, *output, k as int, u))
                && #[trigger] placement_fails_with(*instance, *output, k as int, t, e),
{
    proof {
        use_type_invariant(instance);
    }
    let input = &output.containers[k];
    let ghost n = instance.item_views().len();
    let ghost records = instance.item_views();
    assert(names_before_placement(*output, k as int, 0) =~= placed_names(*output, k as int));
    let mut placed: Vec<SavedPlacement> = Vec::new();
    let mut t: usize = 0;
    while t < input.placed_items.len()
        invariant
            0 <= t <= input.placed_items@.len(),
            k < output.containers@.len(),
            *input == output.containers@[k as int],
            n == instance.item_views().len(),
            n <= usize::MAX,
            placed@.len() == t,
            forall|j: int|
                0 <= j < t ==> placement_adapted(instance.item_views(), input.placed_items@[j], #[trigger] placed@[j]@),
            availability(
                available@,
                used + placed@.map_values(|p: SavedPlacement| p@).map_values(|p: SavedPlacementView| p.0),
                n,
            ),
            records == instance.item_views(),
            counts_balance(records, available@, names_before_placement(*output, k as int, t as int)),
            forall|u: int| 0 <= u < t ==> #[trigger] placement_ok(*instance, *output, k as int, u),
            forall|j: int|
                0 <= j < t ==> resolves_to(
                    records,
                    avail_except(
                        n,
                        used + placed@.map_values(|p: SavedPlacement| p@).map_values(|p: SavedPlacementView| p.0).take(j),
                    ),
                    input.placed_items@[j].name@,
                    converted_sides(input.placed_items@[j].w, input.placed_items@[j].l, input.placed_items@[j].h).unwrap(),
                    true,
                    Some(#[trigger] placed@[j]@.0),
                ),
        decreases input.placed_items@.len() - t,
    {
        let item = &input.placed_items[t];
        let location = SavedLocation::PlacedItem(k, t);
        assert(*item == output.containers@[k as int].placed_items@[t as int]);
        let dimensions = match convert_dimensions(location, (SavedField::W, SavedField::L, SavedField::H), item.w, item.l, item.h) {
            Ok(d) => d,
            Err(e) => {
                assert(placement_fails_with(*instance, *output, k as int, t as int, e));
                return Err(e);
            },
        };
        let x = match convert_coordinate(location, SavedField::X, item.x) {
            Ok(c) => c,
            Err(e) => {
                assert(placement_fails_with(*instance, *output, k as int, t as int, e));
                return Err(e);
            },
        };
        let y = match convert_coordinate(location, SavedField::Y, item.y) {
            Ok(c) => c,
            Err(e) => {
                assert(placement_fails_with(*instance, *output, k as int, t as int, e));
                return Err(e);
            },
        };
        let z = match convert_coordinate(location, SavedField::Z, item.z) {
            Ok(c) => c,
            Err(e) => {
                assert(placement_fails_with(*instance, *output, k as int, t as int, e));
                return Err(e);
            },
        };
        let item_id = match find_item(instance, available, item.name.as_str(), dimensions, true) {
            Some(id) => id,
            None => {
                proof {
                    lemma_none_named(records, available@, names_before_placement(*output, k as int, t as int), item.name@);
                }
                let e = SavedSolutionAdapterError::UnknownPlacedItem {
                    container_index: k,
                    item_index: t,
                    name: item.name.clone(),
                };
                assert(placement_fails_with(*instance, *output, k as int, t as int, e));
                return Err(e);
            },
        };
        let ghost before = used + placed@.map_values(|p: SavedPlacement| p@).map_values(|p: SavedPlacementView| p.0);
        let ghost names = names_before_placement(*output, k as int, t as int);
        proof {
            lemma_avail_except(available@, before, n);
            lemma_take_available(available@, before, n, item_id@);
            lemma_take_named(records, available@, names, item.name@, item_id@ as int);
            assert(placement_ok(*instance, *output, k as int, t as int));
            let all = output.containers@[k as int].placed_items@;
            assert(all.take(t + 1).map_values(|p: SavedPlacementInput| p.name@) =~= all.take(t as int).map_values(
                |p: SavedPlacementInput| p.name@,
            ).push(item.name@));
            assert(names_before_placement(*output, k as int, t + 1) =~= names.push(item.name@));
        }
        available.set(item_id.index(), false);
        let saved = SavedPlacement { item_id, bounds: Aabb::new(Point::new(x, y, z), dimensions) };
        let ghost old_placed = placed@;
        placed.push(saved);
        proof {
            assert(placed@.map_values(|p: SavedPlacement| p@).map_values(|p: SavedPlacementView| p.0) =~= old_placed.map_values(
                |p: SavedPlacement| p@,
            ).map_values(|p: SavedPlacementView| p.0).push(item_id@));
            assert(before.push(item_id@) =~= used + placed@.map_values(|p: SavedPlacement| p@).map_values(
                |p: SavedPlacementView| p.0,
            ));
            assert(placed@[t as int] == saved);
            let pids = placed@.map_values(|p: SavedPlacement| p@).map_values(|p: SavedPlacementView| p.0);
            let old_pids = old_placed.map_values(|p: SavedPlacement| p@).map_values(|p: SavedPlacementView| p.0);
            assert forall|j: int| 0 <= j < t + 1 implies resolves_to(
                records,
                avail_except(n, used + pids.take(j)),
                input.placed_items@[j].name@,
                converted_sides(input.placed_items@[j].w, input.placed_items@[j].l, input.placed_items@[j].h).unwrap(),
                true,
                Some(#[trigger] placed@[j]@.0),
            ) by {
                if j < t {
                    assert(pids.take(j) =~= old_pids.take(j));
                    assert(placed@[j] == old_placed[j]);
                } else {
                    assert(pids.take(j) =~= old_pids);
                    assert(used + pids.take(j) =~= before);
                    assert(saved@.0 == item_id@);
                    assert(dimensions@ == converted_sides(item.w, item.l, item.h).unwrap());
                }
            }
        }
        t = t + 1;
    }
    proof {
        let all = output.containers@[k as int].placed_items@;
        assert(all.take(t as int) =~= all);
        assert(names_before_placement(*output, k as int, t as int) =~= placed_names(*output, k + 1));
    }
    Ok(placed)
}

/// The dimension input that `location` and `field` name, if any.
pub open spec fn dimension_at(output: SavedOutputInput, location: SavedLocation, field: SavedField) -> Option<DimensionInput> {
    match location {
        SavedLocation::Container(k) => if k < output.containers@.len() {
            let c = output.containers@[k as int];
            match field {
                SavedField::Width => Some(c.width),
                SavedField::Length => Some(c.length),
                SavedField::Height => Some(c.height),
                _ => None,
            }
        } else {
            None
        },
        SavedLocation::PlacedItem(k, t) => if k < output.containers@.len() && t
            < output.containers@[k as int].placed_items@.len() {
            let p = output.containers@[k as int].placed_items@[t as int];
            match field {
                SavedField::W => Some(p.w),
                SavedField::L => Some(p.l),
                SavedField::H => Some(p.h),
                _ => None,
            }
        } else {
            None
        },
        SavedLocation::UnplacedItem(i) => if i < output.unplaced_items@.len() {
            let r = output.unplaced_items@[i as int];
            match field {
                SavedField::Width => Some(r.width),
                SavedField::Length => Some(r.length),
                SavedField::Height => Some(r.height),
                _ => None,
            }
        } else {
            None
        },
    }
}

/// The coordinate input that `location` and `field` name, if any.
pub open spec fn coordinate_at(output: SavedOutputInput, location: SavedLocation, field: SavedField) -> Option<CoordinateInput> {
    match location {
        SavedLocation::PlacedItem(k, t) => if k < output.containers@.len() && t
            < output.containers@[k as int].placed_items@.len() {
            let p = output.containers@[k as int].placed_items@[t as int];
            match field {
                SavedField::X => Some(p.x),
                SavedField::Y => Some(p.y),
                SavedField::Z => Some(p.z),
                _ => None,
            }
        } else {
            None
        },
        _ => None,
    }
}

/// What each failure reports is found in the output as reported: the
/// number that failed to convert, with its bits and reason, or the name
/// that did not resolve; missing items are some items of the instance.
pub open spec fn failure_points_into(instance: PackingInstance, output: SavedOutputInput, e: SavedSolutionAdapterError) -> bool {
    match e {
        SavedSolutionAdapterError::InvalidDimension { location, field, value_bits, reason } => dimension_at(
            output,
            location,
            field,
        ) matches Some(d) && d.value_bits == value_bits && d.converted == Err::<Length, LengthConversionError>(reason),
        SavedSolutionAdapterError::InvalidCoordinate { location, field, value_bits, reason } => coordinate_at(
            output,
            location,
            field,
        ) matches Some(c) && c.value_bits == value_bits && c.converted == Err::<Coordinate, CoordinateConversionError>(
            reason,
        ),
        SavedSolutionAdapterError::UnknownContainer { index, name } => index < output.containers@.len()
            && name@ == output.containers@[index as int].name@,
        SavedSolutionAdapterError::UnknownPlacedItem { container_index, item_index, name } => container_index
            < output.containers@.len() && item_index < output.containers@[container_index as int].placed_items@.len()
            && name@ == output.containers@[container_index as int].placed_items@[item_index as int].name@,
        SavedSolutionAdapterError::UnknownUnplacedItem { index, name } => index < output.unplaced_items@.len()
            && name@ == output.unplaced_items@[index as int].name@,
        SavedSolutionAdapterError::MissingItems(missing) => missing@.len() > 0 && forall|i: int|
            0 <= i < missing@.len() ==> (#[trigger] missing@[i])@ < instance.item_views().len(),
    }
}

/// The names of the placements of the first `k` saved containers, in
/// document order.
pub open spec fn placed_names(output: SavedOutputInput, k: int) -> Seq<Seq<char>>
    decreases k,
{
    if k <= 0 {
        Seq::empty()
    } else {
        placed_names(output, k - 1) + output.containers@[k - 1].placed_items@.map_values(
            |p: SavedPlacementInput| p.name@,
        )
    }
}

/// The container names resolved before saved container `k`.
pub open spec fn names_before_container(output: SavedOutputInput, k: int) -> Seq<Seq<char>> {
    output.containers@.take(k).map_values(|c: SavedContainerInput| c.name@)
}

/// The item names resolved before placement `t` of saved container `k`.
pub open spec fn names_before_placement(output: SavedOutputInput, k: int, t: int) -> Seq<Seq<char>> {
    placed_names(output, k) + output.containers@[k].placed_items@.take(t).map_values(
        |p: SavedPlacementInput| p.name@,
    )
}

/// The item names resolved before unplaced record `i`.
pub open spec fn names_before_unplaced(output: SavedOutputInput, i: int) -> Seq<Seq<char>> {
    placed_names(output, output.containers@.len() as int) + output.unplaced_items@.take(i).map_values(
        |r: RecordInput| r.name@,
    )
}

/// After the names `before` have each taken a record of theirs, a record
/// named `name` is still left.
pub open spec fn name_remains(records: Seq<RecordView>, before: Seq<Seq<char>>, name: Seq<char>) -> bool {
    count_name(before, name) < count_named(records, name)
}

/// The diagnostic for the first of a placement's coordinates that failed
/// to convert.
pub open spec fn coordinate_failure(location: SavedLocation, p: SavedPlacementInput) -> Option<
    SavedSolutionAdapterError,
> {
    match (p.x.converted, p.y.converted, p.z.converted) {
        (Err(reason), _, _) => Some(
            SavedSolutionAdapterError::InvalidCoordinate {
                location,
                field: SavedField::X,
                value_bits: p.x.value_bits,
                reason,
            },
        ),
        (_, Err(reason), _) => Some(
            SavedSolutionAdapterError::InvalidCoordinate {
                location,
                field: SavedField::Y,
                value_bits: p.y.value_bits,
                reason,
            },
        ),
        (_, _, Err(reason)) => Some(
            SavedSolutionAdapterError::InvalidCoordinate {
                location,
                field: SavedField::Z,
                value_bits: p.z.value_bits,
                reason,
            },
        ),
        _ => None,
    }
}

/// Saved container `k` converts and a container of its name is left.
pub open spec fn container_ok(instance: PackingInstance, output: SavedOutputInput, k: int) -> bool {
    let c = output.containers@[k];
    &&& converted_sides(c.width, c.length, c.height) is Some
    &&& name_remains(instance.container_views(), names_before_container(output, k), c.name@)
}

/// Placement `t` of saved container `k` converts and an item of its name
/// is left.
pub open spec fn placement_ok(instance: PackingInstance, output: SavedOutputInput, k: int, t: int) -> bool {
    let p = output.containers@[k].placed_items@[t];
    &&& converted_sides(p.w, p.l, p.h) is Some
    &&& coordinate_failure(SavedLocation::PlacedItem(k as usize, t as usize), p) is None
    &&& name_remains(instance.item_views(), names_before_placement(output, k, t), p.name@)
}

/// Unplaced record `i` converts and an item of its name is left.
pub open spec fn unplaced_ok(instance: PackingInstance, output: SavedOutputInput, i: int) -> bool {
    let r = output.unplaced_items@[i];
    &&& converted_sides(r.width, r.length, r.height) is Some
    &&& name_remains(instance.item_views(), names_before_unplaced(output, i), r.name@)
}

/// Resolving saved container `k` fails with `e`.
pub open spec fn container_fails_with(
    instance: PackingInstance,
    output: SavedOutputInput,
    k: int,
    e: SavedSolutionAdapterError,
) -> bool {
    let c = output.containers@[k];
    match first_dimension_failure(
        SavedLocation::Container(k as usize),
        (SavedField::Width, SavedField::Length, SavedField::Height),
        c.width,
        c.length,
        c.height,
    ) {
        Some(f) => e == f,
        None => !name_remains(instance.container_views(), names_before_container(output, k), c.name@) && e
            == (SavedSolutionAdapterError::UnknownContainer { index: k as usize, name: c.name }),
    }
}

/// Resolving placement `t` of saved container `k` fails with `e`.
pub open spec fn placement_fails_with(
    instance: PackingInstance,
    output: SavedOutputInput,
    k: int,
    t: int,
    e: SavedSolutionAdapterError,
) -> bool {
    let p = output.containers@[k].placed_items@[t];
    let location = SavedLocation::PlacedItem(k as usize, t as usize);
    match first_dimension_failure(location, (SavedField::W, SavedField::L, SavedField::H), p.w, p.l, p.h) {
        Some(f) => e == f,
        None => match coordinate_failure(location, p) {
            Some(f) => e == f,
            None => !name_remains(instance.item_views(), names_before_placement(output, k, t), p.name@) && e
                == (SavedSolutionAdapterError::UnknownPlacedItem {
                container_index: k as usize,
                item_index: t as usize,
                name: p.name,
            }),
        },
    }
}

/// Resolving unplaced record `i` fails with `e`.
pub open spec fn unplaced_fails_with(
    instance: PackingInstance,
    output: SavedOutputInput,
    i: int,
    e: SavedSolutionAdapterError,
) -> bool {
    let r = output.unplaced_items@[i];
    match first_dimension_failure(
        SavedLocation::UnplacedItem(i as usize),
        (SavedField::Width, SavedField::Length, SavedField::Height),
        r.width,
        r.length,
        r.height,
    ) {
        Some(f) => e == f,
        None => !name_remains(instance.item_views(), names_before_unplaced(output, i), r.name@) && e
            == (SavedSolutionAdapterError::UnknownUnplacedItem { index: i as usize, name: r.name }),
    }
}

/// Every saved container before `k`, and each of its placements, resolves.
pub open spec fn resolved_before_container(instance: PackingInstance, output: SavedOutputInput, k: int) -> bool {
    &&& forall|j: int| 0 <= j < k ==> #[trigger] container_ok(instance, output, j)
    &&& forall|j: int, t: int|
        0 <= j < k && 0 <= t < output.containers@[j].placed_items@.len() ==> #[trigger] placement_ok(
            instance,
            output,
            j,
            t,
        )
}

/// Everything before placement `t` of saved container `k` resolves.
pub open spec fn resolved_before_placement(instance: PackingInstance, output: SavedOutputInput, k: int, t: int) -> bool {
    &&& resolved_before_container(instance, output, k)
    &&& container_ok(instance, output, k)
    &&& forall|u: int| 0 <= u < t ==> #[trigger] placement_ok(instance, output, k, u)
}

/// Every saved container and placement, and every unplaced record before
/// `i`, resolves.
pub open spec fn resolved_before_unplaced(instance: PackingInstance, output: SavedOutputInput, i: int) -> bool {
    &&& resolved_before_container(instance, output, output.containers@.len() as int)
    &&& forall|j: int| 0 <= j < i ==> #[trigger] unplaced_ok(instance, output, j)
}

/// Every record of the saved output resolves.
pub open spec fn all_resolved(instance: PackingInstance, output: SavedOutputInput) -> bool {
    resolved_before_unplaced(instance, output, output.unplaced_items@.len() as int)
}

/// `e` is what the first record of the saved output, in document order,
/// that does not resolve reports.
pub open spec fn first_failure(instance: PackingInstance, output: SavedOutputInput, e: SavedSolutionAdapterError) -> bool {
    ||| exists|k: int|
        0 <= k < output.containers@.len() && resolved_before_container(instance, output, k)
            && #[trigger] container_fails_with(instance, output, k, e)
    ||| exists|k: int, t: int|
        0 <= k < output.containers@.len() && 0 <= t < output.containers@[k].placed_items@.len()
            && resolved_before_placement(instance, output, k, t) && #[trigger] placement_fails_with(
            instance,
            output,
            k,
            t,
            e,
        )
    ||| exists|i: int|
        0 <= i < output.unplaced_items@.len() && resolved_before_unplaced(instance, output, i)
            && #[trigger] unplaced_fails_with(instance, output, i, e)
}

/// How many item entries, placed and unplaced, the saved output holds.
pub open spec fn entry_count(output: SavedOutputInput) -> nat {
    placed_names(output, output.containers@.len() as int).len() + output.unplaced_items@.len()
}

/// How many of the first `k` flags are set.
pub open spec fn count_true(flags: Seq<bool>, k: int) -> nat
    decreases k,
{
    if k <= 0 {
        0
    } else {
        count_true(flags, k - 1) + if flags[k - 1] {
            1nat
        } else {
            0nat
        }
    }
}

proof fn lemma_count_true_all(flags: Seq<bool>, k: int)
    requires
        0 <= k <= flags.len(),
        forall|q: int| 0 <= q < flags.len() ==> #[trigger] flags[q],
    ensures
        count_true(flags, k) == k,
    decreases k,
{
    if k > 0 {
        lemma_count_true_all(flags, k - 1);
    }
}

proof fn lemma_count_true_set(flags: Seq<bool>, u: int, k: int)
    requires
        0 <= u < flags.len(),
        !flags[u],
        0 <= k <= flags.len(),
    ensures
        count_true(flags.update(u, true), k) == count_true(flags, k) + if u < k {
            1nat
        } else {
            0nat
        },
    decreases k,
{
    if k > 0 {
        lemma_count_true_set(flags, u, k - 1);
    }
}

/// The available positions are those that `used` leaves, so their number
/// and the length of `used` add up to `n`.
proof fn lemma_available_count(available: Seq<bool>, used: Seq<usize>, n: nat)
    requires
        availability(available, used, n),
        n <= usize::MAX,
    ensures
        count_true(available, n as int) + used.len() == n,
    decreases used.len(),
{
    if used.len() == 0 {
        assert forall|q: int| 0 <= q < available.len() implies #[trigger] available[q] by {
            assert(!used.contains(q as usize));
        }
        lemma_count_true_all(available, n as int);
    } else {
        let u = used.last();
        let rest = used.drop_last();
        let back = available.update(u as int, true);
        assert(used.contains(u)) by {
            assert(used[used.len() - 1] == u);
        }
        assert(!available[u as int]);
        assert forall|p: int| 0 <= p < n implies (#[trigger] back[p] <==> !rest.contains(p as usize)) by {
            if p == u as int {
                if rest.contains(u) {
                    let i = choose|i: int| 0 <= i < rest.len() && rest[i] == u;
                    assert(used[i] == used[used.len() - 1]);
                }
            } else {
                if rest.contains(p as usize) {
                    let i = choose|i: int| 0 <= i < rest.len() && rest[i] == p as usize;
                    assert(used[i] == p as usize);
                }
                if used.contains(p as usize) {
                    let i = choose|i: int| 0 <= i < used.len() && used[i] == p as usize;
                    assert(i != used.len() - 1);
                    assert(rest[i] == p as usize);
                }
            }
        }
        assert(availability(back, rest, n));
        lemma_available_count(back, rest, n);
        lemma_count_true_set(available, u as int, n as int);
    }
}

/// With every record available and nothing used yet, the counts balance.
proof fn lemma_balance_start(records: Seq<RecordView>, available: Seq<bool>)
    requires
        available.len() == records.len(),
        forall|q: int| 0 <= q < available.len() ==> #[trigger] available[q],
    ensures
        counts_balance(records, available, Seq::empty()),
{
    let n = records.len() as int;
    assert forall|x: Seq<char>| #![trigger count_available(records, available, x, n)]
        count_available(records, available, x, n) + count_name(Seq::<Seq<char>>::empty(), x) == count_named(
            records,
            x,
        ) by {
        lemma_count_all_available(records, available, x, n);
        assert(records.map_values(|r: RecordView| r.1).take(n) =~= records.map_values(|r: RecordView| r.1));
    }
}

/// Every position below `n` available.
fn all_available(n: usize) -> (r: Vec<bool>)
    ensures
        availability(r@, Seq::empty(), n as nat),
{
    let mut available: Vec<bool> = Vec::new();
    let mut p: usize = 0;
    while p < n
        invariant
            0 <= p <= n,
            available@.len() == p,
            forall|q: int| 0 <= q < p ==> #[trigger] available@[q],
        decreases n - p,
    {
        available.push(true);
        p = p + 1;
    }
    available
}

/// Convert a compatibility output into exact data resolved to the stable
/// identities of `instance`. Containers, then their placements, then the
/// unplaced records are converted and resolved in document order; each
/// resolution takes the first available record of the same name whose
/// dimensions agree (a placed item's may be rotated), else the first
/// available record of that name. The first failure is returned; input
/// items named nowhere are reported together at the end.
pub fn adapt_saved_solution(instance: &PackingInstance, output: &SavedOutputInput) -> (r: Result<
    SavedSolution,
    SavedSolutionAdapterError,
>)
    ensures
        r matches Ok(saved) ==> adapted_soundly(*instance, *output, saved@),
        r matches Ok(saved) ==> all_resolved(*instance, *output) && entry_count(*output)
            == instance.item_views().len(),
        r matches Err(e) ==> failure_points_into(*instance, *output, e),
        r matches Err(e) ==> e is MissingItems || first_failure(*instance, *output, e),
        r matches Err(SavedSolutionAdapterError::MissingItems(m)) ==> {
            &&& all_resolved(*instance, *output)
            &&& m@.len() > 0
            &&& m@.len() + entry_count(*output) == instance.item_views().len()
            &&& forall|a: int, b: int| 0 <= a < b < m@.len() ==> (#[trigger] m@[a])@ < (#[trigger] m@[b])@
        },
        r matches Ok(saved) ==> resolved_as(*instance, *output, saved@),
        r matches Err(SavedSolutionAdapterError::MissingItems(m)) ==> exists|sol: (Seq<SavedContainerView>, Seq<usize>)|
            {
                &&& #[trigger] resolved_as(*instance, *output, sol)
                &&& forall|q: usize|
                    m@.map_values(|id: ItemId| id@).contains(q) <==> (q < instance.item_views().len()
                        && !saved_item_ids(sol).contains(q))
            },
{
    proof {
        use_type_invariant(instance);
    }
    let ghost cviews = instance.container_views();
    let ghost iviews = instance.item_views();
    let nc = instance.containers().len();
    let ni = instance.items().len();
    let mut available_containers = all_available(nc);
    let mut available_items = all_available(ni);
    proof {
        lemma_balance_start(cviews, available_containers@);
        lemma_balance_start(iviews, available_items@);
        assert(names_before_container(*output, 0) =~= Seq::<Seq<char>>::empty());
    }
    let ghost mut used_c: Seq<usize> = Seq::empty();
    let ghost mut used_i: Seq<usize> = Seq::empty();
    let mut containers: Vec<SavedContainer> = Vec::new();
    let ghost mut views: Seq<SavedContainerView> = Seq::empty();
    let mut k: usize = 0;
    while k < output.containers.len()
        invariant
            0 <= k <= output.containers@.len(),
            cviews == instance.container_views(),
            iviews == instance.item_views(),
            nc == cviews.len(),
            ni == iviews.len(),
            nc <= usize::MAX,
            ni <= usize::MAX,
            availability(available_containers@, used_c, nc as nat),
            availability(available_items@, used_i, ni as nat),
            containers@.len() == k,
            used_c.len() == k,
            forall|j: int| 0 <= j < k ==> (#[trigger] containers@[j])@.0 == used_c[j],
            forall|j: int|
                0 <= j < k ==> container_adapted(cviews, iviews, output.containers@[j], #[trigger] containers@[j]@),
            used_i == flatten_saved(containers@.map_values(|c: SavedContainer| c@)).map_values(
                |p: PlacementView| p.1,
            ),
            counts_balance(cviews, available_containers@, names_before_container(*output, k as int)),
            counts_balance(iviews, available_items@, placed_names(*output, k as int)),
            resolved_before_container(*instance, *output, k as int),
            used_i.len() == placed_names(*output, k as int).len(),
            views == containers@.map_values(|c: SavedContainer| c@),
            forall|j: int| 0 <= j < k ==> #[trigger] container_resolved(*instance, *output, views, j),
            forall|j: int, t: int|
                0 <= j < k && 0 <= t < views[j].1.len() ==> #[trigger] placement_resolved(
                    *instance,
                    *output,
                    views,
                    j,
                    t,
                ),
        decreases output.containers@.len() - k,
    {
        let oc = &output.containers[k];
        let dimensions = match convert_dimensions(
            SavedLocation::Container(k),
            (SavedField::Width, SavedField::Length, SavedField::Height),
            oc.width,
            oc.length,
            oc.height,
        ) {
            Ok(d) => d,
            Err(e) => {
                assert(container_fails_with(*instance, *output, k as int, e));
                return Err(e);
            },
        };
        let ghost cnames = names_before_container(*output, k as int);
        let container_id = match find_container(instance, &available_containers, oc.name.as_str(), dimensions) {
            Some(id) => id,
            None => {
                proof {
                    lemma_none_named(cviews, available_containers@, cnames, oc.name@);
                }
                let e = SavedSolutionAdapterError::UnknownContainer { index: k, name: oc.name.clone() };
                assert(container_fails_with(*instance, *output, k as int, e));
                return Err(e);
            },
        };
        proof {
            lemma_take_available(available_containers@, used_c, nc as nat, container_id@);
            lemma_take_named(cviews, available_containers@, cnames, oc.name@, container_id@ as int);
            assert(container_ok(*instance, *output, k as int));
            assert(output.containers@.take(k + 1).map_values(|c: SavedContainerInput| c.name@) =~= cnames.push(
                oc.name@,
            ));
        }
        proof {
            lemma_avail_except(available_containers@, used_c, nc as nat);
        }
        let ghost used_c_before = used_c;
        let ghost avail_c_before = available_containers@;
        available_containers.set(container_id.index(), false);
        proof {
            used_c = used_c.push(container_id@);
        }
        let ghost used_i_before = used_i;
        let placed = match adapt_placements(instance, output, k, &mut available_items, Ghost(used_i)) {
            Ok(placed) => placed,
            Err(e) => {
                proof {
                    let t = choose|t: int|
                        0 <= t < output.containers@[k as int].placed_items@.len() && (forall|u: int|
                            0 <= u < t ==> #[trigger] placement_ok(*instance, *output, k as int, u))
                            && #[trigger] placement_fails_with(*instance, *output, k as int, t, e);
                    assert(resolved_before_placement(*instance, *output, k as int, t));
                    assert(placement_fails_with(*instance, *output, k as int, t, e));
                }
                return Err(e);
            },
        };
        let ghost old_views = containers@.map_values(|c: SavedContainer| c@);
        let saved = SavedContainer { container_id, placed_items: placed };
        containers.push(saved);
        proof {
            assert(containers@.map_values(|c: SavedContainer| c@) =~= old_views.push(saved@));
            lemma_flatten_push(old_views, saved@);
            used_i = used_i + saved@.1.map_values(|p: SavedPlacementView| p.0);
            assert(saved@.1 =~= placed@.map_values(|p: SavedPlacement| p@));
            assert(containers@[k as int] == saved);
            assert forall|t: int| 0 <= t < saved@.1.len() implies placement_adapted(
                iviews,
                oc.placed_items@[t],
                #[trigger] saved@.1[t],
            ) by {
                assert(saved@.1[t] == placed@[t]@);
            }
            assert(resolved_before_container(*instance, *output, k + 1));
            views = views.push(saved@);
            let cs = views;
            assert(cs =~= old_views.push(saved@));
            assert(old_views.map_values(|x: SavedContainerView| x.0) =~= used_c_before);
            assert(placed_ids(old_views) =~= used_i_before);
            assert forall|j: int| 0 <= j < k + 1 implies #[trigger] container_resolved(*instance, *output, cs, j) by {
                assert(cs.take(j) =~= old_views.take(j));
                if j < k {
                    assert(cs[j] == old_views[j]);
                    assert(container_resolved(*instance, *output, old_views, j));
                } else {
                    assert(old_views.take(j) =~= old_views);
                    assert(avail_c_before == avail_except(nc as nat, used_c_before));
                    assert(cs[j].0 == container_id@);
                    assert(dimensions@ == converted_sides(oc.width, oc.length, oc.height).unwrap());
                }
            }
            let pids = placed@.map_values(|p: SavedPlacement| p@).map_values(|p: SavedPlacementView| p.0);
            assert forall|j: int, t: int| 0 <= j < k + 1 && 0 <= t < cs[j].1.len() implies #[trigger] placement_resolved(
                *instance,
                *output,
                cs,
                j,
                t,
            ) by {
                assert(cs.take(j) =~= old_views.take(j));
                if j < k {
                    assert(cs[j] == old_views[j]);
                    assert(placement_resolved(*instance, *output, old_views, j, t));
                } else {
                    assert(old_views.take(j) =~= old_views);
                    assert(cs[j] == saved@);
                    assert(cs[j].1.take(t).map_values(|x: SavedPlacementView| x.0) =~= pids.take(t));
                    assert(cs[j].1[t].0 == placed@[t]@.0);
                }
            }
        }
        k = k + 1;
    }
    let mut unplaced: Vec<ItemId> = Vec::new();
    let ghost mut unplaced_views: Seq<usize> = Seq::empty();
    let ghost placed_before = used_i;
    let ghost final_views = views;
    proof {
        assert(placed_ids(final_views) =~= placed_before);
    }
    assert(names_before_unplaced(*output, 0) =~= placed_names(*output, output.containers@.len() as int));
    let mut i: usize = 0;
    while i < output.unplaced_items.len()
        invariant
            0 <= i <= output.unplaced_items@.len(),
            iviews == instance.item_views(),
            ni == iviews.len(),
            ni <= usize::MAX,
            availability(available_items@, used_i, ni as nat),
            unplaced@.len() == i,
            used_i == placed_before + unplaced@.map_values(|id: ItemId| id@),
            placed_before.len() == placed_names(*output, output.containers@.len() as int).len(),
            placed_before == placed_ids(final_views),
            final_views == containers@.map_values(|c: SavedContainer| c@),
            final_views.len() == output.containers@.len(),
            forall|j: int| 0 <= j < final_views.len() ==> #[trigger] container_resolved(*instance, *output, final_views, j),
            forall|j: int, t: int|
                0 <= j < final_views.len() && 0 <= t < final_views[j].1.len() ==> #[trigger] placement_resolved(
                    *instance,
                    *output,
                    final_views,
                    j,
                    t,
                ),
            forall|j: int|
                0 <= j < i ==> #[trigger] unplaced_resolved(
                    *instance,
                    *output,
                    (final_views, unplaced_views),
                    j,
                ),
            unplaced_views == unplaced@.map_values(|id: ItemId| id@),
            counts_balance(iviews, available_items@, names_before_unplaced(*output, i as int)),
            resolved_before_unplaced(*instance, *output, i as int),
            forall|j: int|
                0 <= j < i ==> {
                    &&& (#[trigger] unplaced@[j])@ < iviews.len()
                    &&& iviews[unplaced@[j]@ as int].1 == output.unplaced_items@[j].name@
                    &&& record_sides(output.unplaced_items@[j]) is Some
                },
        decreases output.unplaced_items@.len() - i,
    {
        let record = &output.unplaced_items[i];
        let dimensions = match convert_dimensions(
            SavedLocation::UnplacedItem(i),
            (SavedField::Width, SavedField::Length, SavedField::Height),
            record.width,
            record.length,
            record.height,
        ) {
            Ok(d) => d,
            Err(e) => {
                assert(unplaced_fails_with(*instance, *output, i as int, e));
                return Err(e);
            },
        };
        let ghost inames = names_before_unplaced(*output, i as int);
        let item_id = match find_item(instance, &available_items, record.name.as_str(), dimensions, false) {
            Some(id) => id,
            None => {
                proof {
                    lemma_none_named(iviews, available_items@, inames, record.name@);
                }
                let e = SavedSolutionAdapterError::UnknownUnplacedItem { index: i, name: record.name.clone() };
                assert(unplaced_fails_with(*instance, *output, i as int, e));
                return Err(e);
            },
        };
        proof {
            lemma_take_available(available_items@, used_i, ni as nat, item_id@);
            lemma_take_named(iviews, available_items@, inames, record.name@, item_id@ as int);
            assert(unplaced_ok(*instance, *output, i as int));
            assert(output.unplaced_items@.take(i + 1).map_values(|r: RecordInput| r.name@) =~= output.unplaced_items@.take(
                i as int,
            ).map_values(|r: RecordInput| r.name@).push(record.name@));
            assert(names_before_unplaced(*output, i + 1) =~= inames.push(record.name@));
        }
        proof {
            lemma_avail_except(available_items@, used_i, ni as nat);
        }
        let ghost avail_i_before = available_items@;
        let ghost used_i_before = used_i;
        available_items.set(item_id.index(), false);
        let ghost old_unplaced = unplaced@;
        unplaced.push(item_id);
        proof {
            used_i = used_i.push(item_id@);
            assert(unplaced@.map_values(|id: ItemId| id@) =~= old_unplaced.map_values(|id: ItemId| id@).push(item_id@));
            assert(used_i =~= placed_before + unplaced@.map_values(|id: ItemId| id@));
            assert(unplaced@[i as int] == item_id);
            let old_uv = unplaced_views;
            unplaced_views = unplaced_views.push(item_id@);
            assert(unplaced_views =~= unplaced@.map_values(|id: ItemId| id@));
            assert forall|j: int| 0 <= j < i + 1 implies #[trigger] unplaced_resolved(
                *instance,
                *output,
                (final_views, unplaced_views),
                j,
            ) by {
                assert(unplaced_views.take(j) =~= old_uv.take(j));
                if j < i {
                    assert(unplaced_views[j] == old_uv[j]);
                    assert(unplaced_resolved(*instance, *output, (final_views, old_uv), j));
                } else {
                    assert(old_uv.take(j) =~= old_uv);
                    assert(placed_before + old_uv =~= used_i_before);
                    assert(avail_i_before == avail_except(ni as nat, used_i_before));
                    assert(dimensions@ == converted_sides(record.width, record.length, record.height).unwrap());
                }
            }
        }
        i = i + 1;
    }
    let items = instance.items();
    let mut missing: Vec<ItemId> = Vec::new();
    let mut p: usize = 0;
    while p < ni
        invariant
            0 <= p <= ni,
            items@.len() == ni,
            iviews == instance.item_views(),
            ni == iviews.len(),
            forall|q: int| 0 <= q < ni ==> #[trigger] items@[q]@ == iviews[q],
            records_wf(iviews),
            availability(available_items@, used_i, ni as nat),
            missing@.len() == 0 ==> forall|q: int| 0 <= q < p ==> !available_items@[q],
            forall|j: int| 0 <= j < missing@.len() ==> (#[trigger] missing@[j])@ < p,
            missing@.len() == count_true(available_items@, p as int),
            forall|a: int, b: int| 0 <= a < b < missing@.len() ==> (#[trigger] missing@[a])@ < (#[trigger] missing@[b])@,
            forall|q: usize|
                missing@.map_values(|id: ItemId| id@).contains(q) <==> (q < p && available_items@[q as int]),
        decreases ni - p,
    {
        if available_items[p] {
            let id = items[p].id();
            assert(iviews[p as int].0 == p);
            let ghost old_missing = missing@.map_values(|id: ItemId| id@);
            missing.push(id);
            proof {
                let now = missing@.map_values(|id: ItemId| id@);
                assert(now =~= old_missing.push(p));
                assert forall|q: usize| now.contains(q) <==> (q < p + 1 && available_items@[q as int]) by {
                    if now.contains(q) {
                        let j = choose|j: int| 0 <= j < now.len() && now[j] == q;
                        if j < old_missing.len() {
                            assert(old_missing[j] == q);
                            assert(old_missing.contains(q));
                        }
                    }
                    if q < p + 1 && available_items@[q as int] {
                        if q < p {
                            assert(old_missing.contains(q));
                            let j = choose|j: int| 0 <= j < old_missing.len() && old_missing[j] == q;
                            assert(now[j] == q);
                        } else {
                            assert(now[old_missing.len() as int] == q);
                        }
                    }
                }
            }
        } else {
            proof {
                let now = missing@.map_values(|id: ItemId| id@);
                assert forall|q: usize| now.contains(q) <==> (q < p + 1 && available_items@[q as int]) by {
                    if q == p {
                        assert(!available_items@[q as int]);
                    }
                }
            }
        }
        p = p + 1;
    }
    let ghost sol = (final_views, unplaced_views);
    proof {
        assert(saved_item_ids(sol) =~= used_i);
        assert(resolved_as(*instance, *output, sol));
        assert forall|q: usize|
            missing@.map_values(|id: ItemId| id@).contains(q) <==> (q < instance.item_views().len()
                && !saved_item_ids(sol).contains(q)) by {
            if q < ni {
                assert(available_items@[q as int] <==> !used_i.contains(q));
            }
        }
    }
    proof {
        lemma_available_count(available_items@, used_i, ni as nat);
        assert(used_i.len() == entry_count(*output));
    }
    if missing.len() > 0 {
        return Err(SavedSolutionAdapterError::MissingItems(missing));
    }
    let saved = SavedSolution { containers, unplaced_items: unplaced };
    proof {
        assert forall|q: usize| q < ni implies used_i.contains(q) by {
            assert(!available_items@[q as int]);
        }
        lemma_exact_cover(used_i, ni as nat);
        assert(saved@ == sol);
        assert(saved_item_ids(saved@) =~= used_i);
        assert forall|k1: int, k2: int| 0 <= k1 < k2 < saved@.0.len() implies (#[trigger] saved@.0[k1]).0
            != (#[trigger] saved@.0[k2]).0 by {
            assert(saved@.0[k1] == containers@[k1]@);
            assert(saved@.0[k2] == containers@[k2]@);
        }
        assert forall|j: int| 0 <= j < saved@.0.len() implies container_adapted(
            cviews,
            iviews,
            output.containers@[j],
            #[trigger] saved@.0[j],
        ) by {
            assert(saved@.0[j] == containers@[j]@);
        }
        assert forall|j: int| 0 <= j < saved@.1.len() implies {
            &&& (#[trigger] saved@.1[j]) < iviews.len()
            &&& iviews[saved@.1[j] as int].1 == output.unplaced_items@[j].name@
            &&& record_sides(output.unplaced_items@[j]) is Some
        } by {
            assert(saved@.1[j] == unplaced@[j]@);
        }
    }
    Ok(saved)
}

} // verus!
