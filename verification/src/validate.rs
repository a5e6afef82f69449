//! Validated packing instances with stable identities.
use vstd::prelude::*;

use crate::geometry::{is_permutation, sides_volume, Dimensions, Length, LengthConversionError, Sides};
use crate::solution::{PlacementView, Solution};
use crate::solver::constructive::{extents_overlap, interval_overlap, interval_overlap_spec, placement_extents, supported_area, unsupported_spec, Extents};

verus! {

/// Stable identity of a container within one validated input document.
#[derive(Clone, Copy, Debug, Eq, Hash, Ord, PartialEq, PartialOrd, Structural)]
pub struct ContainerId(usize);

impl View for ContainerId {
    type V = usize;

    closed spec fn view(&self) -> usize {
        self.0
    }
}

impl ContainerId {
    pub fn index(self) -> (r: usize)
        ensures
            r == self@,
    {
        self.0
    }
}

/// Stable identity of an item within one validated input document.
#[derive(Clone, Copy, Debug, Eq, Hash, Ord, PartialEq, PartialOrd, Structural)]
pub struct ItemId(usize);

impl View for ItemId {
    type V = usize;

    closed spec fn view(&self) -> usize {
        self.0
    }
}

impl ItemId {
    pub fn index(self) -> (r: usize)
        ensures
            r == self@,
    {
        self.0
    }
}

/// An item identity is its position: equal positions are equal identities.
pub proof fn lemma_item_id_is_position(a: ItemId, b: ItemId)
    requires
        a@ == b@,
    ensures
        a == b,
{
}

/// Identity, display name and dimensions of a validated record.
pub type RecordView = (usize, Seq<char>, Sides);

/// One validated container, addressed independently of its display name.
#[derive(Clone, Debug)]
pub struct Container {
    id: ContainerId,
    name: String,
    dimensions: Dimensions,
}

impl View for Container {
    type V = RecordView;

    closed spec fn view(&self) -> RecordView {
        (self.id@, self.name@, self.dimensions@)
    }
}

impl Container {
    pub fn id(&self) -> (r: ContainerId)
        ensures
            r@ == self@.0,
    {
        self.id
    }

    pub fn name(&self) -> (r: &str)
        ensures
            r@ == self@.1,
    {
        self.name.as_str()
    }

    pub fn dimensions(&self) -> (r: Dimensions)
        ensures
            r@ == self@.2,
    {
        self.dimensions
    }
}

/// One validated packable item, addressed independently of its display name.
#[derive(Clone, Debug)]
pub struct Item {
    id: ItemId,
    name: String,
    dimensions: Dimensions,
}

impl View for Item {
    type V = RecordView;

    closed spec fn view(&self) -> RecordView {
        (self.id@, self.name@, self.dimensions@)
    }
}

impl Item {
    pub fn id(&self) -> (r: ItemId)
        ensures
            r@ == self@.0,
    {
        self.id
    }

    pub fn name(&self) -> (r: &str)
        ensures
            r@ == self@.1,
    {
        self.name.as_str()
    }

    pub fn dimensions(&self) -> (r: Dimensions)
        ensures
            r@ == self@.2,
    {
        self.dimensions
    }
}

/// Compatibility input after all dimensions have been converted and checked.
#[derive(Debug)]
pub struct PackingInstance {
    containers: Vec<Container>,
    items: Vec<Item>,
}

/// Records whose identities are their positions and whose volumes are representable.
pub open spec fn records_wf(records: Seq<RecordView>) -> bool {
    forall|i: int|
        0 <= i < records.len() ==> {
            &&& (#[trigger] records[i]).0 == i
            &&& sides_volume(records[i].2) <= u128::MAX
        }
}

impl PackingInstance {
    /// Views of the containers, in input order.
    pub closed spec fn container_views(self) -> Seq<RecordView> {
        self.containers@.map_values(|c: Container| c@)
    }

    /// Views of the items, in input order.
    pub closed spec fn item_views(self) -> Seq<RecordView> {
        self.items@.map_values(|i: Item| i@)
    }

    #[verifier::type_invariant]
    pub open spec fn wf(self) -> bool {
        &&& records_wf(self.container_views())
        &&& records_wf(self.item_views())
        &&& self.container_views().len() <= usize::MAX
        &&& self.item_views().len() <= usize::MAX
    }

    pub fn containers(&self) -> (r: &[Container])
        ensures
            r@.map_values(|c: Container| c@) == self.container_views(),
            r@.len() == self.container_views().len(),
            forall|i: int| 0 <= i < r@.len() ==> #[trigger] r@[i]@ == self.container_views()[i],
    {
        self.containers.as_slice()
    }

    pub fn items(&self) -> (r: &[Item])
        ensures
            r@.map_values(|i: Item| i@) == self.item_views(),
            r@.len() == self.item_views().len(),
            forall|i: int| 0 <= i < r@.len() ==> #[trigger] r@[i]@ == self.item_views()[i],
    {
        self.items.as_slice()
    }
}

/// Compatibility array containing an invalid value.
#[derive(Clone, Copy, Debug, Eq, PartialEq, Structural)]
pub enum InputSection {
    Containers,
    Contents,
}

impl InputSection {
    pub fn field_name(self) -> (r: &'static str)
        ensures
            r@ == section_name(self),
    {
        match self {
            InputSection::Containers => "containers",
            InputSection::Contents => "contents",
        }
    }
}

/// JSON array name of a section.
pub open spec fn section_name(section: InputSection) -> Seq<char> {
    match section {
        InputSection::Containers => "containers"@,
        InputSection::Contents => "contents"@,
    }
}

/// Dimension field containing an invalid value.
#[derive(Clone, Copy, Debug, Eq, PartialEq, Structural)]
pub enum DimensionField {
    Width,
    Length,
    Height,
}

impl DimensionField {
    pub fn field_name(self) -> (r: &'static str)
        ensures
            r@ == dimension_field_name(self),
    {
        match self {
            DimensionField::Width => "width",
            DimensionField::Length => "length",
            DimensionField::Height => "height",
        }
    }
}

/// JSON field name of a dimension.
pub open spec fn dimension_field_name(field: DimensionField) -> Seq<char> {
    match field {
        DimensionField::Width => "width"@,
        DimensionField::Length => "length"@,
        DimensionField::Height => "height"@,
    }
}

/// One input dimension as read from the document: the bit pattern of the
/// number that was given and the outcome of converting it to an exact length.
#[derive(Clone, Copy, Debug)]
pub struct DimensionInput {
    pub value_bits: u64,
    pub converted: Result<Length, LengthConversionError>,
}

/// One input record (container or item) whose dimensions have been converted.
#[derive(Clone, Debug)]
pub struct RecordInput {
    pub name: String,
    pub width: DimensionInput,
    pub length: DimensionInput,
    pub height: DimensionInput,
}

/// One precise input-validation diagnostic. The offending number is kept as
/// its `f64` bit pattern.
#[derive(Clone, Copy, Debug, Eq, PartialEq, Structural)]
pub enum InputValidationError {
    InvalidDimension {
        section: InputSection,
        index: usize,
        field: DimensionField,
        value_bits: u64,
        reason: LengthConversionError,
    },
    VolumeOverflow { section: InputSection, index: usize },
}

/// All dimension errors found during one compatibility-input conversion.
#[derive(Clone, Debug)]
pub struct InputValidationErrors(Vec<InputValidationError>);

impl InputValidationErrors {
    pub closed spec fn error_seq(self) -> Seq<InputValidationError> {
        self.0@
    }

    pub fn errors(&self) -> (r: &[InputValidationError])
        ensures
            r@ == self.error_seq(),
    {
        self.0.as_slice()
    }
}

/// The diagnostic for one dimension, if its conversion failed.
pub open spec fn field_errors(
    section: InputSection,
    index: usize,
    field: DimensionField,
    input: DimensionInput,
) -> Seq<InputValidationError> {
    match input.converted {
        Ok(_) => seq![],
        Err(reason) => seq![
            InputValidationError::InvalidDimension {
                section,
                index,
                field,
                value_bits: input.value_bits,
                reason,
            },
        ],
    }
}

/// Dimensions of a record whose three fields all converted.
pub open spec fn record_sides(record: RecordInput) -> Option<Sides> {
    match (record.width.converted, record.length.converted, record.height.converted) {
        (Ok(w), Ok(l), Ok(h)) => Some((w@, l@, h@)),
        _ => None,
    }
}

/// Diagnostics of one record: each failed field in width, length, height
/// order, or a volume overflow when all fields converted.
pub open spec fn record_errors(
    section: InputSection,
    index: usize,
    record: RecordInput,
) -> Seq<InputValidationError> {
    field_errors(section, index, DimensionField::Width, record.width) + field_errors(
        section,
        index,
        DimensionField::Length,
        record.length,
    ) + field_errors(section, index, DimensionField::Height, record.height) + match record_sides(
        record,
    ) {
        Some(s) => if sides_volume(s) <= u128::MAX {
            seq![]
        } else {
            seq![InputValidationError::VolumeOverflow { section, index }]
        },
        None => seq![],
    }
}

/// Diagnostics of a whole section, in record order.
pub open spec fn section_errors(section: InputSection, records: Seq<RecordInput>) -> Seq<
    InputValidationError,
>
    decreases records.len(),
{
    if records.len() == 0 {
        seq![]
    } else {
        section_errors(section, records.drop_last()) + record_errors(
            section,
            (records.len() - 1) as usize,
            records.last(),
        )
    }
}

/// The validated records, given that every record converted.
pub open spec fn validated_records(records: Seq<RecordInput>) -> Seq<RecordView> {
    Seq::new(
        records.len(),
        |i: int| (i as usize, records[i].name@, record_sides(records[i]).unwrap()),
    )
}

/// Convert the records of one section, appending diagnostics to `errors`.
#[verifier::spinoff_prover]
#[verifier::rlimit(40)]
fn convert_section(
    section: InputSection,
    records: &[RecordInput],
    errors: &mut Vec<InputValidationError>,
) -> (r: Vec<(String, Dimensions)>)
    ensures
        final(errors)@ == old(errors)@ + section_errors(section, records@),
        section_errors(section, records@).len() == 0 ==> {
            &&& r@.len() == records@.len()
            &&& forall|i: int|
                0 <= i < r@.len() ==> {
                    &&& (#[trigger] r@[i]).0@ == records@[i].name@
                    &&& record_sides(records@[i]) == Some(r@[i].1@)
                    &&& sides_volume(r@[i].1@) <= u128::MAX
                }
        },
{
    let ghost all = records@;
    let mut converted: Vec<(String, Dimensions)> = Vec::new();
    let mut index: usize = 0;
    let n = records.len();
    proof {
        assert(all.take(0) =~= Seq::<RecordInput>::empty());
    }
    while index < n
        invariant
            all == records@,
            n == all.len(),
            0 <= index <= n,
            errors@ == old(errors)@ + section_errors(section, all.take(index as int)),
            section_errors(section, all.take(index as int)).len() == 0 ==> {
                &&& converted@.len() == index
                &&& forall|i: int|
                    0 <= i < index ==> {
                        &&& (#[trigger] converted@[i]).0@ == all[i].name@
                        &&& record_sides(all[i]) == Some(converted@[i].1@)
                        &&& sides_volume(converted@[i].1@) <= u128::MAX
                    }
            },
        decreases n - index,
    {
        let record = &records[index];
        let ghost before = errors@;
        let ghost prefix_errors = section_errors(section, all.take(index as int));
        proof {
            assert(all.take(index + 1).drop_last() =~= all.take(index as int));
            assert(all.take(index + 1).last() == *record);
        }
        let w = convert_field(section, index, DimensionField::Width, record.width, errors);
        let l = convert_field(section, index, DimensionField::Length, record.length, errors);
        let h = convert_field(section, index, DimensionField::Height, record.height, errors);
        match (w, l, h) {
            (Some(w), Some(l), Some(h)) => {
                let dimensions = Dimensions::new(w, l, h);
                assert(record_sides(*record) == Some(dimensions@));
                match dimensions.checked_volume() {
                    Some(_) => {
                        converted.push((record.name.clone(), dimensions));
                        proof {
                            assert(errors@ =~= before + record_errors(section, index, *record));
                            assert(errors@ =~= old(errors)@ + section_errors(
                                section,
                                all.take(index + 1),
                            ));
                        }
                    },
                    None => {
                        errors.push(InputValidationError::VolumeOverflow { section, index });
                        proof {
                            assert(errors@ =~= before + record_errors(section, index, *record));
                            assert(errors@ =~= old(errors)@ + section_errors(
                                section,
                                all.take(index + 1),
                            ));
                        }
                    },
                }
            },
            _ => {
                proof {
                    assert(record_sides(*record).is_none());
                    assert(errors@ =~= before + record_errors(section, index, *record));
                    assert(errors@ =~= old(errors)@ + section_errors(section, all.take(index + 1)));
                }
            },
        }
        proof {
            if section_errors(section, all.take(index + 1)).len() == 0 {
                assert(prefix_errors.len() == 0);
                assert(record_errors(section, index, *record).len() == 0);
            }
        }
        index = index + 1;
    }
    proof {
        assert(all.take(n as int) =~= all);
    }
    converted
}

/// Convert one dimension, appending its diagnostic when it failed.
fn convert_field(
    section: InputSection,
    index: usize,
    field: DimensionField,
    input: DimensionInput,
    errors: &mut Vec<InputValidationError>,
) -> (r: Option<Length>)
    ensures
        final(errors)@ == old(errors)@ + field_errors(section, index, field, input),
        r == match input.converted {
            Ok(length) => Some(length),
            Err(_) => None::<Length>,
        },
{
    match input.converted {
        Ok(length) => {
            assert(errors@ =~= old(errors)@ + field_errors(section, index, field, input));
            Some(length)
        },
        Err(reason) => {
            errors.push(
                InputValidationError::InvalidDimension {
                    section,
                    index,
                    field,
                    value_bits: input.value_bits,
                    reason,
                },
            );
            assert(errors@ =~= old(errors)@ + field_errors(section, index, field, input));
            None
        },
    }
}

/// Validate converted input records: every record of both sections is checked
/// and every diagnostic is reported, containers first, in input order.
pub fn build_instance(containers: &[RecordInput], items: &[RecordInput]) -> (r: Result<
    PackingInstance,
    InputValidationErrors,
>)
    ensures
        ({
            let errs = section_errors(InputSection::Containers, containers@) + section_errors(
                InputSection::Contents,
                items@,
            );
            match r {
                Ok(instance) => {
                    &&& errs.len() == 0
                    &&& instance.container_views() == validated_records(containers@)
                    &&& instance.item_views() == validated_records(items@)
                },
                Err(e) => errs.len() > 0 && e.error_seq() == errs,
            }
        }),
{
    let ghost cs = containers@;
    let ghost is = items@;
    let mut errors: Vec<InputValidationError> = Vec::new();
    let converted_containers = convert_section(InputSection::Containers, containers, &mut errors);
    let converted_items = convert_section(InputSection::Contents, items, &mut errors);
    assert(errors@ =~= section_errors(InputSection::Containers, cs) + section_errors(
        InputSection::Contents,
        is,
    ));
    if errors.len() == 0 {
        let out_containers = assign_container_ids(&converted_containers, Ghost(cs));
        let out_items = assign_item_ids(&converted_items, Ghost(is));
        assert(out_containers@.len() == out_containers.len());
        assert(out_items@.len() == out_items.len());
        let instance = PackingInstance { containers: out_containers, items: out_items };
        Ok(instance)
    } else {
        Err(InputValidationErrors(errors))
    }
}

/// Give each converted container the identity of its input position.
fn assign_container_ids(converted: &Vec<(String, Dimensions)>, Ghost(records): Ghost<Seq<RecordInput>>) -> (r: Vec<Container>)
    requires
        converted@.len() == records.len(),
        forall|i: int|
            0 <= i < converted@.len() ==> {
                &&& (#[trigger] converted@[i]).0@ == records[i].name@
                &&& record_sides(records[i]) == Some(converted@[i].1@)
                &&& sides_volume(converted@[i].1@) <= u128::MAX
            },
    ensures
        r@.map_values(|c: Container| c@) == validated_records(records),
        records_wf(validated_records(records)),
{
    let mut out: Vec<Container> = Vec::new();
    let mut index: usize = 0;
    let n = converted.len();
    while index < n
        invariant
            n == converted@.len(),
            n == records.len(),
            0 <= index <= n,
            forall|i: int|
                0 <= i < converted@.len() ==> {
                    &&& (#[trigger] converted@[i]).0@ == records[i].name@
                    &&& record_sides(records[i]) == Some(converted@[i].1@)
                    &&& sides_volume(converted@[i].1@) <= u128::MAX
                },
            out@.map_values(|c: Container| c@) =~= validated_records(records).take(index as int),
        decreases n - index,
    {
        let ghost before = out@.map_values(|c: Container| c@);
        let name = converted[index].0.clone();
        let dimensions = converted[index].1;
        out.push(Container { id: ContainerId(index), name, dimensions });
        assert(out@.map_values(|c: Container| c@) =~= before.push(
            validated_records(records)[index as int],
        ));
        index = index + 1;
    }
    proof {
        assert(validated_records(records).take(n as int) =~= validated_records(records));
        assert forall|i: int| 0 <= i < validated_records(records).len() implies {
            &&& (#[trigger] validated_records(records)[i]).0 == i
            &&& sides_volume(validated_records(records)[i].2) <= u128::MAX
        } by {
            assert(converted@[i].1@ == validated_records(records)[i].2);
        }
    }
    out
}

/// Give each converted item the identity of its input position.
fn assign_item_ids(converted: &Vec<(String, Dimensions)>, Ghost(records): Ghost<Seq<RecordInput>>) -> (r: Vec<Item>)
    requires
        converted@.len() == records.len(),
        forall|i: int|
            0 <= i < converted@.len() ==> {
                &&& (#[trigger] converted@[i]).0@ == records[i].name@
                &&& record_sides(records[i]) == Some(converted@[i].1@)
                &&& sides_volume(converted@[i].1@) <= u128::MAX
            },
    ensures
        r@.map_values(|c: Item| c@) == validated_records(records),
        records_wf(validated_records(records)),
{
    let mut out: Vec<Item> = Vec::new();
    let mut index: usize = 0;
    let n = converted.len();
    while index < n
        invariant
            n == converted@.len(),
            n == records.len(),
            0 <= index <= n,
            forall|i: int|
                0 <= i < converted@.len() ==> {
                    &&& (#[trigger] converted@[i]).0@ == records[i].name@
                    &&& record_sides(records[i]) == Some(converted@[i].1@)
                    &&& sides_volume(converted@[i].1@) <= u128::MAX
                },
            out@.map_values(|c: Item| c@) =~= validated_records(records).take(index as int),
        decreases n - index,
    {
        let ghost before = out@.map_values(|c: Item| c@);
        let name = converted[index].0.clone();
        let dimensions = converted[index].1;
        out.push(Item { id: ItemId(index), name, dimensions });
        assert(out@.map_values(|c: Item| c@) =~= before.push(
            validated_records(records)[index as int],
        ));
        index = index + 1;
    }
    proof {
        assert(validated_records(records).take(n as int) =~= validated_records(records));
        assert forall|i: int| 0 <= i < validated_records(records).len() implies {
            &&& (#[trigger] validated_records(records)[i]).0 == i
            &&& sides_volume(validated_records(records)[i].2) <= u128::MAX
        } by {
            assert(converted@[i].1@ == validated_records(records)[i].2);
        }
    }
    out
}

/// Every item position exactly once.
pub open spec fn all_positions(n: nat) -> Seq<usize> {
    Seq::new(n, |i: int| i as usize)
}

/// The box lies inside a container of sides `d`.
pub open spec fn extents_within(e: Extents, d: Sides) -> bool {
    e.x_max <= d.0 && e.y_max <= d.1 && e.z_max <= d.2
}

/// A placement names a known container and item, orients the item by
/// exchanging its axes, and lies inside the container.
pub open spec fn placement_valid(
    containers: Seq<RecordView>,
    items: Seq<RecordView>,
    p: PlacementView,
) -> bool {
    &&& p.0 < containers.len()
    &&& p.1 < items.len()
    &&& is_permutation(items[p.1 as int].2, p.2.1)
    &&& placement_extents(p) is Some
    &&& extents_within(placement_extents(p).unwrap(), containers[p.0 as int].2)
}

/// No two placements in the same container share a positive volume.
pub open spec fn placements_disjoint(ps: Seq<PlacementView>) -> bool {
    forall|i: int, j: int|
        0 <= i < j < ps.len() && (#[trigger] ps[i]).0 == (#[trigger] ps[j]).0 ==> !extents_overlap(
            placement_extents(ps[i]).unwrap(),
            placement_extents(ps[j]).unwrap(),
        )
}

/// Items named by a solution: placed ones in placement order, then unplaced ones.
pub open spec fn item_occurrences(sol: (Seq<PlacementView>, Seq<usize>)) -> Seq<usize> {
    sol.0.map_values(|p: PlacementView| p.1) + sol.1
}

/// A solution is valid for an instance: every placement is valid, placements
/// in one container do not overlap, and every item is named exactly once.
pub open spec fn solution_valid(instance: PackingInstance, sol: (Seq<PlacementView>, Seq<usize>)) -> bool {
    &&& forall|i: int|
        0 <= i < sol.0.len() ==> placement_valid(
            instance.container_views(),
            instance.item_views(),
            #[trigger] sol.0[i],
        )
    &&& placements_disjoint(sol.0)
    &&& item_occurrences(sol).to_multiset() == all_positions(instance.item_views().len()).to_multiset()
}

/// Counts in the multiset of all positions: one for each position below `n`.
pub proof fn lemma_all_positions_count(n: nat, x: usize)
    requires
        n <= usize::MAX + 1,
    ensures
        all_positions(n).to_multiset().count(x) == if x < n { 1nat } else { 0nat },
    decreases n,
{
    broadcast use vstd::multiset::group_multiset_axioms;

    if n > 0 {
        lemma_all_positions_count((n - 1) as nat, x);
        assert(all_positions(n) =~= all_positions((n - 1) as nat).push((n - 1) as usize));
        vstd::seq_lib::to_multiset_build(all_positions((n - 1) as nat), (n - 1) as usize);
    } else {
        assert(all_positions(n) =~= Seq::<usize>::empty());
        vstd::seq_lib::to_multiset_len(all_positions(n));
        vstd::multiset::lemma_multiset_empty_len(all_positions(n).to_multiset());
    }
}

/// A coordinate axis.
#[derive(Clone, Copy, Debug, Eq, PartialEq, Structural)]
pub enum Axis {
    X,
    Y,
    Z,
}

/// Where a solution names an item: the index among placements or among unplaced items.
#[derive(Clone, Copy, Debug, Eq, PartialEq, Structural)]
pub enum ItemLocation {
    Placed(usize),
    Unplaced(usize),
}

/// One violation found by the independent solution validator.
#[derive(Clone, Copy, Debug, Eq, PartialEq, Structural)]
pub enum SolutionValidationError {
    UnknownContainer { placement_index: usize, container_id: ContainerId },
    UnknownPlacedItem { placement_index: usize, item_id: ItemId },
    UnknownUnplacedItem { unplaced_index: usize, item_id: ItemId },
    InvalidOrientation {
        placement_index: usize,
        item_id: ItemId,
        expected: Dimensions,
        actual: Dimensions,
    },
    CoordinateOverflow { placement_index: usize, axis: Axis, origin: u64 },
    OutOfBounds {
        placement_index: usize,
        container_id: ContainerId,
        axis: Axis,
        end: u64,
        limit: u64,
    },
    Overlap { container_id: ContainerId, first_placement: usize, second_placement: usize },
    DuplicateItem { item_id: ItemId, first: ItemLocation, duplicate: ItemLocation },
    MissingItem { item_id: ItemId },
}

/// The component of a triple on `axis`.
pub open spec fn on_axis(t: (u64, u64, u64), axis: Axis) -> u64 {
    match axis {
        Axis::X => t.0,
        Axis::Y => t.1,
        Axis::Z => t.2,
    }
}

/// What a violation reported for placement `i`, whose view is `p`, claims.
pub open spec fn placement_error_holds(
    containers: Seq<RecordView>,
    items: Seq<RecordView>,
    i: usize,
    p: PlacementView,
    e: SolutionValidationError,
) -> bool {
    match e {
        SolutionValidationError::UnknownContainer { placement_index, container_id } => placement_index == i
            && container_id@ == p.0 && p.0 >= containers.len(),
        SolutionValidationError::UnknownPlacedItem { placement_index, item_id } => placement_index == i && item_id@
            == p.1 && p.1 >= items.len(),
        SolutionValidationError::InvalidOrientation { placement_index, item_id, expected, actual } => placement_index
            == i && item_id@ == p.1 && p.1 < items.len() && expected@ == items[p.1 as int].2 && actual@ == p.2.1
            && !is_permutation(expected@, actual@),
        SolutionValidationError::CoordinateOverflow { placement_index, axis, origin } => placement_index == i
            && origin == on_axis(p.2.0, axis) && origin + on_axis(p.2.1, axis) > u64::MAX,
        SolutionValidationError::OutOfBounds { placement_index, container_id, axis, end, limit } => placement_index
            == i && container_id@ == p.0 && p.0 < containers.len() && end == on_axis(p.2.0, axis) + on_axis(
            p.2.1,
            axis,
        ) && limit == on_axis(containers[p.0 as int].2, axis) && end > limit,
        _ => false,
    }
}

/// The item a location of a solution names, if the location exists.
pub open spec fn location_item(sol: (Seq<PlacementView>, Seq<usize>), location: ItemLocation) -> Option<usize> {
    match location {
        ItemLocation::Placed(i) => if i < sol.0.len() {
            Some(sol.0[i as int].1)
        } else {
            None
        },
        ItemLocation::Unplaced(u) => if u < sol.1.len() {
            Some(sol.1[u as int])
        } else {
            None
        },
    }
}

/// The position of a location among all item occurrences of a solution:
/// placements first, then unplaced items.
pub open spec fn location_rank(sol: (Seq<PlacementView>, Seq<usize>), location: ItemLocation) -> int {
    match location {
        ItemLocation::Placed(i) => i as int,
        ItemLocation::Unplaced(u) => sol.0.len() + u,
    }
}

/// What a reported violation claims of the instance and the solution.
pub open spec fn error_holds(
    instance: PackingInstance,
    sol: (Seq<PlacementView>, Seq<usize>),
    e: SolutionValidationError,
) -> bool {
    let cs = instance.container_views();
    let is = instance.item_views();
    match e {
        SolutionValidationError::UnknownContainer { placement_index, .. } => placement_index < sol.0.len()
            && placement_error_holds(cs, is, placement_index, sol.0[placement_index as int], e),
        SolutionValidationError::UnknownPlacedItem { placement_index, .. } => placement_index < sol.0.len()
            && placement_error_holds(cs, is, placement_index, sol.0[placement_index as int], e),
        SolutionValidationError::InvalidOrientation { placement_index, .. } => placement_index < sol.0.len()
            && placement_error_holds(cs, is, placement_index, sol.0[placement_index as int], e),
        SolutionValidationError::CoordinateOverflow { placement_index, .. } => placement_index < sol.0.len()
            && placement_error_holds(cs, is, placement_index, sol.0[placement_index as int], e),
        SolutionValidationError::OutOfBounds { placement_index, .. } => placement_index < sol.0.len()
            && placement_error_holds(cs, is, placement_index, sol.0[placement_index as int], e),
        SolutionValidationError::Overlap { container_id, first_placement, second_placement } => {
            &&& first_placement < second_placement < sol.0.len()
            &&& sol.0[first_placement as int].0 == container_id@
            &&& sol.0[second_placement as int].0 == container_id@
            &&& placement_extents(sol.0[first_placement as int]) is Some
            &&& placement_extents(sol.0[second_placement as int]) is Some
            &&& extents_overlap(
                placement_extents(sol.0[first_placement as int]).unwrap(),
                placement_extents(sol.0[second_placement as int]).unwrap(),
            )
        },
        SolutionValidationError::UnknownUnplacedItem { unplaced_index, item_id } => unplaced_index < sol.1.len()
            && sol.1[unplaced_index as int] == item_id@ && item_id@ >= is.len(),
        SolutionValidationError::DuplicateItem { item_id, first, duplicate } => {
            &&& location_item(sol, first) == Some(item_id@)
            &&& location_item(sol, duplicate) == Some(item_id@)
            &&& location_rank(sol, first) < location_rank(sol, duplicate)
        },
        SolutionValidationError::MissingItem { item_id } => item_id@ < is.len() && !item_occurrences(
            sol,
        ).contains(item_id@),
    }
}

/// Whether `e` reports placement `i` for the check `kind`: 0 unknown
/// container, 1 unknown item, 2 orientation, then overflow and bounds on
/// `axis`.
pub open spec fn reports_placement(e: SolutionValidationError, i: usize, kind: int, axis: Axis) -> bool {
    match e {
        SolutionValidationError::UnknownContainer { placement_index, .. } => kind == 0 && placement_index == i,
        SolutionValidationError::UnknownPlacedItem { placement_index, .. } => kind == 1 && placement_index == i,
        SolutionValidationError::InvalidOrientation { placement_index, .. } => kind == 2 && placement_index == i,
        SolutionValidationError::CoordinateOverflow { placement_index, axis: a, .. } => kind == 3 && placement_index
            == i && a == axis,
        SolutionValidationError::OutOfBounds { placement_index, axis: a, .. } => kind == 4 && placement_index == i
            && a == axis,
        _ => false,
    }
}

/// Some error of `errs` reports placement `i` for the check `kind` on `axis`.
pub open spec fn reported(errs: Seq<SolutionValidationError>, i: usize, kind: int, axis: Axis) -> bool {
    exists|e: SolutionValidationError| #[trigger] errs.contains(e) && reports_placement(e, i, kind, axis)
}

/// Every violation of placement `i`, whose view is `p`, is reported in `errs`.
pub open spec fn placement_reported(
    containers: Seq<RecordView>,
    items: Seq<RecordView>,
    i: usize,
    p: PlacementView,
    errs: Seq<SolutionValidationError>,
) -> bool {
    &&& p.0 >= containers.len() ==> reported(errs, i, 0, Axis::X)
    &&& p.1 >= items.len() ==> reported(errs, i, 1, Axis::X)
    &&& p.1 < items.len() && !is_permutation(items[p.1 as int].2, p.2.1) ==> reported(errs, i, 2, Axis::X)
    &&& forall|axis: Axis|
        on_axis(p.2.0, axis) + on_axis(p.2.1, axis) > u64::MAX ==> #[trigger] reported(errs, i, 3, axis)
    &&& forall|axis: Axis|
        p.0 < containers.len() && on_axis(p.2.0, axis) + on_axis(p.2.1, axis) <= u64::MAX && on_axis(p.2.0, axis)
            + on_axis(p.2.1, axis) > on_axis(containers[p.0 as int].2, axis) ==> #[trigger] reported(errs, i, 4, axis)
}

/// The location of the item occurrence of rank `r` in a solution.
pub open spec fn location_at(sol: (Seq<PlacementView>, Seq<usize>), r: int) -> ItemLocation {
    if r < sol.0.len() {
        ItemLocation::Placed(r as usize)
    } else {
        ItemLocation::Unplaced((r - sol.0.len()) as usize)
    }
}

/// What error `e` reports: the overlap of placements `a` and `b`, a repeat
/// at a location, an unknown unplaced entry, or a missing item.
pub open spec fn reports_overlap(e: SolutionValidationError, a: int, b: int) -> bool {
    match e {
        SolutionValidationError::Overlap { first_placement, second_placement, .. } => first_placement == a
            && second_placement == b,
        _ => false,
    }
}

pub open spec fn reports_duplicate(e: SolutionValidationError, location: ItemLocation) -> bool {
    match e {
        SolutionValidationError::DuplicateItem { duplicate, .. } => duplicate == location,
        _ => false,
    }
}

pub open spec fn reports_unknown_unplaced(e: SolutionValidationError, u: int) -> bool {
    match e {
        SolutionValidationError::UnknownUnplacedItem { unplaced_index, .. } => unplaced_index == u,
        _ => false,
    }
}

pub open spec fn reports_missing(e: SolutionValidationError, x: usize) -> bool {
    match e {
        SolutionValidationError::MissingItem { item_id } => item_id@ == x,
        _ => false,
    }
}

/// Some error of `errs` reports the overlap of placements `a` and `b`.
pub open spec fn overlap_reported(errs: Seq<SolutionValidationError>, a: int, b: int) -> bool {
    exists|e: SolutionValidationError| #[trigger] errs.contains(e) && reports_overlap(e, a, b)
}

/// Some error of `errs` reports the occurrence at `location` as a repeat.
pub open spec fn duplicate_reported(errs: Seq<SolutionValidationError>, location: ItemLocation) -> bool {
    exists|e: SolutionValidationError| #[trigger] errs.contains(e) && reports_duplicate(e, location)
}

/// Some error of `errs` reports unplaced entry `u` as an unknown item.
pub open spec fn unknown_unplaced_reported(errs: Seq<SolutionValidationError>, u: int) -> bool {
    exists|e: SolutionValidationError| #[trigger] errs.contains(e) && reports_unknown_unplaced(e, u)
}

/// Some error of `errs` reports item `x` as missing.
pub open spec fn missing_reported(errs: Seq<SolutionValidationError>, x: usize) -> bool {
    exists|e: SolutionValidationError| #[trigger] errs.contains(e) && reports_missing(e, x)
}

/// Every violation of the solution is reported in `errs`: each failed check
/// of a placement, each overlap of two valid placements in one container,
/// each repeated naming of a known item, each unknown unplaced item, and
/// each known item named nowhere.
pub open spec fn violations_reported(
    instance: PackingInstance,
    sol: (Seq<PlacementView>, Seq<usize>),
    errs: Seq<SolutionValidationError>,
) -> bool {
    let cs = instance.container_views();
    let is = instance.item_views();
    let occ = item_occurrences(sol);
    &&& forall|i: int| 0 <= i < sol.0.len() ==> placement_reported(cs, is, i as usize, #[trigger] sol.0[i], errs)
    &&& forall|a: int, b: int|
        0 <= a < b < sol.0.len() && placement_valid(cs, is, #[trigger] sol.0[a]) && placement_valid(
            cs,
            is,
            #[trigger] sol.0[b],
        ) && sol.0[a].0 == sol.0[b].0 && extents_overlap(
            placement_extents(sol.0[a]).unwrap(),
            placement_extents(sol.0[b]).unwrap(),
        ) ==> overlap_reported(errs, a, b)
    &&& forall|r: int|
        0 <= r < occ.len() && occ[r] < is.len() && #[trigger] occ.take(r).contains(occ[r]) ==> duplicate_reported(
            errs,
            location_at(sol, r),
        )
    &&& forall|u: int| 0 <= u < sol.1.len() && #[trigger] sol.1[u] >= is.len() ==> unknown_unplaced_reported(errs, u)
    &&& forall|x: usize| x < is.len() && !occ.contains(x) ==> #[trigger] missing_reported(errs, x)
}

/// Each overlap of two valid placements in one container whose first
/// placement comes before `ia`, or is `ia` with the second before `jb`, is
/// reported in `errs`.
pub open spec fn overlaps_reported_before(
    cs: Seq<RecordView>,
    is: Seq<RecordView>,
    ps: Seq<PlacementView>,
    errs: Seq<SolutionValidationError>,
    ia: int,
    jb: int,
) -> bool {
    forall|a: int, b: int|
        0 <= a < b < ps.len() && (a < ia || (a == ia && b < jb)) && placement_valid(cs, is, #[trigger] ps[a])
            && placement_valid(cs, is, #[trigger] ps[b]) && ps[a].0 == ps[b].0 && extents_overlap(
            placement_extents(ps[a]).unwrap(),
            placement_extents(ps[b]).unwrap(),
        ) ==> overlap_reported(errs, a, b)
}

/// Reported overlaps stay reported as errors are added.
proof fn lemma_overlaps_grow(
    cs: Seq<RecordView>,
    is: Seq<RecordView>,
    ps: Seq<PlacementView>,
    small: Seq<SolutionValidationError>,
    big: Seq<SolutionValidationError>,
    ia: int,
    jb: int,
)
    requires
        overlaps_reported_before(cs, is, ps, small, ia, jb),
        errors_grow(small, big),
    ensures
        overlaps_reported_before(cs, is, ps, big, ia, jb),
{
    assert forall|a: int, b: int| #[trigger] overlap_reported(small, a, b) implies overlap_reported(big, a, b) by {
        let e = choose|e: SolutionValidationError| #[trigger] small.contains(e) && reports_overlap(e, a, b);
        assert(big.contains(e));
    }
}

/// Every known item among the first `r` occurrences has a recorded location.
spec fn seen_sound(first: Seq<Option<ItemLocation>>, occ: Seq<usize>, r: int) -> bool {
    forall|j: int| 0 <= j < r && #[trigger] occ[j] < first.len() ==> first[occ[j] as int] is Some
}

/// Each of the first `r` occurrences that repeats an earlier known item is
/// reported in `errs`.
pub open spec fn duplicates_reported_before(
    sol: (Seq<PlacementView>, Seq<usize>),
    n: nat,
    errs: Seq<SolutionValidationError>,
    r: int,
) -> bool {
    let occ = item_occurrences(sol);
    forall|rr: int|
        0 <= rr < r && occ[rr] < n && #[trigger] occ.take(rr).contains(occ[rr]) ==> duplicate_reported(
            errs,
            location_at(sol, rr),
        )
}

/// Each of the first `u` unplaced entries that names no item is reported.
pub open spec fn unknown_reported_before(
    sol: (Seq<PlacementView>, Seq<usize>),
    n: nat,
    errs: Seq<SolutionValidationError>,
    u: int,
) -> bool {
    forall|uu: int| 0 <= uu < u && #[trigger] sol.1[uu] >= n ==> unknown_unplaced_reported(errs, uu)
}

/// Each item below `x` that the solution names nowhere is reported missing.
pub open spec fn missing_reported_before(
    sol: (Seq<PlacementView>, Seq<usize>),
    errs: Seq<SolutionValidationError>,
    x: int,
) -> bool {
    forall|y: usize| y < x && !item_occurrences(sol).contains(y) ==> #[trigger] missing_reported(errs, y)
}

/// Reported repeats and unknown unplaced entries stay reported as errors are added.
proof fn lemma_coverage_reports_grow(
    sol: (Seq<PlacementView>, Seq<usize>),
    n: nat,
    small: Seq<SolutionValidationError>,
    big: Seq<SolutionValidationError>,
    r: int,
    u: int,
)
    requires
        duplicates_reported_before(sol, n, small, r),
        unknown_reported_before(sol, n, small, u),
        errors_grow(small, big),
    ensures
        duplicates_reported_before(sol, n, big, r),
        unknown_reported_before(sol, n, big, u),
{
    assert forall|l: ItemLocation| #[trigger] duplicate_reported(small, l) implies duplicate_reported(big, l) by {
        let e = choose|e: SolutionValidationError| #[trigger] small.contains(e) && reports_duplicate(e, l);
        assert(big.contains(e));
    }
    assert forall|uu: int| #[trigger] unknown_unplaced_reported(small, uu) implies unknown_unplaced_reported(big, uu) by {
        let e = choose|e: SolutionValidationError| #[trigger] small.contains(e) && reports_unknown_unplaced(e, uu);
        assert(big.contains(e));
    }
}

/// A location naming item `x` is an occurrence of `x` at its rank.
proof fn lemma_location_occurrence(sol: (Seq<PlacementView>, Seq<usize>), l: ItemLocation, x: usize)
    requires
        location_item(sol, l) == Some(x),
    ensures
        0 <= location_rank(sol, l) < item_occurrences(sol).len(),
        item_occurrences(sol)[location_rank(sol, l)] == x,
{
}

/// `big` holds every error of `small`.
pub open spec fn errors_grow(small: Seq<SolutionValidationError>, big: Seq<SolutionValidationError>) -> bool {
    forall|e: SolutionValidationError| #[trigger] small.contains(e) ==> big.contains(e)
}

/// A longer list with the same first errors holds them all.
proof fn lemma_prefix_grows(small: Seq<SolutionValidationError>, big: Seq<SolutionValidationError>)
    requires
        small.len() <= big.len(),
        forall|k: int| 0 <= k < small.len() ==> #[trigger] big[k] == small[k],
    ensures
        errors_grow(small, big),
{
    assert forall|e: SolutionValidationError| #[trigger] small.contains(e) implies big.contains(e) by {
        let k = choose|k: int| 0 <= k < small.len() && small[k] == e;
        assert(big[k] == e);
    }
}

/// Reports of a placement stay reported as errors are added.
proof fn lemma_placement_reported_grows(
    cs: Seq<RecordView>,
    is: Seq<RecordView>,
    i: usize,
    p: PlacementView,
    small: Seq<SolutionValidationError>,
    big: Seq<SolutionValidationError>,
)
    requires
        placement_reported(cs, is, i, p, small),
        errors_grow(small, big),
    ensures
        placement_reported(cs, is, i, p, big),
{
    assert forall|kind: int, axis: Axis|
        #![trigger reported(small, i, kind, axis)]
        #![trigger reported(big, i, kind, axis)]
        reported(small, i, kind, axis) implies reported(big, i, kind, axis) by {
        let e = choose|e: SolutionValidationError| #[trigger] small.contains(e) && reports_placement(e, i, kind, axis);
        assert(big.contains(e));
    }
}

/// Every violation found in one candidate solution.
#[derive(Clone, Debug)]
pub struct SolutionValidationErrors(Vec<SolutionValidationError>);

impl SolutionValidationErrors {
    pub closed spec fn error_seq(self) -> Seq<SolutionValidationError> {
        self.0@
    }

    pub fn errors(&self) -> (r: &[SolutionValidationError])
        ensures
            r@ == self.error_seq(),
    {
        self.0.as_slice()
    }
}

/// Check one axis of a placement: report an overflowing end, or an end past
/// the container when the container is known.
fn check_axis(
    placement_index: usize,
    container: Option<(ContainerId, u64)>,
    axis: Axis,
    origin: u64,
    length: u64,
    errors: &mut Vec<SolutionValidationError>,
) -> (r: bool)
    ensures
        r == (origin + length <= u64::MAX && (container matches Some((_, limit)) ==> origin + length <= limit)),
        final(errors)@.len() >= old(errors)@.len(),
        forall|i: int| 0 <= i < old(errors)@.len() ==> #[trigger] final(errors)@[i] == old(errors)@[i],
        (final(errors)@.len() > old(errors)@.len()) <==> !r,
        !r ==> final(errors)@ == old(errors)@.push(
            if origin + length > u64::MAX {
                SolutionValidationError::CoordinateOverflow { placement_index, axis, origin }
            } else {
                SolutionValidationError::OutOfBounds {
                    placement_index,
                    container_id: container.unwrap().0,
                    axis,
                    end: (origin + length) as u64,
                    limit: container.unwrap().1,
                }
            },
        ),
{
    match origin.checked_add(length) {
        None => {
            errors.push(SolutionValidationError::CoordinateOverflow { placement_index, axis, origin });
            false
        },
        Some(end) => match container {
            Some((container_id, limit)) => {
                if end > limit {
                    errors.push(
                        SolutionValidationError::OutOfBounds { placement_index, container_id, axis, end, limit },
                    );
                    false
                } else {
                    true
                }
            },
            None => true,
        },
    }
}

/// Check the identities, orientation and bounds of placement `index`.
fn check_placement(
    instance: &PackingInstance,
    index: usize,
    placement: crate::solution::Placement,
    errors: &mut Vec<SolutionValidationError>,
) -> (r: bool)
    ensures
        r == placement_valid(instance.container_views(), instance.item_views(), placement@),
        final(errors)@.len() >= old(errors)@.len(),
        forall|i: int| 0 <= i < old(errors)@.len() ==> #[trigger] final(errors)@[i] == old(errors)@[i],
        (final(errors)@.len() > old(errors)@.len()) <==> !r,
        forall|k: int|
            old(errors)@.len() <= k < final(errors)@.len() ==> placement_error_holds(
                instance.container_views(),
                instance.item_views(),
                index,
                placement@,
                #[trigger] final(errors)@[k],
            ),
        placement_reported(instance.container_views(), instance.item_views(), index, placement@, final(errors)@),
{
    proof {
        use_type_invariant(instance);
    }
    let ghost start = errors@;
    let container_id = placement.container_id();
    let item_id = placement.item_id();
    let bounds = placement.bounds();
    let dims = bounds.dimensions();
    let origin = bounds.origin();
    let mut ok = true;
    let container_known = container_id.index() < instance.containers().len();
    if !container_known {
        errors.push(SolutionValidationError::UnknownContainer { placement_index: index, container_id });
        ok = false;
    }
    let item_known = item_id.index() < instance.items().len();
    if !item_known {
        errors.push(SolutionValidationError::UnknownPlacedItem { placement_index: index, item_id });
        ok = false;
    } else {
        let expected = instance.items()[item_id.index()].dimensions();
        if !expected.is_permutation_of(dims) {
            errors.push(
                SolutionValidationError::InvalidOrientation {
                    placement_index: index,
                    item_id,
                    expected,
                    actual: dims,
                },
            );
            ok = false;
        }
    }
    let limits = if container_known {
        let cd = instance.containers()[container_id.index()].dimensions();
        Some(cd.positive_sides())
    } else {
        None
    };
    let (ow, ol, oh) = (origin.x().get(), origin.y().get(), origin.z().get());
    let (dw, dl, dh) = dims.positive_sides();
    let ghost before_axes = errors@;
    let ok_x = check_axis(index, match limits { Some(l) => Some((container_id, l.0)), None => None }, Axis::X, ow, dw, errors);
    let ghost after_x = errors@;
    let ok_y = check_axis(index, match limits { Some(l) => Some((container_id, l.1)), None => None }, Axis::Y, ol, dl, errors);
    let ghost after_y = errors@;
    let ok_z = check_axis(index, match limits { Some(l) => Some((container_id, l.2)), None => None }, Axis::Z, oh, dh, errors);
    proof {
        let cs = instance.container_views();
        let is = instance.item_views();
        let p = placement@;
        let fin = errors@;
        assert forall|e: SolutionValidationError| before_axes.contains(e) implies fin.contains(e) by {
            let k = choose|k: int| 0 <= k < before_axes.len() && before_axes[k] == e;
            assert(after_x[k] == e && after_y[k] == e && fin[k] == e);
        }
        assert forall|e: SolutionValidationError| after_x.contains(e) implies fin.contains(e) by {
            let k = choose|k: int| 0 <= k < after_x.len() && after_x[k] == e;
            assert(after_y[k] == e && fin[k] == e);
        }
        assert forall|e: SolutionValidationError| after_y.contains(e) implies fin.contains(e) by {
            let k = choose|k: int| 0 <= k < after_y.len() && after_y[k] == e;
            assert(fin[k] == e);
        }
        if p.0 >= cs.len() {
            let e = before_axes[start.len() as int];
            assert(before_axes.contains(e));
            assert(reports_placement(e, index, 0, Axis::X));
        }
        if p.1 >= is.len() {
            let e = before_axes.last();
            assert(before_axes.contains(e));
            assert(reports_placement(e, index, 1, Axis::X));
        }
        if p.1 < is.len() && !is_permutation(is[p.1 as int].2, p.2.1) {
            let e = before_axes.last();
            assert(before_axes.contains(e));
            assert(reports_placement(e, index, 2, Axis::X));
        }
        assert forall|axis: Axis| on_axis(p.2.0, axis) + on_axis(p.2.1, axis) > u64::MAX implies #[trigger] reported(
            fin,
            index,
            3,
            axis,
        ) by {
            match axis {
                Axis::X => {
                    assert(after_x.contains(after_x.last()));
                    assert(reports_placement(after_x.last(), index, 3, axis));
                },
                Axis::Y => {
                    assert(after_y.contains(after_y.last()));
                    assert(reports_placement(after_y.last(), index, 3, axis));
                },
                Axis::Z => {
                    assert(fin.contains(fin.last()));
                    assert(reports_placement(fin.last(), index, 3, axis));
                },
            }
        }
        assert forall|axis: Axis|
            p.0 < cs.len() && on_axis(p.2.0, axis) + on_axis(p.2.1, axis) <= u64::MAX && on_axis(p.2.0, axis) + on_axis(
                p.2.1,
                axis,
            ) > on_axis(cs[p.0 as int].2, axis) implies #[trigger] reported(fin, index, 4, axis) by {
            match axis {
                Axis::X => {
                    assert(after_x.contains(after_x.last()));
                    assert(reports_placement(after_x.last(), index, 4, axis));
                },
                Axis::Y => {
                    assert(after_y.contains(after_y.last()));
                    assert(reports_placement(after_y.last(), index, 4, axis));
                },
                Axis::Z => {
                    assert(fin.contains(fin.last()));
                    assert(reports_placement(fin.last(), index, 4, axis));
                },
            }
        }
    }
    ok && ok_x && ok_y && ok_z
}

/// Items named by the first `m` occurrences are each named at most once, and
/// exactly the names recorded in `first` have been seen.
spec fn coverage_state(q: Seq<usize>, first: Seq<Option<ItemLocation>>, n: nat) -> bool {
    &&& first.len() == n
    &&& forall|x: usize| x < n ==> (#[trigger] first[x as int] is Some <==> q.to_multiset().count(x) > 0)
}

/// Each recorded first location names its item and comes before rank `bound`.
spec fn firsts_sound(first: Seq<Option<ItemLocation>>, sol: (Seq<PlacementView>, Seq<usize>), bound: int) -> bool {
    forall|x: int|
        0 <= x < first.len() ==> (#[trigger] first[x] matches Some(l) ==> location_item(sol, l) == Some(x as usize)
            && location_rank(sol, l) < bound)
}

/// An item with no recorded location is not among the first `r` occurrences.
spec fn missing_sound(first: Seq<Option<ItemLocation>>, occ: Seq<usize>, r: int) -> bool {
    forall|x: int, j: int|
        0 <= x < first.len() && #[trigger] first[x] is None && 0 <= j < r ==> #[trigger] occ[j] != x
}

/// Record that item `item` is named at `location`; report it when it was named before.
fn note_item(
    first: &mut Vec<Option<ItemLocation>>,
    item: ItemId,
    location: ItemLocation,
    errors: &mut Vec<SolutionValidationError>,
    Ghost(q): Ghost<Seq<usize>>,
    Ghost(instance): Ghost<PackingInstance>,
    Ghost(sol): Ghost<(Seq<PlacementView>, Seq<usize>)>,
) -> (r: bool)
    requires
        item@ < old(first)@.len(),
        coverage_state(q, old(first)@, old(first)@.len() as nat),
        location_item(sol, location) == Some(item@),
        firsts_sound(old(first)@, sol, location_rank(sol, location)),
    ensures
        coverage_state(q.push(item@), final(first)@, old(first)@.len() as nat),
        r == (q.to_multiset().count(item@) == 0),
        final(errors)@.len() >= old(errors)@.len(),
        forall|i: int| 0 <= i < old(errors)@.len() ==> #[trigger] final(errors)@[i] == old(errors)@[i],
        (final(errors)@.len() > old(errors)@.len()) <==> !r,
        forall|k: int|
            old(errors)@.len() <= k < final(errors)@.len() ==> error_holds(instance, sol, #[trigger] final(errors)@[k]),
        final(first)@.len() == old(first)@.len(),
        firsts_sound(final(first)@, sol, location_rank(sol, location) + 1),
        final(first)@[item@ as int] is Some,
        forall|x: int| 0 <= x < old(first)@.len() && x != item@ ==> #[trigger] final(first)@[x] == old(first)@[x],
        r <==> old(first)@[item@ as int] is None,
        !r ==> final(errors)@.len() == old(errors)@.len() + 1 && reports_duplicate(final(errors)@.last(), location),
{
    broadcast use vstd::seq_lib::group_to_multiset_ensures;
    broadcast use vstd::multiset::group_multiset_axioms;

    let ghost n = first@.len() as nat;
    let index = item.index();
    match first[index] {
        Some(previous) => {
            errors.push(SolutionValidationError::DuplicateItem { item_id: item, first: previous, duplicate: location });
            proof {
                assert(q.push(item@).to_multiset() == q.to_multiset().insert(item@));
            }
            false
        },
        None => {
            first.set(index, Some(location));
            proof {
                assert(q.push(item@).to_multiset() == q.to_multiset().insert(item@));
                assert forall|x: usize| x < n implies (#[trigger] first@[x as int] is Some <==> q.push(item@).to_multiset().count(x) > 0) by {
                    if x != item@ {
                        assert(first@[x as int] == old(first)@[x as int]);
                    }
                }
            }
            true
        },
    }
}

/// Check a solution against an instance: `Ok` exactly when it is valid; every
/// violation is reported otherwise.
pub fn check_solution(instance: &PackingInstance, solution: &Solution) -> (r: Result<(), SolutionValidationErrors>)
    ensures
        r.is_ok() <==> solution_valid(*instance, solution@),
        r matches Err(e) ==> e.error_seq().len() > 0,
        r matches Err(e) ==> forall|k: int|
            0 <= k < e.error_seq().len() ==> error_holds(*instance, solution@, #[trigger] e.error_seq()[k]),
        r matches Err(e) ==> violations_reported(*instance, solution@, e.error_seq()),
{
    broadcast use vstd::seq_lib::group_to_multiset_ensures;
    broadcast use vstd::multiset::group_multiset_axioms;

    proof {
        use_type_invariant(instance);
    }
    let ghost cs = instance.container_views();
    let ghost is = instance.item_views();
    let ghost sv = solution@;
    let placements = solution.placements();
    let unplaced = solution.unplaced_items();
    let np = placements.len();
    let mut errors: Vec<SolutionValidationError> = Vec::new();
    let mut valid: Vec<bool> = Vec::new();
    let mut i: usize = 0;
    while i < np
        invariant
            np == sv.0.len(),
            forall|k: int| 0 <= k < placements@.len() ==> #[trigger] placements@[k]@ == sv.0[k],
            placements@.len() == np,
            0 <= i <= np,
            valid@.len() == i,
            forall|k: int| 0 <= k < i ==> #[trigger] valid@[k] == placement_valid(cs, is, sv.0[k]),
            cs == instance.container_views(),
            is == instance.item_views(),
            errors@.len() == 0 <==> forall|k: int| 0 <= k < i ==> #[trigger] valid@[k],
            forall|k: int| 0 <= k < errors@.len() ==> error_holds(*instance, sv, #[trigger] errors@[k]),
            forall|k: int| 0 <= k < i ==> placement_reported(cs, is, k as usize, #[trigger] sv.0[k], errors@),
        decreases np - i,
    {
        let ghost before = errors@.len();
        let ghost old_valid = valid@;
        let ghost old_errors = errors@;
        let ok = check_placement(instance, i, placements[i], &mut errors);
        proof {
            lemma_prefix_grows(old_errors, errors@);
            assert forall|k: int| 0 <= k < i + 1 implies placement_reported(cs, is, k as usize, #[trigger] sv.0[k], errors@) by {
                if k < i {
                    lemma_placement_reported_grows(cs, is, k as usize, sv.0[k], old_errors, errors@);
                } else {
                    assert(placements@[i as int]@ == sv.0[i as int]);
                }
            }
        }
        proof {
            assert forall|k: int| 0 <= k < errors@.len() implies error_holds(*instance, sv, #[trigger] errors@[k]) by {
                if k < old_errors.len() {
                    assert(errors@[k] == old_errors[k]);
                } else {
                    assert(placements@[i as int]@ == sv.0[i as int]);
                    assert(placement_error_holds(cs, is, i, sv.0[i as int], errors@[k]));
                }
            }
        }
        valid.push(ok);
        assert(forall|k: int| 0 <= k < i ==> old_valid[k] == #[trigger] valid@[k]);
        proof {
            assert(placements@[i as int]@ == sv.0[i as int]);
            assert(valid@[i as int] == ok);
            if errors@.len() == 0 {
                assert forall|k: int| 0 <= k < i + 1 implies #[trigger] valid@[k] by {
                    if k < i {
                        assert(before == 0);
                    }
                }
            }
            if forall|k: int| 0 <= k < i + 1 ==> #[trigger] valid@[k] {
                assert forall|k: int| 0 <= k < i implies #[trigger] old_valid[k] by {
                    assert(valid@[k]);
                }
                assert(before == 0);
                assert(valid@[i as int]);
                assert(errors@.len() == before);
            }
        }
        i = i + 1;
    }
    let phase_one_clean = errors.len() == 0;
    let ghost errors_one = errors@.len();
    let ghost errors_one_seq = errors@;
    let mut i: usize = 0;
    while i < np
        invariant
            np == sv.0.len(),
            forall|k: int| 0 <= k < placements@.len() ==> #[trigger] placements@[k]@ == sv.0[k],
            placements@.len() == np,
            valid@.len() == np,
            forall|k: int| 0 <= k < np ==> #[trigger] valid@[k] == placement_valid(cs, is, sv.0[k]),
            0 <= i <= np,
            errors@.len() >= errors_one,
            phase_one_clean <==> forall|k: int| 0 <= k < np ==> #[trigger] valid@[k],
            phase_one_clean <==> errors_one == 0,
            phase_one_clean ==> (errors@.len() == errors_one <==> forall|a: int, b: int|
                0 <= a < b < np && a < i && (#[trigger] sv.0[a]).0 == (#[trigger] sv.0[b]).0 ==> !extents_overlap(
                    placement_extents(sv.0[a]).unwrap(),
                    placement_extents(sv.0[b]).unwrap(),
                )),
            forall|k: int| 0 <= k < errors@.len() ==> error_holds(*instance, sv, #[trigger] errors@[k]),
            errors_one_seq.len() <= errors@.len(),
            forall|k: int| 0 <= k < errors_one_seq.len() ==> #[trigger] errors@[k] == errors_one_seq[k],
            overlaps_reported_before(cs, is, sv.0, errors@, i as int, 0),
        decreases np - i,
    {
        let mut j: usize = i + 1;
        let ghost errors_at_i = errors@.len();
        while j < np
            invariant
                np == sv.0.len(),
                forall|k: int| 0 <= k < placements@.len() ==> #[trigger] placements@[k]@ == sv.0[k],
                placements@.len() == np,
                valid@.len() == np,
                forall|k: int| 0 <= k < np ==> #[trigger] valid@[k] == placement_valid(cs, is, sv.0[k]),
                0 <= i < np,
                i + 1 <= j <= np,
                errors@.len() >= errors_at_i,
                phase_one_clean <==> forall|k: int| 0 <= k < np ==> #[trigger] valid@[k],
                phase_one_clean ==> (errors@.len() == errors_at_i <==> forall|b: int|
                    i < b < j && sv.0[i as int].0 == (#[trigger] sv.0[b]).0 ==> !extents_overlap(
                        placement_extents(sv.0[i as int]).unwrap(),
                        placement_extents(sv.0[b]).unwrap(),
                    )),
                forall|k: int| 0 <= k < errors@.len() ==> error_holds(*instance, sv, #[trigger] errors@[k]),
                errors_one_seq.len() <= errors@.len(),
                forall|k: int| 0 <= k < errors_one_seq.len() ==> #[trigger] errors@[k] == errors_one_seq[k],
                overlaps_reported_before(cs, is, sv.0, errors@, i as int, j as int),
            decreases np - j,
        {
            let ghost old_errors = errors@;
            if valid[i] && valid[j] {
                let a = placements[i];
                let b = placements[j];
                if a.container_id().index() == b.container_id().index() {
                    let ea = crate::solver::constructive::Extents::from_bounds(a.bounds());
                    let eb = crate::solver::constructive::Extents::from_bounds(b.bounds());
                    match (ea, eb) {
                        (Ok(ea), Ok(eb)) => {
                            if ea.overlaps(eb) {
                                errors.push(SolutionValidationError::Overlap {
                                    container_id: a.container_id(),
                                    first_placement: i,
                                    second_placement: j,
                                });
                                proof {
                                    assert(placements@[i as int]@ == sv.0[i as int]);
                                    assert(placements@[j as int]@ == sv.0[j as int]);
                                    assert(placement_extents(sv.0[i as int]) == placement_extents((0, 0, a@.2)));
                                    assert(placement_extents(sv.0[j as int]) == placement_extents((0, 0, b@.2)));
                                    assert forall|k: int| 0 <= k < errors@.len() implies error_holds(
                                        *instance,
                                        sv,
                                        #[trigger] errors@[k],
                                    ) by {
                                        if k < old_errors.len() {
                                            assert(errors@[k] == old_errors[k]);
                                        }
                                    }
                                }
                            }
                        },
                        _ => {},
                    }
                }
            }
            proof {
                lemma_prefix_grows(old_errors, errors@);
                lemma_overlaps_grow(cs, is, sv.0, old_errors, errors@, i as int, j as int);
                assert(overlaps_reported_before(cs, is, sv.0, errors@, i as int, j + 1)) by {
                    assert forall|a: int, b: int|
                        0 <= a < b < sv.0.len() && (a < i || (a == i && b < j + 1)) && placement_valid(
                            cs,
                            is,
                            #[trigger] sv.0[a],
                        ) && placement_valid(cs, is, #[trigger] sv.0[b]) && sv.0[a].0 == sv.0[b].0 && extents_overlap(
                            placement_extents(sv.0[a]).unwrap(),
                            placement_extents(sv.0[b]).unwrap(),
                        ) implies overlap_reported(errors@, a, b) by {
                        if a == i && b == j {
                            assert(valid@[a] && valid@[b]);
                            assert(placements@[a]@ == sv.0[a] && placements@[b]@ == sv.0[b]);
                            let e = errors@.last();
                            assert(errors@.contains(e));
                            assert(reports_overlap(e, a, b));
                        }
                    }
                }
            }
            j = j + 1;
        }
        proof {
            if phase_one_clean {
                assert(errors@.len() == errors_one <==> forall|a: int, b: int|
                    0 <= a < b < np && a < i + 1 && (#[trigger] sv.0[a]).0 == (#[trigger] sv.0[b]).0 ==> !extents_overlap(
                        placement_extents(sv.0[a]).unwrap(),
                        placement_extents(sv.0[b]).unwrap(),
                    )) by {
                    if errors@.len() == errors_one {
                        assert(errors@.len() == errors_at_i);
                    } else if errors_at_i == errors_one {
                        let b = choose|b: int| i < b < np && sv.0[i as int].0 == (#[trigger] sv.0[b]).0 && extents_overlap(
                            placement_extents(sv.0[i as int]).unwrap(),
                            placement_extents(sv.0[b]).unwrap(),
                        );
                        assert(sv.0[i as int].0 == sv.0[b].0);
                    }
                }
            }
            assert(overlaps_reported_before(cs, is, sv.0, errors@, i + 1, 0)) by {
                assert forall|a: int, b: int|
                    0 <= a < b < sv.0.len() && (a < i + 1 || (a == i + 1 && b < 0)) && placement_valid(
                        cs,
                        is,
                        #[trigger] sv.0[a],
                    ) && placement_valid(cs, is, #[trigger] sv.0[b]) && sv.0[a].0 == sv.0[b].0 && extents_overlap(
                        placement_extents(sv.0[a]).unwrap(),
                        placement_extents(sv.0[b]).unwrap(),
                    ) implies overlap_reported(errors@, a, b) by {
                    assert(a < i || (a == i && b < np));
                }
            }
        }
        i = i + 1;
    }
    let ghost errors_two_seq = errors@;
    let phase_two_clean = errors.len() == 0;
    let ni = instance.items().len();
    let mut first: Vec<Option<ItemLocation>> = Vec::new();
    let mut k: usize = 0;
    while k < ni
        invariant
            0 <= k <= ni,
            first@.len() == k,
            forall|x: int| 0 <= x < k ==> #[trigger] first@[x] is None,
        decreases ni - k,
    {
        first.push(None);
        k = k + 1;
    }
    let ghost occ = item_occurrences(sv);
    let ghost mut q: Seq<usize> = Seq::empty();
    let mut coverage_clean = true;
    let mut i: usize = 0;
    proof {
        assert(occ.take(0) =~= Seq::<usize>::empty());
        vstd::seq_lib::to_multiset_len(q);
        vstd::multiset::lemma_multiset_empty_len(q.to_multiset());
        if phase_two_clean {
            assert(errors_one == 0);
            assert(phase_one_clean);
            assert forall|k: int| 0 <= k < np implies placement_valid(cs, is, #[trigger] sv.0[k]) by {
                assert(valid@[k]);
            }
        }
    }
    while i < np
        invariant
            np == sv.0.len(),
            forall|k: int| 0 <= k < placements@.len() ==> #[trigger] placements@[k]@ == sv.0[k],
            placements@.len() == np,
            ni == is.len(),
            is == instance.item_views(),
            occ == item_occurrences(sv),
            occ.len() == np + sv.1.len(),
            0 <= i <= np,
            phase_two_clean ==> forall|k: int| 0 <= k < np ==> placement_valid(cs, is, #[trigger] sv.0[k]),
            coverage_state(q, first@, ni as nat),
            phase_two_clean ==> q == occ.take(i as int),
            phase_two_clean ==> (coverage_clean <==> forall|x: usize| (#[trigger] q.to_multiset().count(x)) <= 1),
            phase_two_clean ==> (errors@.len() == 0 <==> coverage_clean),
            !phase_two_clean ==> errors@.len() > 0,
            first@.len() == ni,
            forall|k: int| 0 <= k < errors@.len() ==> error_holds(*instance, sv, #[trigger] errors@[k]),
            firsts_sound(first@, sv, i as int),
            missing_sound(first@, occ, i as int),
            errors_two_seq.len() <= errors@.len(),
            forall|k: int| 0 <= k < errors_two_seq.len() ==> #[trigger] errors@[k] == errors_two_seq[k],
            seen_sound(first@, occ, i as int),
            duplicates_reported_before(sv, ni as nat, errors@, i as int),
        decreases np - i,
    {
        let ghost old_first = first@;
        let ghost errors_before_item = errors@;
        let item = placements[i].item_id();
        proof {
            assert(occ.take(i + 1) =~= occ.take(i as int).push(occ[i as int]));
            assert(occ[i as int] == sv.0[i as int].1);
            assert(placements@[i as int]@ == sv.0[i as int]);
        }
        if item.index() < ni {
            let ghost was_clean = coverage_clean;
            let ghost old_errors = errors@;
            let fresh = note_item(&mut first, item, ItemLocation::Placed(i), &mut errors, Ghost(q), Ghost(*instance), Ghost(sv));
            if !fresh {
                coverage_clean = false;
            }
            proof {
                if phase_two_clean && !was_clean {
                    let y = choose|y: usize| (#[trigger] q.to_multiset().count(y)) > 1;
                    vstd::seq_lib::to_multiset_build(q, item@);
                    assert(q.push(item@).to_multiset().count(y) > 1);
                }
                vstd::seq_lib::to_multiset_build(q, item@);
                if phase_two_clean && fresh && coverage_clean {
                    assert forall|x: usize| (#[trigger] q.push(item@).to_multiset().count(x)) <= 1 by {
                        assert(q.to_multiset().count(x) <= 1);
                    }
                }
                if phase_two_clean && !fresh {
                    assert(q.push(item@).to_multiset().count(item@) > 1);
                }
                q = q.push(item@);
            }
        } else {
            proof {
                if phase_two_clean {
                    assert(placement_valid(cs, is, sv.0[i as int]));
                }
            }
        }
        proof {
            lemma_coverage_step(sv, ni as nat, old_first, first@, errors_before_item, errors@, i as int, ItemLocation::Placed(i));
        }
        i = i + 1;
    }
    let nu = unplaced.len();
    let mut u: usize = 0;
    while u < nu
        invariant
            np == sv.0.len(),
            nu == sv.1.len(),
            forall|k: int| 0 <= k < unplaced@.len() ==> #[trigger] unplaced@[k]@ == sv.1[k],
            unplaced@.len() == nu,
            ni == is.len(),
            is == instance.item_views(),
            occ == item_occurrences(sv),
            occ.len() == np + nu,
            0 <= u <= nu,
            coverage_state(q, first@, ni as nat),
            phase_two_clean ==> q == occ.take(np + u),
            phase_two_clean ==> (coverage_clean <==> (forall|x: usize| (#[trigger] q.to_multiset().count(x)) <= 1) && forall|k: int| 0 <= k < u ==> (#[trigger] sv.1[k]) < ni),
            phase_two_clean ==> (errors@.len() == 0 <==> coverage_clean),
            !phase_two_clean ==> errors@.len() > 0,
            first@.len() == ni,
            forall|k: int| 0 <= k < errors@.len() ==> error_holds(*instance, sv, #[trigger] errors@[k]),
            firsts_sound(first@, sv, np + u),
            missing_sound(first@, occ, np + u),
            errors_two_seq.len() <= errors@.len(),
            forall|k: int| 0 <= k < errors_two_seq.len() ==> #[trigger] errors@[k] == errors_two_seq[k],
            seen_sound(first@, occ, np + u),
            duplicates_reported_before(sv, ni as nat, errors@, np + u),
            unknown_reported_before(sv, ni as nat, errors@, u as int),
        decreases nu - u,
    {
        let ghost old_first = first@;
        let ghost errors_before_item = errors@;
        let item = unplaced[u];
        proof {
            assert(occ.take(np + u + 1) =~= occ.take(np + u).push(occ[np + u]));
            assert(occ[np + u] == sv.1[u as int]);
            assert(unplaced@[u as int]@ == sv.1[u as int]);
        }
        if item.index() < ni {
            let ghost was_clean = coverage_clean;
            let ghost old_errors = errors@;
            let fresh = note_item(&mut first, item, ItemLocation::Unplaced(u), &mut errors, Ghost(q), Ghost(*instance), Ghost(sv));
            if !fresh {
                coverage_clean = false;
            }
            proof {
                if phase_two_clean && !was_clean {
                    vstd::seq_lib::to_multiset_build(q, item@);
                    if !(forall|y: usize| (#[trigger] q.to_multiset().count(y)) <= 1) {
                        let y = choose|y: usize| (#[trigger] q.to_multiset().count(y)) > 1;
                        assert(q.push(item@).to_multiset().count(y) > 1);
                    } else {
                        let k = choose|k: int| 0 <= k < u && (#[trigger] sv.1[k]) >= ni;
                        assert(0 <= k < u + 1 && sv.1[k] >= ni);
                    }
                }
                vstd::seq_lib::to_multiset_build(q, item@);
                if phase_two_clean && fresh && coverage_clean {
                    assert forall|x: usize| (#[trigger] q.push(item@).to_multiset().count(x)) <= 1 by {
                        assert(q.to_multiset().count(x) <= 1);
                    }
                }
                if phase_two_clean && !fresh {
                    assert(q.push(item@).to_multiset().count(item@) > 1);
                }
                q = q.push(item@);
            }
        } else {
            errors.push(SolutionValidationError::UnknownUnplacedItem { unplaced_index: u, item_id: item });
            coverage_clean = false;
            proof {
                vstd::seq_lib::to_multiset_build(q, item@);
                assert forall|x: usize| x < ni implies (#[trigger] first@[x as int] is Some <==> q.push(item@).to_multiset().count(x) > 0) by {
                    assert(x != item@);
                }
                q = q.push(item@);
            }
        }
        proof {
            lemma_coverage_step(
                sv,
                ni as nat,
                old_first,
                first@,
                errors_before_item,
                errors@,
                np + u,
                ItemLocation::Unplaced(u),
            );
            lemma_prefix_grows(errors_before_item, errors@);
            lemma_coverage_reports_grow(sv, ni as nat, errors_before_item, errors@, 0, u as int);
            if sv.1[u as int] >= ni {
                let e = errors@.last();
                assert(errors@.contains(e));
                assert(reports_unknown_unplaced(e, u as int));
            }
        }
        u = u + 1;
    }
    proof {
        assert(occ.take(np + nu) =~= occ);
    }
    let ghost errors_three_seq = errors@;
    let mut x: usize = 0;
    let ghost errors_before_missing = errors@.len();
    while x < ni
        invariant
            0 <= x <= ni,
            ni == is.len(),
            first@.len() == ni,
            occ == item_occurrences(sv),
            phase_two_clean ==> coverage_state(occ, first@, ni as nat),
            errors@.len() >= errors_before_missing,
            errors@.len() == errors_before_missing <==> forall|y: int| 0 <= y < x ==> #[trigger] first@[y] is Some,
            forall|k: int| 0 <= k < errors@.len() ==> error_holds(*instance, sv, #[trigger] errors@[k]),
            missing_sound(first@, occ, occ.len() as int),
            is == instance.item_views(),
            firsts_sound(first@, sv, occ.len() as int),
            errors_three_seq.len() <= errors@.len(),
            forall|k: int| 0 <= k < errors_three_seq.len() ==> #[trigger] errors@[k] == errors_three_seq[k],
            missing_reported_before(sv, errors@, x as int),
        decreases ni - x,
    {
        let ghost errors_before_x = errors@;
        if first[x].is_none() {
            let ghost old_errors = errors@;
            errors.push(SolutionValidationError::MissingItem { item_id: ItemId(x) });
            proof {
                assert forall|k: int| 0 <= k < errors@.len() implies error_holds(*instance, sv, #[trigger] errors@[k]) by {
                    if k < old_errors.len() {
                        assert(errors@[k] == old_errors[k]);
                    } else {
                        assert(first@[x as int] is None);
                        assert(!occ.contains(x)) by {
                            if occ.contains(x) {
                                let j = choose|j: int| 0 <= j < occ.len() && occ[j] == x;
                                assert(occ[j] != x as int);
                            }
                        }
                        assert(errors@[k] == SolutionValidationError::MissingItem { item_id: ItemId(x) });
                        assert(ItemId(x)@ == x);
                        assert(x < is.len());
                    }
                }
            }
        }
        proof {
            lemma_prefix_grows(errors_before_x, errors@);
            assert forall|y: usize| y < x + 1 && !item_occurrences(sv).contains(y) implies #[trigger] missing_reported(
                errors@,
                y,
            ) by {
                if y < x {
                    assert(missing_reported(errors_before_x, y));
                    let e = choose|e: SolutionValidationError| #[trigger] errors_before_x.contains(e) && reports_missing(e, y);
                    assert(errors@.contains(e));
                } else {
                    if first@[x as int] is Some {
                        let l = first@[x as int].unwrap();
                        lemma_location_occurrence(sv, l, x);
                        assert(occ[location_rank(sv, l)] == x);
                        assert(occ.contains(x));
                    }
                    let e = errors@.last();
                    assert(errors@.contains(e));
                    assert(reports_missing(e, y));
                }
            }
        }
        x = x + 1;
    }
    proof {
        if phase_two_clean && errors@.len() == 0 {
            assert forall|y: usize| #[trigger] occ.to_multiset().count(y) == all_positions(ni as nat).to_multiset().count(y) by {
                lemma_all_positions_count(ni as nat, y);
                if y < ni {
                    assert(first@[y as int] is Some);
                } else {
                    if occ.to_multiset().count(y) > 0 {
                        assert(occ.contains(y));
                        let k = choose|k: int| 0 <= k < occ.len() && occ[k] == y;
                        if k < np {
                            assert(placement_valid(cs, is, sv.0[k]));
                            assert(occ[k] == sv.0[k].1);
                        } else {
                            assert(sv.1[k - np] < ni);
                        }
                    }
                }
            }
            assert(occ.to_multiset() =~= all_positions(ni as nat).to_multiset());
        }
        if solution_valid(*instance, sv) {
            assert(phase_one_clean);
            assert(phase_two_clean);
            assert forall|y: usize| (#[trigger] occ.to_multiset().count(y)) <= 1 by {
                lemma_all_positions_count(ni as nat, y);
            }
            assert forall|k: int| 0 <= k < nu implies (#[trigger] sv.1[k]) < ni by {
                assert(occ[np + k] == sv.1[k]);
                assert(occ.contains(sv.1[k]));
                lemma_all_positions_count(ni as nat, sv.1[k]);
            }
            assert forall|y: int| 0 <= y < ni implies #[trigger] first@[y] is Some by {
                lemma_all_positions_count(ni as nat, y as usize);
            }
        }
    }
    proof {
        lemma_prefix_grows(errors_one_seq, errors_two_seq);
        lemma_prefix_grows(errors_two_seq, errors_three_seq);
        lemma_prefix_grows(errors_three_seq, errors@);
        assert(errors_grow(errors_one_seq, errors@));
        assert(errors_grow(errors_two_seq, errors@));
        assert forall|k: int| 0 <= k < np implies placement_reported(cs, is, k as usize, #[trigger] sv.0[k], errors@) by {
            lemma_placement_reported_grows(cs, is, k as usize, sv.0[k], errors_one_seq, errors@);
        }
        lemma_overlaps_grow(cs, is, sv.0, errors_two_seq, errors@, np as int, 0);
        lemma_coverage_reports_grow(sv, ni as nat, errors_three_seq, errors@, occ.len() as int, nu as int);
        assert(violations_reported(*instance, sv, errors@)) by {
            assert forall|a: int, b: int|
                0 <= a < b < sv.0.len() && placement_valid(cs, is, #[trigger] sv.0[a]) && placement_valid(
                    cs,
                    is,
                    #[trigger] sv.0[b],
                ) && sv.0[a].0 == sv.0[b].0 && extents_overlap(
                    placement_extents(sv.0[a]).unwrap(),
                    placement_extents(sv.0[b]).unwrap(),
                ) implies overlap_reported(errors@, a, b) by {
                assert(a < np);
            }
        }
    }
    if errors.len() == 0 {
        Ok(())
    } else {
        Err(SolutionValidationErrors(errors))
    }
}

/// One more occurrence processed: its item is recorded when known, a repeat
/// of a known item is reported, and earlier reports stay.
proof fn lemma_coverage_step(
    sol: (Seq<PlacementView>, Seq<usize>),
    n: nat,
    first0: Seq<Option<ItemLocation>>,
    first1: Seq<Option<ItemLocation>>,
    errs0: Seq<SolutionValidationError>,
    errs1: Seq<SolutionValidationError>,
    r: int,
    location: ItemLocation,
)
    requires
        first0.len() == n,
        first1.len() == n,
        0 <= r < item_occurrences(sol).len(),
        location == location_at(sol, r),
        location_item(sol, location) == Some(item_occurrences(sol)[r]),
        seen_sound(first0, item_occurrences(sol), r),
        duplicates_reported_before(sol, n, errs0, r),
        errs0.len() <= errs1.len(),
        forall|k: int| 0 <= k < errs0.len() ==> #[trigger] errs1[k] == errs0[k],
        item_occurrences(sol)[r] < n ==> {
            &&& first1[item_occurrences(sol)[r] as int] is Some
            &&& forall|x: int| 0 <= x < n && x != item_occurrences(sol)[r] ==> #[trigger] first1[x] == first0[x]
            &&& first0[item_occurrences(sol)[r] as int] is Some ==> reports_duplicate(errs1.last(), location)
                && errs1.len() == errs0.len() + 1
        },
        item_occurrences(sol)[r] >= n ==> first1 == first0,
    ensures
        seen_sound(first1, item_occurrences(sol), r + 1),
        duplicates_reported_before(sol, n, errs1, r + 1),
{
    let occ = item_occurrences(sol);
    let item = occ[r];
    lemma_prefix_grows(errs0, errs1);
    lemma_coverage_reports_grow(sol, n, errs0, errs1, r, 0);
    assert forall|j: int| 0 <= j < r + 1 && #[trigger] occ[j] < first1.len() implies first1[occ[j] as int] is Some by {
        if j < r {
            assert(first0[occ[j] as int] is Some);
        }
    }
    assert forall|rr: int|
        0 <= rr < r + 1 && occ[rr] < n && #[trigger] occ.take(rr).contains(occ[rr]) implies duplicate_reported(
        errs1,
        location_at(sol, rr),
    ) by {
        if rr == r {
            let j = choose|j: int| 0 <= j < occ.take(r).len() && occ.take(r)[j] == item;
            assert(occ[j] == item);
            assert(first0[item as int] is Some);
            assert(errs1.contains(errs1.last()));
        }
    }
}

/// `x`, capped at the largest `u128`.
pub open spec fn saturate(x: int) -> int {
    if x > u128::MAX {
        u128::MAX as int
    } else {
        x
    }
}

/// Total volume of the listed items.
pub open spec fn items_volume(items: Seq<RecordView>, ids: Seq<usize>) -> int
    decreases ids.len(),
{
    if ids.len() == 0 {
        0
    } else {
        items_volume(items, ids.drop_last()) + sides_volume(items[ids.last() as int].2)
    }
}

/// The placements in container `c`.
pub open spec fn in_container(ps: Seq<PlacementView>, c: int) -> Seq<PlacementView> {
    ps.filter(|p: PlacementView| p.0 == c)
}

/// Largest far end on each axis over the placements in container `c` (zero when empty).
pub open spec fn container_reach(ps: Seq<PlacementView>, c: int) -> (int, int, int)
    decreases ps.len(),
{
    if ps.len() == 0 {
        (0, 0, 0)
    } else {
        let r = container_reach(ps.drop_last(), c);
        let p = ps.last();
        if p.0 == c {
            let e = placement_extents(p).unwrap();
            (
                if e.x_max > r.0 { e.x_max as int } else { r.0 },
                if e.y_max > r.1 { e.y_max as int } else { r.1 },
                if e.z_max > r.2 { e.z_max as int } else { r.2 },
            )
        } else {
            r
        }
    }
}

/// Number of containers below `n` holding at least one placement.
pub open spec fn used_containers(ps: Seq<PlacementView>, n: int) -> int
    decreases n,
{
    if n <= 0 {
        0
    } else {
        used_containers(ps, n - 1) + if in_container(ps, n - 1).len() > 0 { 1int } else { 0 }
    }
}

/// Sum over containers below `n` of the volume of the box from the origin to
/// their placements' far ends.
pub open spec fn bounding_total(ps: Seq<PlacementView>, n: int) -> int
    decreases n,
{
    if n <= 0 {
        0
    } else {
        let r = container_reach(ps, n - 1);
        bounding_total(ps, n - 1) + r.0 * r.1 * r.2
    }
}

/// Sum over the first `k` placements of their bottom area resting on neither
/// the floor nor another box in the same container.
pub open spec fn unsupported_total(ps: Seq<PlacementView>, k: int) -> int
    decreases k,
{
    if k <= 0 {
        0
    } else {
        unsupported_total(ps, k - 1) + unsupported_spec(
            placement_extents(ps[k - 1]).unwrap(),
            in_container(ps, ps[k - 1].0 as int),
        )
    }
}

/// Tie-break key: for each item in input order, `[1, container, x, y, z, w, l, h]`
/// when placed (by its first placement) and `[0]` when not.
pub open spec fn deterministic_key(ps: Seq<PlacementView>, n: int) -> Seq<u64>
    decreases n,
{
    if n <= 0 {
        seq![]
    } else {
        deterministic_key(ps, n - 1) + item_key(ps, (n - 1) as usize)
    }
}

/// Index of the first placement of `item`, if any.
pub open spec fn first_placement(ps: Seq<PlacementView>, item: usize) -> Option<int>
    decreases ps.len(),
{
    if ps.len() == 0 {
        None
    } else {
        match first_placement(ps.drop_last(), item) {
            Some(i) => Some(i),
            None => if ps.last().1 == item {
                Some(ps.len() - 1)
            } else {
                None
            },
        }
    }
}

/// Key entries of one item.
pub open spec fn item_key(ps: Seq<PlacementView>, item: usize) -> Seq<u64> {
    match first_placement(ps, item) {
        Some(i) => {
            let p = ps[i];
            seq![1u64, p.0 as u64, p.2.0.0, p.2.0.1, p.2.0.2, p.2.1.0, p.2.1.1, p.2.1.2]
        },
        None => seq![0u64],
    }
}

/// Aggregate measures of an independently valid solution.
#[derive(Clone, Debug, Eq, PartialEq)]
pub struct SolutionSummary {
    placed_item_count: usize,
    unplaced_item_count: usize,
    placed_volume: u128,
    unplaced_volume: u128,
    used_container_count: usize,
    unsupported_area: u128,
    bounding_volume: u128,
    deterministic_key: Vec<u64>,
}

/// Counts, volumes, support, compactness and tie-break key of a summary.
pub struct SummaryView {
    pub placed_item_count: int,
    pub unplaced_item_count: int,
    pub placed_volume: int,
    pub unplaced_volume: int,
    pub used_container_count: int,
    pub unsupported_area: int,
    pub bounding_volume: int,
    pub deterministic_key: Seq<u64>,
}

impl View for SolutionSummary {
    type V = SummaryView;

    closed spec fn view(&self) -> SummaryView {
        SummaryView {
            placed_item_count: self.placed_item_count as int,
            unplaced_item_count: self.unplaced_item_count as int,
            placed_volume: self.placed_volume as int,
            unplaced_volume: self.unplaced_volume as int,
            used_container_count: self.used_container_count as int,
            unsupported_area: self.unsupported_area as int,
            bounding_volume: self.bounding_volume as int,
            deterministic_key: self.deterministic_key@,
        }
    }
}

/// The summary of a solution as its definition gives it.
pub open spec fn summary_spec(instance: PackingInstance, sol: (Seq<PlacementView>, Seq<usize>)) -> SummaryView {
    let ps = sol.0;
    let items = instance.item_views();
    let nc = instance.container_views().len() as int;
    SummaryView {
        placed_item_count: ps.len() as int,
        unplaced_item_count: sol.1.len() as int,
        placed_volume: saturate(items_volume(items, ps.map_values(|p: PlacementView| p.1))),
        unplaced_volume: saturate(items_volume(items, sol.1)),
        used_container_count: used_containers(ps, nc),
        unsupported_area: saturate(unsupported_total(ps, ps.len() as int)),
        bounding_volume: saturate(bounding_total(ps, nc)),
        deterministic_key: deterministic_key(ps, items.len() as int),
    }
}

impl SolutionSummary {
    pub fn placed_item_count(&self) -> (r: usize)
        ensures
            r == self@.placed_item_count,
    {
        self.placed_item_count
    }

    pub fn unplaced_item_count(&self) -> (r: usize)
        ensures
            r == self@.unplaced_item_count,
    {
        self.unplaced_item_count
    }

    pub fn placed_volume(&self) -> (r: u128)
        ensures
            r == self@.placed_volume,
    {
        self.placed_volume
    }

    pub fn unplaced_volume(&self) -> (r: u128)
        ensures
            r == self@.unplaced_volume,
    {
        self.unplaced_volume
    }

    pub fn used_container_count(&self) -> (r: usize)
        ensures
            r == self@.used_container_count,
    {
        self.used_container_count
    }

    pub fn unsupported_area(&self) -> (r: u128)
        ensures
            r == self@.unsupported_area,
    {
        self.unsupported_area
    }

    pub fn bounding_volume(&self) -> (r: u128)
        ensures
            r == self@.bounding_volume,
    {
        self.bounding_volume
    }

    pub fn deterministic_key(&self) -> (r: &[u64])
        ensures
            r@ == self@.deterministic_key,
    {
        self.deterministic_key.as_slice()
    }
}

/// Add with saturation at the largest `u128`.
fn saturating_total(a: u128, b: u128) -> (r: u128)
    ensures
        r == saturate(a + b),
{
    a.saturating_add(b)
}

/// Saturating running totals agree with the saturated exact total.
proof fn lemma_saturate_step(partial: int, term: int)
    requires
        partial >= 0,
        term >= 0,
    ensures
        saturate(saturate(partial) + term) == saturate(partial + term),
{
}

/// Total volume of the items named by `ids`, saturated.
fn volume_of(instance: &PackingInstance, Ghost(ids): Ghost<Seq<usize>>, placed: &[crate::solution::Placement], unplaced: &[ItemId], use_placed: bool) -> (r: u128)
    requires
        use_placed ==> ids == placed@.map_values(|p: crate::solution::Placement| p@.1),
        !use_placed ==> ids == unplaced@.map_values(|i: ItemId| i@),
        forall|k: int| 0 <= k < ids.len() ==> (#[trigger] ids[k]) < instance.item_views().len(),
    ensures
        r == saturate(items_volume(instance.item_views(), ids)),
{
    proof {
        use_type_invariant(instance);
    }
    let ghost items = instance.item_views();
    let n = if use_placed { placed.len() } else { unplaced.len() };
    assert(n == ids.len());
    let mut total: u128 = 0;
    let mut k: usize = 0;
    assert(ids.take(0) =~= Seq::<usize>::empty());
    while k < n
        invariant
            0 <= k <= n,
            n == ids.len(),
            items == instance.item_views(),
            records_wf(items),
            use_placed ==> ids == placed@.map_values(|p: crate::solution::Placement| p@.1),
            !use_placed ==> ids == unplaced@.map_values(|i: ItemId| i@),
            forall|m: int| 0 <= m < ids.len() ==> (#[trigger] ids[m]) < items.len(),
            total == saturate(items_volume(items, ids.take(k as int))),
            items_volume(items, ids.take(k as int)) >= 0,
        decreases n - k,
    {
        let id = if use_placed { placed[k].item_id() } else { unplaced[k] };
        assert(id@ == ids[k as int]);
        let volume = match instance.items()[id.index()].dimensions().checked_volume() {
            Some(v) => v,
            None => 0,
        };
        proof {
            assert(ids.take(k + 1).drop_last() =~= ids.take(k as int));
            assert(ids.take(k + 1).last() == id@);
            assert(sides_volume(items[id@ as int].2) <= u128::MAX);
            assert(sides_volume(items[id@ as int].2) >= 0) by (nonlinear_arith)
                requires
                    sides_volume(items[id@ as int].2) == items[id@ as int].2.0 * items[id@ as int].2.1 * items[id@ as int].2.2,
            ;
            lemma_saturate_step(items_volume(items, ids.take(k as int)), volume as int);
        }
        total = saturating_total(total, volume);
        k = k + 1;
    }
    assert(ids.take(n as int) =~= ids);
    total
}

/// Number of placements in container `c` and the far ends they reach.
fn container_stats(
    instance: &PackingInstance,
    placements: &[crate::solution::Placement],
    c: usize,
    Ghost(ps): Ghost<Seq<PlacementView>>,
) -> (r: (usize, (u64, u64, u64)))
    requires
        ps == placements@.map_values(|p: crate::solution::Placement| p@),
        c < instance.container_views().len(),
        forall|i: int| 0 <= i < ps.len() ==> placement_valid(
            instance.container_views(),
            instance.item_views(),
            #[trigger] ps[i],
        ),
    ensures
        r.0 == in_container(ps, c as int).len(),
        (r.1.0 as int, r.1.1 as int, r.1.2 as int) == container_reach(ps, c as int),
        r.1.0 <= instance.container_views()[c as int].2.0,
        r.1.1 <= instance.container_views()[c as int].2.1,
        r.1.2 <= instance.container_views()[c as int].2.2,
{
    let ghost d = instance.container_views()[c as int].2;
    let mut count: usize = 0;
    let mut reach: (u64, u64, u64) = (0, 0, 0);
    let mut j: usize = 0;
    let n = placements.len();
    proof {
        reveal(Seq::filter);
        assert(ps.take(0) =~= Seq::<PlacementView>::empty());
    }
    while j < n
        invariant
            0 <= j <= n,
            n == ps.len(),
            ps == placements@.map_values(|p: crate::solution::Placement| p@),
            c < instance.container_views().len(),
            d == instance.container_views()[c as int].2,
            forall|i: int| 0 <= i < ps.len() ==> placement_valid(
                instance.container_views(),
                instance.item_views(),
                #[trigger] ps[i],
            ),
            count == in_container(ps.take(j as int), c as int).len(),
            count <= j,
            (reach.0 as int, reach.1 as int, reach.2 as int) == container_reach(ps.take(j as int), c as int),
            reach.0 <= d.0 && reach.1 <= d.1 && reach.2 <= d.2,
        decreases n - j,
    {
        let p = placements[j];
        proof {
            reveal(Seq::filter);
            assert(ps[j as int] == p@);
            assert(ps.take(j + 1).drop_last() =~= ps.take(j as int));
            assert(ps.take(j + 1).last() == p@);
            assert(placement_valid(instance.container_views(), instance.item_views(), ps[j as int]));
        }
        if p.container_id().index() == c {
            let e = match crate::solver::constructive::Extents::from_bounds(p.bounds()) {
                Ok(e) => e,
                Err(_) => crate::solver::constructive::Extents { x_min: 0, x_max: 0, y_min: 0, y_max: 0, z_min: 0, z_max: 0 },
            };
            assert(placement_extents(p@) == Some(e));
            count = count + 1;
            reach = (
                if e.x_max > reach.0 { e.x_max } else { reach.0 },
                if e.y_max > reach.1 { e.y_max } else { reach.1 },
                if e.z_max > reach.2 { e.z_max } else { reach.2 },
            );
        }
        j = j + 1;
    }
    assert(ps.take(n as int) =~= ps);
    (count, reach)
}

/// Used-container count and total bounding volume over all containers.
fn bounding_stats(
    instance: &PackingInstance,
    placements: &[crate::solution::Placement],
    Ghost(ps): Ghost<Seq<PlacementView>>,
) -> (r: (usize, u128))
    requires
        ps == placements@.map_values(|p: crate::solution::Placement| p@),
        forall|i: int| 0 <= i < ps.len() ==> placement_valid(
            instance.container_views(),
            instance.item_views(),
            #[trigger] ps[i],
        ),
    ensures
        r.0 == used_containers(ps, instance.container_views().len() as int),
        r.1 == saturate(bounding_total(ps, instance.container_views().len() as int)),
{
    proof {
        use_type_invariant(instance);
    }
    let nc = instance.containers().len();
    let mut used: usize = 0;
    let mut total: u128 = 0;
    let mut c: usize = 0;
    while c < nc
        invariant
            0 <= c <= nc,
            nc == instance.container_views().len(),
            records_wf(instance.container_views()),
            ps == placements@.map_values(|p: crate::solution::Placement| p@),
            forall|i: int| 0 <= i < ps.len() ==> placement_valid(
                instance.container_views(),
                instance.item_views(),
                #[trigger] ps[i],
            ),
            used == used_containers(ps, c as int),
            used <= c,
            total == saturate(bounding_total(ps, c as int)),
            bounding_total(ps, c as int) >= 0,
        decreases nc - c,
    {
        let (count, reach) = container_stats(instance, placements, c, Ghost(ps));
        let ghost d = instance.container_views()[c as int].2;
        proof {
            assert(sides_volume(d) <= u128::MAX);
            assert(reach.0 * reach.1 * reach.2 <= d.0 * d.1 * d.2 && reach.0 * reach.1 * reach.2 >= 0) by (nonlinear_arith)
                requires
                    0 <= reach.0 <= d.0,
                    0 <= reach.1 <= d.1,
                    0 <= reach.2 <= d.2,
            ;
        }
        let volume = match checked_volume_of(reach) {
            Some(v) => v,
            None => u128::MAX,
        };
        if count > 0 {
            used = used + 1;
        }
        proof {
            lemma_saturate_step(bounding_total(ps, c as int), volume as int);
        }
        total = saturating_total(total, volume);
        c = c + 1;
    }
    (used, total)
}

/// Product of three far ends, unless it overflows.
fn checked_volume_of(reach: (u64, u64, u64)) -> (r: Option<u128>)
    ensures
        r.is_some() <==> reach.0 * reach.1 * reach.2 <= u128::MAX,
        r matches Some(v) ==> v == reach.0 * reach.1 * reach.2,
{
    let x = reach.0 as u128;
    let y = reach.1 as u128;
    let z = reach.2 as u128;
    assert(x * y <= u64::MAX * u64::MAX) by (nonlinear_arith)
        requires
            x <= u64::MAX,
            y <= u64::MAX,
    ;
    (x * y).checked_mul(z)
}

/// Bottom area of placement `i` resting on neither the floor nor another box
/// in its container.
fn placement_unsupported(
    placements: &[crate::solution::Placement],
    i: usize,
    Ghost(ps): Ghost<Seq<PlacementView>>,
) -> (r: u128)
    requires
        ps == placements@.map_values(|p: crate::solution::Placement| p@),
        0 <= i < ps.len(),
        forall|k: int| 0 <= k < ps.len() ==> (#[trigger] placement_extents(ps[k])) is Some,
    ensures
        r == unsupported_spec(placement_extents(ps[i as int]).unwrap(), in_container(ps, ps[i as int].0 as int)),
{
    let p = placements[i];
    assert(ps[i as int] == p@);
    assert(placement_extents(ps[i as int]) is Some);
    let e = match Extents::from_bounds(p.bounds()) {
        Ok(e) => e,
        Err(_) => Extents { x_min: 0, x_max: 0, y_min: 0, y_max: 0, z_min: 0, z_max: 0 },
    };
    let c = p.container_id().index();
    let ghost cps = in_container(ps, c as int);
    let w = (e.x_max - e.x_min) as u128;
    let l = (e.y_max - e.y_min) as u128;
    assert(w * l <= u64::MAX * u64::MAX) by (nonlinear_arith)
        requires
            w <= u64::MAX,
            l <= u64::MAX,
    ;
    let bottom = w * l;
    if e.z_min == 0 {
        return 0;
    }
    let mut supported: u128 = 0;
    let mut j: usize = 0;
    let n = placements.len();
    proof {
        reveal(Seq::filter);
        assert(ps.take(0) =~= Seq::<PlacementView>::empty());
    }
    while j < n
        invariant
            0 <= j <= n,
            n == ps.len(),
            ps == placements@.map_values(|p: crate::solution::Placement| p@),
            forall|k: int| 0 <= k < ps.len() ==> (#[trigger] placement_extents(ps[k])) is Some,
            placement_extents(ps[i as int]) == Some(e),
            c == ps[i as int].0,
            supported == saturate(supported_area(e, in_container(ps.take(j as int), c as int))),
            supported_area(e, in_container(ps.take(j as int), c as int)) >= 0,
        decreases n - j,
    {
        let q = placements[j];
        proof {
            reveal(Seq::filter);
            assert(ps[j as int] == q@);
            assert(ps.take(j + 1).drop_last() =~= ps.take(j as int));
            assert(ps.take(j + 1).last() == q@);
            assert(placement_extents(ps[j as int]) is Some);
        }
        if q.container_id().index() == c {
            let o = match Extents::from_bounds(q.bounds()) {
                Ok(o) => o,
                Err(_) => Extents { x_min: 0, x_max: 0, y_min: 0, y_max: 0, z_min: 0, z_max: 0 },
            };
            proof {
                assert(in_container(ps.take(j + 1), c as int) =~= in_container(ps.take(j as int), c as int).push(q@));
                assert(placement_extents(q@) == Some(o));
                let prev = in_container(ps.take(j as int), c as int);
                assert(prev.push(q@).drop_last() =~= prev);
                assert(prev.push(q@).last() == q@);
            }
            if o.z_max == e.z_min {
                let ox = interval_overlap(e.x_min, e.x_max, o.x_min, o.x_max) as u128;
                let oy = interval_overlap(e.y_min, e.y_max, o.y_min, o.y_max) as u128;
                assert(ox * oy <= u64::MAX * u64::MAX && ox * oy >= 0) by (nonlinear_arith)
                    requires
                        0 <= ox <= u64::MAX,
                        0 <= oy <= u64::MAX,
                ;
                proof {
                    lemma_saturate_step(supported_area(e, in_container(ps.take(j as int), c as int)), (ox * oy) as int);
                }
                supported = saturating_total(supported, ox * oy);
            }
        } else {
            proof {
                assert(in_container(ps.take(j + 1), c as int) =~= in_container(ps.take(j as int), c as int));
            }
        }
        j = j + 1;
    }
    assert(ps.take(n as int) =~= ps);
    let capped = if supported <= bottom { supported } else { bottom };
    bottom - capped
}

/// Total unsupported bottom area over all placements, saturated.
fn unsupported_stats(
    placements: &[crate::solution::Placement],
    Ghost(ps): Ghost<Seq<PlacementView>>,
) -> (r: u128)
    requires
        ps == placements@.map_values(|p: crate::solution::Placement| p@),
        forall|k: int| 0 <= k < ps.len() ==> (#[trigger] placement_extents(ps[k])) is Some,
    ensures
        r == saturate(unsupported_total(ps, ps.len() as int)),
{
    let mut total: u128 = 0;
    let mut i: usize = 0;
    let n = placements.len();
    while i < n
        invariant
            0 <= i <= n,
            n == ps.len(),
            ps == placements@.map_values(|p: crate::solution::Placement| p@),
            forall|k: int| 0 <= k < ps.len() ==> (#[trigger] placement_extents(ps[k])) is Some,
            total == saturate(unsupported_total(ps, i as int)),
            unsupported_total(ps, i as int) >= 0,
        decreases n - i,
    {
        let u = placement_unsupported(placements, i, Ghost(ps));
        proof {
            lemma_saturate_step(unsupported_total(ps, i as int), u as int);
        }
        total = saturating_total(total, u);
        i = i + 1;
    }
    total
}

/// The option of an index as an option of an integer.
pub open spec fn index_option(o: Option<usize>) -> Option<int> {
    match o {
        Some(i) => Some(i as int),
        None => None,
    }
}

/// The tie-break key of a solution whose placed items are known.
fn key_of(
    placements: &[crate::solution::Placement],
    ni: usize,
    Ghost(ps): Ghost<Seq<PlacementView>>,
) -> (r: Vec<u64>)
    requires
        ps == placements@.map_values(|p: crate::solution::Placement| p@),
        forall|k: int| 0 <= k < ps.len() ==> (#[trigger] ps[k]).1 < ni,
    ensures
        r@ == deterministic_key(ps, ni as int),
{
    let mut location: Vec<Option<usize>> = Vec::new();
    let mut x: usize = 0;
    while x < ni
        invariant
            0 <= x <= ni,
            location@.len() == x,
            forall|y: int| 0 <= y < x ==> #[trigger] location@[y] is None,
        decreases ni - x,
    {
        location.push(None);
        x = x + 1;
    }
    let n = placements.len();
    let mut j: usize = 0;
    assert(ps.take(0) =~= Seq::<PlacementView>::empty());
    while j < n
        invariant
            0 <= j <= n,
            n == ps.len(),
            ps == placements@.map_values(|p: crate::solution::Placement| p@),
            forall|k: int| 0 <= k < ps.len() ==> (#[trigger] ps[k]).1 < ni,
            location@.len() == ni,
            forall|y: int| 0 <= y < ni ==> index_option(#[trigger] location@[y]) == first_placement(ps.take(j as int), y as usize),
        decreases n - j,
    {
        let item = placements[j].item_id().index();
        proof {
            assert(ps[j as int] == placements@[j as int]@);
            assert(ps.take(j + 1).drop_last() =~= ps.take(j as int));
            assert(ps.take(j + 1).last() == ps[j as int]);
            assert(item < ni);
        }
        if location[item].is_none() {
            location.set(item, Some(j));
        }
        proof {
            assert forall|y: int| 0 <= y < ni implies index_option(#[trigger] location@[y]) == first_placement(ps.take(j + 1), y as usize) by {
            }
        }
        j = j + 1;
    }
    assert(ps.take(n as int) =~= ps);
    let mut key: Vec<u64> = Vec::new();
    let mut x: usize = 0;
    while x < ni
        invariant
            0 <= x <= ni,
            ps == placements@.map_values(|p: crate::solution::Placement| p@),
            location@.len() == ni,
            forall|y: int| 0 <= y < ni ==> index_option(#[trigger] location@[y]) == first_placement(ps, y as usize),
            key@ == deterministic_key(ps, x as int),
        decreases ni - x,
    {
        let ghost before = key@;
        match location[x] {
            Some(k) => {
                proof {
                    assert(index_option(location@[x as int]) == first_placement(ps, x as usize));
                    lemma_first_placement_in_range(ps, x as usize);
                }
                let p = placements[k];
                assert(p@ == ps[k as int]);
                let origin = p.bounds().origin();
                let dims = p.bounds().dimensions();
                let (w, l, h) = dims.positive_sides();
                key.push(1);
                key.push(p.container_id().index() as u64);
                key.push(origin.x().get());
                key.push(origin.y().get());
                key.push(origin.z().get());
                key.push(w);
                key.push(l);
                key.push(h);
                proof {
                    assert(key@ =~= before + item_key(ps, x as usize));
                }
            },
            None => {
                key.push(0);
                proof {
                    assert(index_option(location@[x as int]) == first_placement(ps, x as usize));
                    assert(key@ =~= before + item_key(ps, x as usize));
                }
            },
        }
        x = x + 1;
    }
    key
}

/// The first placement of an item, when it exists, is a valid index.
proof fn lemma_first_placement_in_range(ps: Seq<PlacementView>, item: usize)
    ensures
        first_placement(ps, item) matches Some(i) ==> 0 <= i < ps.len() && ps[i].1 == item,
    decreases ps.len(),
{
    if ps.len() > 0 {
        lemma_first_placement_in_range(ps.drop_last(), item);
    }
}

/// Measure a valid solution.
fn summarize(instance: &PackingInstance, solution: &Solution) -> (r: SolutionSummary)
    requires
        solution_valid(*instance, solution@),
    ensures
        r@ == summary_spec(*instance, solution@),
{
    broadcast use vstd::seq_lib::group_to_multiset_ensures;

    proof {
        use_type_invariant(instance);
    }
    let ghost sv = solution@;
    let ghost ps = sv.0;
    let placements = solution.placements();
    let unplaced = solution.unplaced_items();
    let ni = instance.items().len();
    let ghost occ = item_occurrences(sv);
    proof {
        assert forall|k: int| 0 <= k < ps.len() implies (#[trigger] ps[k]).1 < ni && placement_extents(ps[k]) is Some by {
            assert(placement_valid(instance.container_views(), instance.item_views(), ps[k]));
        }
        assert forall|k: int| 0 <= k < sv.1.len() implies (#[trigger] sv.1[k]) < ni by {
            assert(occ[ps.len() + k] == sv.1[k]);
            assert(occ.contains(sv.1[k]));
            lemma_all_positions_count(ni as nat, sv.1[k]);
        }
        assert(placements@.map_values(|p: crate::solution::Placement| p@.1) =~= ps.map_values(|p: PlacementView| p.1));
    }
    let placed_volume = volume_of(instance, Ghost(ps.map_values(|p: PlacementView| p.1)), placements, unplaced, true);
    let unplaced_volume = volume_of(instance, Ghost(sv.1), placements, unplaced, false);
    let (used, bounding) = bounding_stats(instance, placements, Ghost(ps));
    let unsupported = unsupported_stats(placements, Ghost(ps));
    let key = key_of(placements, ni, Ghost(ps));
    SolutionSummary {
        placed_item_count: placements.len(),
        unplaced_item_count: unplaced.len(),
        placed_volume,
        unplaced_volume,
        used_container_count: used,
        unsupported_area: unsupported,
        bounding_volume: bounding,
        deterministic_key: key,
    }
}

/// Independently validate a candidate solution: the summary when it is
/// valid, and every violation otherwise.
pub fn validate_solution(instance: &PackingInstance, solution: &Solution) -> (r: Result<
    SolutionSummary,
    SolutionValidationErrors,
>)
    ensures
        r.is_ok() <==> solution_valid(*instance, solution@),
        r matches Ok(summary) ==> summary@ == summary_spec(*instance, solution@),
        r matches Err(e) ==> e.error_seq().len() > 0,
        r matches Err(e) ==> forall|k: int|
            0 <= k < e.error_seq().len() ==> error_holds(*instance, solution@, #[trigger] e.error_seq()[k]),
        r matches Err(e) ==> violations_reported(*instance, solution@, e.error_seq()),
{
    match check_solution(instance, solution) {
        Ok(()) => Ok(summarize(instance, solution)),
        Err(errors) => Err(errors),
    }
}

} // verus!
