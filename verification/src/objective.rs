//! The lexicographic objective by which validated solutions are ranked.
use vstd::prelude::*;

use crate::order::{compare_u128, compare_words, lemma_order_words_order, lex, order_int, order_words};
use crate::validate::{SolutionSummary, SummaryView};

verus! {

/// The objective's components: what is left unplaced, containers used,
/// unsupported area, bounding volume, and the deterministic tie-break key.
pub struct ObjectiveView {
    pub unplaced_volume: int,
    pub unplaced_item_count: int,
    pub used_container_count: int,
    pub unsupported_area: int,
    pub bounding_volume: int,
    pub deterministic_key: Seq<u64>,
}

/// The objective components of a solution summary.
pub open spec fn objective_of(summary: SummaryView) -> ObjectiveView {
    ObjectiveView {
        unplaced_volume: summary.unplaced_volume,
        unplaced_item_count: summary.unplaced_item_count,
        used_container_count: summary.used_container_count,
        unsupported_area: summary.unsupported_area,
        bounding_volume: summary.bounding_volume,
        deterministic_key: summary.deterministic_key,
    }
}

/// Comparison of the last three components: less unsupported area, then
/// less bounding volume, then the smaller tie-break key is better.
pub open spec fn objective_order_tail(a: ObjectiveView, b: ObjectiveView) -> int {
    lex(
        order_int(b.unsupported_area, a.unsupported_area),
        lex(
            order_int(b.bounding_volume, a.bounding_volume),
            order_words(b.deterministic_key, a.deterministic_key),
        ),
    )
}

/// Three-way comparison of objectives, positive when `a` is better: less
/// unplaced volume first, then fewer unplaced items, then fewer containers
/// used, then the tail components.
pub open spec fn objective_order(a: ObjectiveView, b: ObjectiveView) -> int {
    lex(
        order_int(b.unplaced_volume, a.unplaced_volume),
        lex(
            order_int(b.unplaced_item_count, a.unplaced_item_count),
            lex(order_int(b.used_container_count, a.used_container_count), objective_order_tail(a, b)),
        ),
    )
}

/// The objective order is a total order: antisymmetric, a tie only between
/// equal objectives, and transitive.
pub proof fn lemma_objective_order(a: ObjectiveView, b: ObjectiveView, c: ObjectiveView)
    ensures
        objective_order(a, b) == -objective_order(b, a),
        (objective_order(a, b) == 0) <==> (a == b),
        objective_order(a, b) > 0 && objective_order(b, c) > 0 ==> objective_order(a, c) > 0,
        objective_order(a, b) >= 0 && objective_order(b, c) >= 0 ==> objective_order(a, c) >= 0,
        objective_order(a, b) > 0 && objective_order(b, c) >= 0 ==> objective_order(a, c) > 0,
{
    lemma_order_words_order(a.deterministic_key, b.deterministic_key, c.deterministic_key);
    lemma_order_words_order(b.deterministic_key, a.deterministic_key, c.deterministic_key);
    lemma_order_words_order(c.deterministic_key, b.deterministic_key, a.deterministic_key);
    lemma_order_words_order(a.deterministic_key, c.deterministic_key, b.deterministic_key);
    if a.deterministic_key =~= b.deterministic_key && a.unplaced_volume == b.unplaced_volume
        && a.unplaced_item_count == b.unplaced_item_count && a.used_container_count
        == b.used_container_count && a.unsupported_area == b.unsupported_area && a.bounding_volume
        == b.bounding_volume {
        assert(a == b);
    }
}

/// The ranking priorities of the objective: less unplaced volume is better;
/// then, at equal unplaced volume, fewer unplaced items; then fewer
/// containers used; then less unsupported area; then less bounding volume.
pub proof fn lemma_objective_priorities(a: ObjectiveView, b: ObjectiveView)
    ensures
        a.unplaced_volume < b.unplaced_volume ==> objective_order(a, b) > 0,
        a.unplaced_volume == b.unplaced_volume && a.unplaced_item_count < b.unplaced_item_count ==> objective_order(
            a,
            b,
        ) > 0,
        a.unplaced_volume == b.unplaced_volume && a.unplaced_item_count == b.unplaced_item_count
            && a.used_container_count < b.used_container_count ==> objective_order(a, b) > 0,
        a.unplaced_volume == b.unplaced_volume && a.unplaced_item_count == b.unplaced_item_count
            && a.used_container_count == b.used_container_count && a.unsupported_area < b.unsupported_area
            ==> objective_order(a, b) > 0,
        a.unplaced_volume == b.unplaced_volume && a.unplaced_item_count == b.unplaced_item_count
            && a.used_container_count == b.used_container_count && a.unsupported_area == b.unsupported_area
            && a.bounding_volume < b.bounding_volume ==> objective_order(a, b) > 0,
{
}

/// Inspectable components of the provisional lexicographic objective. A
/// better objective ranks higher.
#[derive(Clone, Debug, Eq, PartialEq)]
pub struct ObjectiveValue {
    unplaced_volume: u128,
    unplaced_item_count: usize,
    used_container_count: usize,
    unsupported_area: u128,
    bounding_volume: u128,
    deterministic_key: Vec<u64>,
}

impl View for ObjectiveValue {
    type V = ObjectiveView;

    closed spec fn view(&self) -> ObjectiveView {
        ObjectiveView {
            unplaced_volume: self.unplaced_volume as int,
            unplaced_item_count: self.unplaced_item_count as int,
            used_container_count: self.used_container_count as int,
            unsupported_area: self.unsupported_area as int,
            bounding_volume: self.bounding_volume as int,
            deterministic_key: self.deterministic_key@,
        }
    }
}

impl ObjectiveValue {
    pub fn from_summary(summary: &SolutionSummary) -> (r: ObjectiveValue)
        ensures
            r@ == objective_of(summary@),
    {
        let key = summary.deterministic_key();
        let mut deterministic_key: Vec<u64> = Vec::new();
        let mut i: usize = 0;
        while i < key.len()
            invariant
                0 <= i <= key@.len(),
                deterministic_key@ == key@.take(i as int),
            decreases key@.len() - i,
        {
            deterministic_key.push(key[i]);
            i = i + 1;
            assert(deterministic_key@ =~= key@.take(i as int));
        }
        assert(key@.take(key@.len() as int) =~= key@);
        ObjectiveValue {
            unplaced_volume: summary.unplaced_volume(),
            unplaced_item_count: summary.unplaced_item_count(),
            used_container_count: summary.used_container_count(),
            unsupported_area: summary.unsupported_area(),
            bounding_volume: summary.bounding_volume(),
            deterministic_key,
        }
    }

    pub fn unplaced_volume(&self) -> (r: u128)
        ensures
            r == self@.unplaced_volume,
    {
        self.unplaced_volume
    }

    pub fn unplaced_item_count(&self) -> (r: usize)
        ensures
            r == self@.unplaced_item_count,
    {
        self.unplaced_item_count
    }

    pub fn used_container_count(&self) -> (r: usize)
        ensures
            r == self@.used_container_count,
    {
        self.used_container_count
    }

    pub fn bounding_volume(&self) -> (r: u128)
        ensures
            r == self@.bounding_volume,
    {
        self.bounding_volume
    }

    pub fn unsupported_area(&self) -> (r: u128)
        ensures
            r == self@.unsupported_area,
    {
        self.unsupported_area
    }

    /// The tie-break key: item positions and coordinates in a fixed order.
    pub fn deterministic_key(&self) -> (r: &[u64])
        ensures
            r@ == self@.deterministic_key,
    {
        self.deterministic_key.as_slice()
    }

    /// Three-way comparison: 1 when `self` is better, -1 when worse, 0 on a tie.
    pub fn compare_to(&self, other: &ObjectiveValue) -> (r: i8)
        ensures
            r == objective_order(self@, other@),
    {
        let o = compare_u128(other.unplaced_volume, self.unplaced_volume);
        if o != 0 {
            return o;
        }
        let o = compare_u128(other.unplaced_item_count as u128, self.unplaced_item_count as u128);
        if o != 0 {
            return o;
        }
        let o = compare_u128(other.used_container_count as u128, self.used_container_count as u128);
        if o != 0 {
            return o;
        }
        let o = compare_u128(other.unsupported_area, self.unsupported_area);
        if o != 0 {
            return o;
        }
        let o = compare_u128(other.bounding_volume, self.bounding_volume);
        if o != 0 {
            return o;
        }
        compare_words(other.deterministic_key.as_slice(), self.deterministic_key.as_slice())
    }

    /// Whether `self` is strictly better than `other`.
    pub fn is_better_than(&self, other: &ObjectiveValue) -> (r: bool)
        ensures
            r == (objective_order(self@, other@) > 0),
    {
        self.compare_to(other) > 0
    }
}

} // verus!
