//! Backend-neutral candidate solutions in exact geometry.
use vstd::prelude::*;

use crate::geometry::Aabb;
use crate::validate::{ContainerId, ItemId};

verus! {

/// Container index, item index and box of one placement.
pub type PlacementView = (usize, usize, ((u64, u64, u64), (u64, u64, u64)));

/// One proposed item placement in exact internal geometry.
#[derive(Clone, Copy, Debug, Eq, PartialEq, Structural)]
pub struct Placement {
    container_id: ContainerId,
    item_id: ItemId,
    bounds: Aabb,
}

impl View for Placement {
    type V = PlacementView;

    closed spec fn view(&self) -> PlacementView {
        (self.container_id@, self.item_id@, self.bounds@)
    }
}

impl Placement {
    pub fn new(container_id: ContainerId, item_id: ItemId, bounds: Aabb) -> (r: Placement)
        ensures
            r@ == (container_id@, item_id@, bounds@),
    {
        Placement { container_id, item_id, bounds }
    }

    pub fn container_id(self) -> (r: ContainerId)
        ensures
            r@ == self@.0,
    {
        self.container_id
    }

    pub fn item_id(self) -> (r: ItemId)
        ensures
            r@ == self@.1,
    {
        self.item_id
    }

    pub fn bounds(self) -> (r: Aabb)
        ensures
            r@ == self@.2,
    {
        self.bounds
    }
}

/// Backend-neutral candidate solution.
///
/// Constructors intentionally do not enforce coverage or geometry rules. Every
/// backend must pass its candidate through the independent validator.
#[derive(Clone, Debug, Eq, PartialEq)]
pub struct Solution {
    placements: Vec<Placement>,
    unplaced_items: Vec<ItemId>,
}

impl View for Solution {
    type V = (Seq<PlacementView>, Seq<usize>);

    closed spec fn view(&self) -> (Seq<PlacementView>, Seq<usize>) {
        (
            self.placements@.map_values(|p: Placement| p@),
            self.unplaced_items@.map_values(|i: ItemId| i@),
        )
    }
}

impl Solution {
    pub fn new(placements: Vec<Placement>, unplaced_items: Vec<ItemId>) -> (r: Solution)
        ensures
            r@ == (
                placements@.map_values(|p: Placement| p@),
                unplaced_items@.map_values(|i: ItemId| i@),
            ),
    {
        Solution { placements, unplaced_items }
    }

    pub fn placements(&self) -> (r: &[Placement])
        ensures
            r@.map_values(|p: Placement| p@) == self@.0,
            r@.len() == self@.0.len(),
            forall|i: int| 0 <= i < r@.len() ==> #[trigger] r@[i]@ == self@.0[i],
    {
        self.placements.as_slice()
    }

    pub fn unplaced_items(&self) -> (r: &[ItemId])
        ensures
            r@.map_values(|i: ItemId| i@) == self@.1,
            r@.len() == self@.1.len(),
            forall|i: int| 0 <= i < r@.len() ==> #[trigger] r@[i]@ == self@.1[i],
    {
        self.unplaced_items.as_slice()
    }
}

} // verus!
