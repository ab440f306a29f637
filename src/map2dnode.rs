//! The state of one tile, and a tile: a position with its state.
use vstd::prelude::*;

use crate::position::{Position2D, PositionKey};
use crate::sampler::{Label, MultinomialDistribution};

verus! {

/// A tile is undecided, with the distribution of labels it may still take,
/// or finalized with a label.
#[derive(Debug)]
pub enum MapNodeState {
    Undecided(MultinomialDistribution),
    Finalized(Label),
}

impl MapNodeState {
    pub fn undecided(possibilities: MultinomialDistribution) -> (r: Self)
        ensures
            r == MapNodeState::Undecided(possibilities),
    {
        MapNodeState::Undecided(possibilities)
    }

    pub fn finalized(assignment: Label) -> (r: Self)
        ensures
            r == MapNodeState::Finalized(assignment),
    {
        MapNodeState::Finalized(assignment)
    }

    pub fn is_assigned(&self) -> (r: bool)
        ensures
            r == (*self is Finalized),
    {
        match self {
            MapNodeState::Undecided(_) => false,
            MapNodeState::Finalized(_) => true,
        }
    }
}

/// A tile of a two-dimensional map.
#[derive(Debug)]
pub struct Map2DNode<P: PositionKey> {
    pub position: Position2D<P>,
    pub state: MapNodeState,
}

impl<P: PositionKey> Map2DNode<P> {
    pub fn with_possibilities(position: Position2D<P>, possibilities: MultinomialDistribution) -> (r:
        Self)
        ensures
            r.position == position,
            r.state == MapNodeState::Undecided(possibilities),
    {
        Self { position, state: MapNodeState::Undecided(possibilities) }
    }

    pub fn with_assignment(position: Position2D<P>, assignment: Label) -> (r: Self)
        ensures
            r.position == position,
            r.state == MapNodeState::Finalized(assignment),
    {
        Self { position, state: MapNodeState::Finalized(assignment) }
    }

    pub fn get_position(&self) -> (r: Position2D<P>)
        ensures
            r == self.position,
    {
        self.position
    }

    pub fn get_state(&self) -> (r: &MapNodeState)
        ensures
            *r == self.state,
    {
        &self.state
    }
}

} // verus!
