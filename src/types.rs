//! A transition rule entry: one distribution for every neighbour, or one per
//! cardinal direction.
use vstd::prelude::*;

use crate::directions::{Cardinal2dDirectionVariant, CardinallyDirected, Directions2d};
use crate::sampler::MultinomialDistribution;

verus! {

pub type DirectedMultinomialDistribution = CardinallyDirected<MultinomialDistribution>;

/// The transition distributions that a label imposes on its neighbours.
#[derive(Debug)]
pub enum PossiblyDirectedMultinomialDistribution {
    Directed(DirectedMultinomialDistribution),
    Undirected(MultinomialDistribution),
}

/// The distribution that `entry` imposes on a neighbour in direction `dir`:
/// the single one of an undirected entry; for a directed entry the one of a
/// cardinal direction, and none for a diagonal or missing direction.
pub open spec fn transition_toward(
    entry: PossiblyDirectedMultinomialDistribution,
    dir: Option<Directions2d>,
) -> Option<MultinomialDistribution> {
    match entry {
        PossiblyDirectedMultinomialDistribution::Undirected(d) => Some(d),
        PossiblyDirectedMultinomialDistribution::Directed(dd) => match dir {
            Some(Directions2d::NORTH) => Some(dd.spec_north()),
            Some(Directions2d::EAST) => Some(dd.spec_east()),
            Some(Directions2d::SOUTH) => Some(dd.spec_south()),
            Some(Directions2d::WEST) => Some(dd.spec_west()),
            _ => None,
        },
    }
}

impl PossiblyDirectedMultinomialDistribution {
    /// The distribution imposed on a neighbour in direction `dir`.
    pub fn transition(&self, dir: Option<Directions2d>) -> (r: Option<&MultinomialDistribution>)
        ensures
            r matches Some(d) ==> transition_toward(*self, dir) == Some(*d),
            r is None ==> transition_toward(*self, dir) is None,
    {
        match self {
            PossiblyDirectedMultinomialDistribution::Undirected(d) => Some(d),
            PossiblyDirectedMultinomialDistribution::Directed(dd) => match dir {
                Some(card) => dd.value_for_cardinal(&card),
                None => None,
            },
        }
    }
}

} // verus!
