//! Compass directions on a two-dimensional map and values given per direction.
use vstd::prelude::*;

use crate::position::{Position2D, PositionKey};

verus! {

/// The eight compass directions; north is towards larger y, east towards larger x.
#[derive(Clone, Copy, Debug, PartialEq, Eq)]
pub enum Directions2d {
    NORTH,
    NORTHEAST,
    EAST,
    SOUTHEAST,
    SOUTH,
    SOUTHWEST,
    WEST,
    NORTHWEST,
}

/// The direction of a step by `(dx, dy)`; `None` for no step.
pub open spec fn direction_of_offset(dx: int, dy: int) -> Option<Directions2d> {
    if dx == 0 && dy > 0 {
        Some(Directions2d::NORTH)
    } else if dx > 0 && dy == 0 {
        Some(Directions2d::EAST)
    } else if dx == 0 && dy < 0 {
        Some(Directions2d::SOUTH)
    } else if dx < 0 && dy == 0 {
        Some(Directions2d::WEST)
    } else if dx > 0 && dy > 0 {
        Some(Directions2d::NORTHEAST)
    } else if dx > 0 && dy < 0 {
        Some(Directions2d::SOUTHEAST)
    } else if dx < 0 && dy < 0 {
        Some(Directions2d::SOUTHWEST)
    } else if dx < 0 && dy > 0 {
        Some(Directions2d::NORTHWEST)
    } else {
        None
    }
}

pub open spec fn is_cardinal(d: Directions2d) -> bool {
    d == Directions2d::NORTH || d == Directions2d::EAST || d == Directions2d::SOUTH || d
        == Directions2d::WEST
}

impl Directions2d {
    /// The direction in which `to` lies from `from`, by the signs of the
    /// coordinate differences; `None` when the two are the same position.
    pub fn between<P: PositionKey>(from: Position2D<P>, to: Position2D<P>) -> (r: Option<Self>)
        ensures
            r == direction_of_offset(to.x.value() - from.x.value(), to.y.value() - from.y.value()),
    {
        let east = from.x.less_than(to.x);
        let west = to.x.less_than(from.x);
        let north = from.y.less_than(to.y);
        let south = to.y.less_than(from.y);
        if !east && !west && north {
            Some(Directions2d::NORTH)
        } else if east && !north && !south {
            Some(Directions2d::EAST)
        } else if !east && !west && south {
            Some(Directions2d::SOUTH)
        } else if west && !north && !south {
            Some(Directions2d::WEST)
        } else if east && north {
            Some(Directions2d::NORTHEAST)
        } else if east && south {
            Some(Directions2d::SOUTHEAST)
        } else if west && south {
            Some(Directions2d::SOUTHWEST)
        } else if west && north {
            Some(Directions2d::NORTHWEST)
        } else {
            None
        }
    }
}

/// A complete parcel of values for the four cardinal directions.
pub trait Cardinal2dDirectionVariant<T> {
    spec fn spec_north(&self) -> T;

    spec fn spec_east(&self) -> T;

    spec fn spec_south(&self) -> T;

    spec fn spec_west(&self) -> T;

    fn north(&self) -> (r: &T)
        ensures
            *r == self.spec_north(),
    ;

    fn east(&self) -> (r: &T)
        ensures
            *r == self.spec_east(),
    ;

    fn south(&self) -> (r: &T)
        ensures
            *r == self.spec_south(),
    ;

    fn west(&self) -> (r: &T)
        ensures
            *r == self.spec_west(),
    ;

    /// The value for a cardinal direction; `None` for a diagonal one.
    fn value_for_cardinal(&self, card: &Directions2d) -> (r: Option<&T>)
        ensures
            *card == Directions2d::NORTH ==> r == Some(&self.spec_north()),
            *card == Directions2d::EAST ==> r == Some(&self.spec_east()),
            *card == Directions2d::SOUTH ==> r == Some(&self.spec_south()),
            *card == Directions2d::WEST ==> r == Some(&self.spec_west()),
            !is_cardinal(*card) ==> r is None,
    {
        match card {
            Directions2d::NORTH => Some(self.north()),
            Directions2d::EAST => Some(self.east()),
            Directions2d::SOUTH => Some(self.south()),
            Directions2d::WEST => Some(self.west()),
            _ => None,
        }
    }
}

/// A complete parcel of values for all eight directions at Chebyshev distance 1.
pub trait Octile2dDirectionVariant<T>: Cardinal2dDirectionVariant<T> {
    spec fn spec_northeast(&self) -> T;

    spec fn spec_southeast(&self) -> T;

    spec fn spec_southwest(&self) -> T;

    spec fn spec_northwest(&self) -> T;

    fn northeast(&self) -> (r: &T)
        ensures
            *r == self.spec_northeast(),
    ;

    fn southeast(&self) -> (r: &T)
        ensures
            *r == self.spec_southeast(),
    ;

    fn southwest(&self) -> (r: &T)
        ensures
            *r == self.spec_southwest(),
    ;

    fn northwest(&self) -> (r: &T)
        ensures
            *r == self.spec_northwest(),
    ;

    /// The value for any of the eight directions.
    fn value_for_octile(&self, card: &Directions2d) -> (r: Option<&T>)
        ensures
            *card == Directions2d::NORTH ==> r == Some(&self.spec_north()),
            *card == Directions2d::EAST ==> r == Some(&self.spec_east()),
            *card == Directions2d::SOUTH ==> r == Some(&self.spec_south()),
            *card == Directions2d::WEST ==> r == Some(&self.spec_west()),
            *card == Directions2d::NORTHEAST ==> r == Some(&self.spec_northeast()),
            *card == Directions2d::SOUTHEAST ==> r == Some(&self.spec_southeast()),
            *card == Directions2d::SOUTHWEST ==> r == Some(&self.spec_southwest()),
            *card == Directions2d::NORTHWEST ==> r == Some(&self.spec_northwest()),
    {
        match self.value_for_cardinal(card) {
            Some(v) => Some(v),
            None => match card {
                Directions2d::NORTHEAST => Some(self.northeast()),
                Directions2d::SOUTHEAST => Some(self.southeast()),
                Directions2d::SOUTHWEST => Some(self.southwest()),
                Directions2d::NORTHWEST => Some(self.northwest()),
                _ => None,
            },
        }
    }
}

/// One value for each cardinal direction.
#[derive(Debug)]
pub struct CardinallyDirected<T> {
    north: T,
    east: T,
    south: T,
    west: T,
}

impl<T> CardinallyDirected<T> {
    pub fn new(north: T, east: T, south: T, west: T) -> (r: Self)
        ensures
            r.spec_north() == north,
            r.spec_east() == east,
            r.spec_south() == south,
            r.spec_west() == west,
    {
        Self { north, east, south, west }
    }
}

impl<T> Cardinal2dDirectionVariant<T> for CardinallyDirected<T> {
    closed spec fn spec_north(&self) -> T {
        self.north
    }

    closed spec fn spec_east(&self) -> T {
        self.east
    }

    closed spec fn spec_south(&self) -> T {
        self.south
    }

    closed spec fn spec_west(&self) -> T {
        self.west
    }

    fn north(&self) -> (r: &T) {
        &self.north
    }

    fn east(&self) -> (r: &T) {
        &self.east
    }

    fn south(&self) -> (r: &T) {
        &self.south
    }

    fn west(&self) -> (r: &T) {
        &self.west
    }
}

} // verus!
