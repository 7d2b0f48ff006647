use crate::direction::Direction;
use vstd::prelude::*;

verus! {

/// A passenger request: a named passenger with a destination floor.
/// Immutable once created.
pub struct Person {
    pub destination: usize,
    pub name: String,
}

/// The direction a passenger standing on `current_floor` must travel to
/// reach `destination`.
pub open spec fn spec_classify(destination: int, current_floor: int) -> Direction {
    if current_floor < destination {
        Direction::Up
    } else if current_floor > destination {
        Direction::Down
    } else {
        Direction::Idle
    }
}

impl Person {
    /// Classifies this passenger relative to `current_floor`: `Up` when
    /// the destination is above, `Down` when below, `Idle` when equal.
    pub fn direction(&self, current_floor: usize) -> (d: Direction)
        ensures
            d == spec_classify(self.destination as int, current_floor as int),
    {
        if current_floor < self.destination {
            Direction::Up
        } else if current_floor > self.destination {
            Direction::Down
        } else {
            Direction::Idle
        }
    }
}

impl Clone for Person {
    fn clone(&self) -> (r: Self)
        ensures
            r == *self,
    {
        Person { destination: self.destination, name: self.name.clone() }
    }
}

} // verus!
