use crate::floor::Floor;
use vstd::prelude::*;

verus! {

/// An ordered sequence of floors indexed 0..floor_count-1. The length
/// of `floors` is the logical floor count and is fixed for a run.
pub struct Building {
    pub floors: Vec<Floor>,
}

impl Building {
    /// No floor of the building has a waiting passenger.
    pub open spec fn spec_is_empty(self) -> bool {
        forall|g: int| 0 <= g < self.floors@.len() ==> !(#[trigger] self.floors@[g]).spec_has_waiting()
    }

    /// A building of `floor_count` empty floors.
    pub fn new(floor_count: usize) -> (b: Building)
        ensures
            b.floors@.len() == floor_count,
            forall|g: int| 0 <= g < floor_count ==> {
                &&& (#[trigger] b.floors@[g]).up@.len() == 0
                &&& b.floors@[g].down@.len() == 0
                &&& b.floors@[g].arrived@.len() == 0
            },
    {
        let mut floors: Vec<Floor> = Vec::with_capacity(floor_count);
        let mut i: usize = 0;
        while i < floor_count
            invariant
                i <= floor_count,
                floors@.len() == i,
                forall|g: int| 0 <= g < i ==> {
                    &&& (#[trigger] floors@[g]).up@.len() == 0
                    &&& floors@[g].down@.len() == 0
                    &&& floors@[g].arrived@.len() == 0
                },
            decreases floor_count - i,
        {
            floors.push(Floor::new());
            i = i + 1;
        }
        Building { floors }
    }

    /// True iff no floor reports a waiting passenger. Conjoined with an
    /// empty car, this is the run's termination condition.
    pub fn is_empty(&self) -> (b: bool)
        ensures
            b == self.spec_is_empty(),
    {
        let mut i: usize = 0;
        while i < self.floors.len()
            invariant
                i <= self.floors@.len(),
                forall|g: int| 0 <= g < i ==> !(#[trigger] self.floors@[g]).spec_has_waiting(),
            decreases self.floors@.len() - i,
        {
            if self.floors[i].has_waiting() {
                return false;
            }
            i = i + 1;
        }
        true
    }
}

} // verus!
