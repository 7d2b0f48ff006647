use crate::direction::Direction;
use crate::person::Person;
use vstd::prelude::*;

verus! {

/// The car: its current floor, its occupants, and the fixed capacity
/// that the occupant list may never exceed.
pub struct Elevator {
    pub floor: usize,
    pub people: Vec<Person>,
    pub capacity: usize,
}

impl Elevator {
    /// An empty car at floor 0 with the given capacity.
    pub fn new(capacity: usize) -> (e: Elevator)
        ensures
            e.floor == 0,
            e.people@ =~= Seq::<Person>::empty(),
            e.capacity == capacity,
    {
        let people = Vec::with_capacity(capacity);
        Elevator { floor: 0, people, capacity }
    }

    /// A copy of this car placed at `floor`.
    pub fn set_floor(&self, floor: usize) -> (e: Elevator)
        ensures
            e.floor == floor,
            e.capacity == self.capacity,
            e.people@ == self.people@,
    {
        let people = self.people.clone();
        proof {
            assert(people@ =~= self.people@);
        }
        Elevator { floor, people, capacity: self.capacity }
    }

    /// Moves one floor along `direction`; `Idle` resets the car to
    /// floor 0.
    pub fn move_direction(&mut self, direction: &Direction)
        requires
            *direction == Direction::Up ==> old(self).floor < usize::MAX,
            *direction == Direction::Down ==> old(self).floor > 0,
        ensures
            final(self).floor == match *direction {
                Direction::Up => old(self).floor + 1,
                Direction::Down => old(self).floor - 1,
                Direction::Idle => 0,
            },
            final(self).people == old(self).people,
            final(self).capacity == old(self).capacity,
    {
        self.floor = match *direction {
            Direction::Up => self.floor + 1,
            Direction::Down => self.floor - 1,
            Direction::Idle => 0,
        };
    }

    /// Moves one floor up.
    pub fn move_up(&mut self)
        requires
            old(self).floor < usize::MAX,
        ensures
            final(self).floor == old(self).floor + 1,
            final(self).people == old(self).people,
            final(self).capacity == old(self).capacity,
    {
        self.move_direction(&Direction::Up);
    }

    /// Moves one floor down.
    pub fn move_down(&mut self)
        requires
            old(self).floor > 0,
        ensures
            final(self).floor == old(self).floor - 1,
            final(self).people == old(self).people,
            final(self).capacity == old(self).capacity,
    {
        self.move_direction(&Direction::Down);
    }

    /// True iff at least one more passenger may board.
    pub fn has_space(&self) -> (b: bool)
        ensures
            b == (self.people@.len() < self.capacity),
    {
        self.people.len() < self.capacity
    }
}

} // verus!
