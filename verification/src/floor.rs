use crate::direction::Direction;
use crate::person::Person;
use std::collections::VecDeque;
use vstd::prelude::*;

verus! {

/// Per-floor holding area: FIFO queues of passengers waiting to travel
/// up or down, and a terminal bin of passengers who arrived here.
pub struct Floor {
    pub arrived: VecDeque<Person>,
    pub up: VecDeque<Person>,
    pub down: VecDeque<Person>,
}

impl Floor {
    /// Whether some passenger is waiting here. Arrived passengers have
    /// already been delivered and never count as waiting.
    pub open spec fn spec_has_waiting(self) -> bool {
        self.up@.len() > 0 || self.down@.len() > 0
    }

    /// A floor with no passengers at all.
    pub fn new() -> (fl: Floor)
        ensures
            fl.arrived@ =~= Seq::<Person>::empty(),
            fl.up@ =~= Seq::<Person>::empty(),
            fl.down@ =~= Seq::<Person>::empty(),
    {
        let arrived = VecDeque::new();
        let up = VecDeque::new();
        let down = VecDeque::new();
        Floor { arrived, up, down }
    }

    /// Appends a passenger to the up-bound queue.
    pub fn add_up(&mut self, person: Person)
        ensures
            final(self).up@ == old(self).up@.push(person),
            final(self).down@ == old(self).down@,
            final(self).arrived@ == old(self).arrived@,
    {
        self.up.push_back(person);
    }

    /// Appends a passenger to the down-bound queue.
    pub fn add_down(&mut self, person: Person)
        ensures
            final(self).down@ == old(self).down@.push(person),
            final(self).up@ == old(self).up@,
            final(self).arrived@ == old(self).arrived@,
    {
        self.down.push_back(person);
    }

    /// Deposits a delivered passenger into the arrived bin.
    pub fn add_arrived(&mut self, person: Person)
        ensures
            final(self).arrived@ == seq![person] + old(self).arrived@,
            final(self).up@ == old(self).up@,
            final(self).down@ == old(self).down@,
    {
        self.arrived.push_front(person);
    }

    /// True iff the up or down queue is non-empty.
    pub fn has_waiting(&self) -> (b: bool)
        ensures
            b == self.spec_has_waiting(),
    {
        !(self.up.len() == 0 && self.down.len() == 0)
    }

    /// The queue served when travelling in `direction`; `Idle` selects
    /// the arrived bin.
    pub fn get_waiting_for_direction(&self, direction: &Direction) -> (q: &VecDeque<Person>)
        ensures
            q@ == match *direction {
                Direction::Up => self.up@,
                Direction::Down => self.down@,
                Direction::Idle => self.arrived@,
            },
    {
        match *direction {
            Direction::Up => &self.up,
            Direction::Down => &self.down,
            Direction::Idle => &self.arrived,
        }
    }
}

} // verus!
