use vstd::prelude::*;

verus! {

/// Travel state of the car. `Up` and `Down` are the live dispatch
/// directions; `Idle` means there is no pending travel instruction and
/// is never a live direction during a run.
#[derive(Clone, Copy, Debug, PartialEq, Eq, Structural)]
pub enum Direction {
    Up,
    Idle,
    Down,
}

/// What `Direction::swap` produces: `Up` and `Down` alternate strictly,
/// `Idle` is a terminal self-map.
pub open spec fn spec_swap(d: Direction) -> Direction {
    match d {
        Direction::Up => Direction::Down,
        Direction::Down => Direction::Up,
        Direction::Idle => Direction::Idle,
    }
}

impl Direction {
    /// Reverses a live direction in place; `Idle` stays `Idle`.
    pub fn swap(&mut self)
        ensures
            *final(self) == spec_swap(*old(self)),
    {
        match *self {
            Direction::Up => {
                *self = Direction::Down;
            },
            Direction::Down => {
                *self = Direction::Up;
            },
            Direction::Idle => {
                *self = Direction::Idle;
            },
        }
    }
}

} // verus!
