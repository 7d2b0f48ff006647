use crate::building::Building;
use crate::direction::{spec_swap, Direction};
use crate::elevator::Elevator;
use crate::floor::Floor;
use crate::person::Person;
use vstd::multiset::Multiset;
use vstd::prelude::*;

verus! {

broadcast use {vstd::multiset::group_multiset_axioms, vstd::seq_lib::group_to_multiset_ensures};

/// An observable event of a run: informational only, consumed by an
/// external sink, with no influence on simulation state.
#[derive(Debug, Clone, PartialEq)]
pub enum Event {
    Disembark { name: String, floor: usize },
    Board { name: String, floor: usize },
    Move { direction: Direction },
}

/// The simulation: a building, the car, and the log of events emitted
/// so far. The dispatch direction lives only for the duration of `run`.
pub struct Sim {
    pub building: Building,
    pub elevator: Elevator,
    pub events: Vec<Event>,
}

/// The waiting passengers (up and down queues) of one floor, as a
/// multiset.
pub open spec fn floor_waiting_ms(fl: Floor) -> Multiset<Person> {
    fl.up@.to_multiset().add(fl.down@.to_multiset())
}

/// The arrived passengers of one floor, as a multiset.
pub open spec fn floor_arrived_ms(fl: Floor) -> Multiset<Person> {
    fl.arrived@.to_multiset()
}

/// All waiting passengers of the building, as a multiset.
pub open spec fn waiting_ms(fs: Seq<Floor>) -> Multiset<Person>
    decreases fs.len(),
{
    if fs.len() == 0 {
        Multiset::empty()
    } else {
        waiting_ms(fs.drop_last()).add(floor_waiting_ms(fs.last()))
    }
}

/// All arrived passengers of the building, as a multiset.
pub open spec fn arrived_ms(fs: Seq<Floor>) -> Multiset<Person>
    decreases fs.len(),
{
    if fs.len() == 0 {
        Multiset::empty()
    } else {
        arrived_ms(fs.drop_last()).add(floor_arrived_ms(fs.last()))
    }
}

/// Replacing one floor exchanges exactly that floor's contribution to
/// the building-wide multisets.
pub proof fn lemma_ms_update(fs: Seq<Floor>, i: int, fl: Floor)
    requires
        0 <= i < fs.len(),
    ensures
        waiting_ms(fs.update(i, fl)).add(floor_waiting_ms(fs[i])) == waiting_ms(fs).add(
            floor_waiting_ms(fl),
        ),
        arrived_ms(fs.update(i, fl)).add(floor_arrived_ms(fs[i])) == arrived_ms(fs).add(
            floor_arrived_ms(fl),
        ),
    decreases fs.len(),
{
    let fs2 = fs.update(i, fl);
    if i == fs.len() - 1 {
        assert(fs2.drop_last() =~= fs.drop_last());
        assert(fs2.last() == fl);
        assert(waiting_ms(fs2).add(floor_waiting_ms(fs[i])) =~= waiting_ms(fs).add(
            floor_waiting_ms(fl),
        ));
        assert(arrived_ms(fs2).add(floor_arrived_ms(fs[i])) =~= arrived_ms(fs).add(
            floor_arrived_ms(fl),
        ));
    } else {
        let dl = fs.drop_last();
        assert(fs2.drop_last() =~= dl.update(i, fl));
        assert(fs2.last() == fs.last());
        assert(dl[i] == fs[i]);
        lemma_ms_update(dl, i, fl);
        assert(waiting_ms(fs2) == waiting_ms(dl.update(i, fl)).add(floor_waiting_ms(fs.last())));
        assert(waiting_ms(fs) == waiting_ms(dl).add(floor_waiting_ms(fs.last())));
        assert forall|x: Person|
            waiting_ms(fs2).add(floor_waiting_ms(fs[i])).count(x) == waiting_ms(fs).add(
                floor_waiting_ms(fl),
            ).count(x) by {
            assert(waiting_ms(dl.update(i, fl)).add(floor_waiting_ms(dl[i])).count(x)
                == waiting_ms(dl).add(floor_waiting_ms(fl)).count(x));
        }
        assert(waiting_ms(fs2).add(floor_waiting_ms(fs[i])) =~= waiting_ms(fs).add(
            floor_waiting_ms(fl),
        ));
        assert(arrived_ms(fs2) == arrived_ms(dl.update(i, fl)).add(floor_arrived_ms(fs.last())));
        assert(arrived_ms(fs) == arrived_ms(dl).add(floor_arrived_ms(fs.last())));
        assert forall|x: Person|
            arrived_ms(fs2).add(floor_arrived_ms(fs[i])).count(x) == arrived_ms(fs).add(
                floor_arrived_ms(fl),
            ).count(x) by {
            assert(arrived_ms(dl.update(i, fl)).add(floor_arrived_ms(dl[i])).count(x)
                == arrived_ms(dl).add(floor_arrived_ms(fl)).count(x));
        }
        assert(arrived_ms(fs2).add(floor_arrived_ms(fs[i])) =~= arrived_ms(fs).add(
            floor_arrived_ms(fl),
        ));
    }
}

/// The building-wide waiting multiset is at least as large as any one
/// floor's waiting queues.
pub proof fn lemma_waiting_ms_floor_bound(fs: Seq<Floor>, g: int)
    requires
        0 <= g < fs.len(),
    ensures
        waiting_ms(fs).len() >= fs[g].up@.len() + fs[g].down@.len(),
    decreases fs.len(),
{
    if g == fs.len() - 1 {
    } else {
        lemma_waiting_ms_floor_bound(fs.drop_last(), g);
    }
}

/// A building in which no floor has waiting passengers has an empty
/// waiting multiset.
pub proof fn lemma_waiting_ms_empty(fs: Seq<Floor>)
    requires
        forall|g: int| 0 <= g < fs.len() ==> !(#[trigger] fs[g]).spec_has_waiting(),
    ensures
        waiting_ms(fs) == Multiset::<Person>::empty(),
    decreases fs.len(),
{
    if fs.len() > 0 {
        lemma_waiting_ms_empty(fs.drop_last());
        assert(!fs.last().spec_has_waiting());
        assert(fs.last().up@ =~= Seq::<Person>::empty());
        assert(fs.last().down@ =~= Seq::<Person>::empty());
        assert(waiting_ms(fs) =~= Multiset::<Person>::empty());
    } else {
        assert(waiting_ms(fs) =~= Multiset::<Person>::empty());
    }
}

/// Prepending an element inserts it into the sequence's multiset.
pub proof fn lemma_prepend_to_multiset(s: Seq<Person>, p: Person)
    ensures
        (seq![p] + s).to_multiset() == s.to_multiset().insert(p),
{
    let w = seq![p] + s;
    assert(w.remove(0) =~= s);
    assert(w[0] == p);
    assert(w.remove(0).to_multiset() == w.to_multiset().remove(p));
    assert(w.contains(p));
    assert(w.to_multiset().count(p) > 0);
    assert(w.to_multiset() =~= s.to_multiset().insert(p));
}

/// Whether the car may keep moving in direction `d` from `floor` in a
/// building of `floor_count` floors.
pub open spec fn spec_can_move(d: Direction, floor: int, floor_count: int) -> bool {
    match d {
        Direction::Up => floor < floor_count - 1,
        Direction::Down => floor > 0,
        Direction::Idle => true,
    }
}

/// The direction the car travels this tick: the current one if it can
/// continue, otherwise the reversed one.
pub open spec fn next_direction(d: Direction, floor: int, floor_count: int) -> Direction {
    if spec_can_move(d, floor, floor_count) {
        d
    } else {
        spec_swap(d)
    }
}

/// Law: the dispatch direction reverses only at a boundary floor
/// (0 or `floor_count - 1`) when continued travel is blocked; it never
/// reverses mid-building.
pub proof fn lemma_direction_reverses_only_at_boundary(d: Direction, floor: int, floor_count: int)
    requires
        0 <= floor < floor_count,
    ensures
        next_direction(d, floor, floor_count) != d ==> (d == Direction::Up && floor == floor_count
            - 1) || (d == Direction::Down && floor == 0),
        0 < floor < floor_count - 1 ==> next_direction(d, floor, floor_count) == d,
{
}

/// Whether some passenger waits on floor `t.0` for travel in direction
/// `t.1`.
pub open spec fn has_waiter(fs: Seq<Floor>, t: (int, Direction)) -> bool {
    &&& 0 <= t.0 < fs.len()
    &&& match t.1 {
        Direction::Up => fs[t.0].up@.len() > 0,
        Direction::Down => fs[t.0].down@.len() > 0,
        Direction::Idle => false,
    }
}

/// Number of ticks the sweep policy needs to carry the car from state
/// `(f, d)` to state `(g, e)`, where a state pairs a floor with the
/// direction about to be travelled. The sweep visits the states in a
/// fixed cycle of length `2 * (n - 1)`.
pub open spec fn path_dist(n: int, f: int, d: Direction, g: int, e: Direction) -> int {
    if d == Direction::Up {
        if e == Direction::Up {
            if g >= f {
                g - f
            } else {
                (n - 1 - f) + (n - 1) + g
            }
        } else {
            (n - 1 - f) + (n - 1 - g)
        }
    } else {
        if e == Direction::Down {
            if g <= f {
                f - g
            } else {
                f + (n - 1) + (n - 1 - g)
            }
        } else {
            f + g
        }
    }
}

/// Along the sweep cycle the distance to a fixed target state falls by
/// exactly one per tick, is zero only at the target, and never exceeds
/// the cycle length.
pub proof fn lemma_path_dist_step(n: int, f: int, d: Direction, g: int, e: Direction)
    requires
        n >= 2,
        d == Direction::Up || d == Direction::Down,
        e == Direction::Up || e == Direction::Down,
        d == Direction::Up ==> 0 <= f <= n - 2,
        d == Direction::Down ==> 1 <= f <= n - 1,
        e == Direction::Up ==> 0 <= g <= n - 2,
        e == Direction::Down ==> 1 <= g <= n - 1,
    ensures
        0 <= path_dist(n, f, d, g, e) <= 2 * n - 2,
        path_dist(n, f, d, g, e) == 0 <==> (f == g && d == e),
        (f != g || d != e) && d == Direction::Up ==> path_dist(
            n,
            f + 1,
            next_direction(d, f + 1, n),
            g,
            e,
        ) == path_dist(n, f, d, g, e) - 1,
        (f != g || d != e) && d == Direction::Down ==> path_dist(
            n,
            f - 1,
            next_direction(d, f - 1, n),
            g,
            e,
        ) == path_dist(n, f, d, g, e) - 1,
{
}

impl Sim {
    /// The logical number of floors of the building.
    pub open spec fn floor_count(self) -> int {
        self.building.floors@.len() as int
    }

    /// Passengers not yet delivered: waiting on some floor or riding
    /// the car.
    pub open spec fn undelivered(self) -> int {
        waiting_ms(self.building.floors@).len() + self.elevator.people@.len() as int
    }

    /// Ticks until the run's next delivery, measured at a tick
    /// boundary where `d` is the direction carried over from the last
    /// tick. With passengers aboard, it is the distance to the
    /// boundary floor they are riding towards; with an empty car it is
    /// the sweep distance to some waiting passenger, offset so that a
    /// boarding always shrinks it.
    pub open spec fn phase(self, d: Direction) -> int {
        let n = self.floor_count();
        let f = self.elevator.floor as int;
        if self.elevator.people@.len() > 0 {
            if d == Direction::Up {
                n - 1 - f
            } else {
                f
            }
        } else {
            let dp = next_direction(d, f, n);
            if exists|t: (int, Direction)| has_waiter(self.building.floors@, t) {
                let t = choose|t: (int, Direction)| has_waiter(self.building.floors@, t);
                n + 2 + path_dist(n, f, dp, t.0, t.1)
            } else {
                0
            }
        }
    }

    /// Termination measure of the tick loop: the phase plus a full
    /// sweep budget for every undelivered passenger. It strictly
    /// decreases at every tick.
    pub open spec fn run_measure(self, d: Direction) -> int {
        self.phase(d) + self.undelivered() * (3 * self.floor_count() + 2)
    }

    /// Upper bound on the number of ticks a run may take, and the
    /// machine limit a caller must respect so that the tick counter
    /// cannot overflow.
    pub open spec fn tick_limit(self) -> int {
        (self.undelivered() + 1) * (3 * self.floor_count() + 2)
    }

    /// The phase is bounded by a constant multiple of the floor count.
    pub proof fn lemma_phase_bounds(self, d: Direction)
        requires
            self.wf(),
            d == Direction::Up || d == Direction::Down,
        ensures
            0 <= self.phase(d) <= 3 * self.floor_count(),
    {
        let n = self.floor_count();
        let f = self.elevator.floor as int;
        assert(0 <= f < n);
        if self.elevator.people@.len() > 0 {
        } else {
            if exists|t: (int, Direction)| has_waiter(self.building.floors@, t) {
                let t = choose|t: (int, Direction)| has_waiter(self.building.floors@, t);
                let dp = next_direction(d, f, n);
                self.lemma_waiter_valid(t);
                assert(n >= 2);
                assert(dp == Direction::Up ==> 0 <= f <= n - 2);
                assert(dp == Direction::Down ==> 1 <= f <= n - 1);
                lemma_path_dist_step(n, f, dp, t.0, t.1);
            }
        }
    }

    /// A waiting passenger pins its floor strictly inside the range the
    /// sweep serves in its queue's direction.
    pub proof fn lemma_waiter_valid(self, t: (int, Direction))
        requires
            self.wf(),
            has_waiter(self.building.floors@, t),
        ensures
            t.1 == Direction::Up || t.1 == Direction::Down,
            t.1 == Direction::Up ==> 0 <= t.0 <= self.floor_count() - 2,
            t.1 == Direction::Down ==> 1 <= t.0 <= self.floor_count() - 1,
            self.floor_count() >= 2,
    {
        let fl = self.building.floors@[t.0];
        assert(self.wf_floor_at(t.0));
        match t.1 {
            Direction::Up => {
                assert(fl.up@[0].destination > t.0);
                assert(fl.up@[0].destination < self.floor_count());
            },
            Direction::Down => {
                assert(fl.down@[0].destination < t.0);
            },
            Direction::Idle => {
                assert(false);
            },
        }
    }

    /// Queue discipline of one floor: up-waiting passengers travel to a
    /// strictly higher floor, down-waiting to a strictly lower one, and
    /// arrived passengers sit at their destination.
    pub open spec fn wf_floor_at(self, g: int) -> bool {
        let fl = self.building.floors@[g];
        &&& forall|j: int|
            0 <= j < fl.up@.len() ==> (#[trigger] fl.up@[j]).destination > g
                && fl.up@[j].destination < self.floor_count()
        &&& forall|j: int| 0 <= j < fl.down@.len() ==> (#[trigger] fl.down@[j]).destination < g
        &&& forall|j: int| 0 <= j < fl.arrived@.len() ==> (#[trigger] fl.arrived@[j]).destination == g
    }

    /// Structural invariant of a simulation: the car is inside the
    /// building, occupancy respects capacity, every address is a valid
    /// floor index, and every queue obeys the queue discipline.
    pub open spec fn wf(self) -> bool {
        &&& (self.elevator.floor as int) < self.floor_count()
        &&& self.elevator.people@.len() <= self.elevator.capacity
        &&& forall|j: int|
            0 <= j < self.elevator.people@.len() ==> (
            #[trigger] self.elevator.people@[j]).destination < self.floor_count()
        &&& forall|g: int| 0 <= g < self.floor_count() ==> self.wf_floor_at(g)
    }

    /// The default simulation of the original program: five floors and
    /// a car of capacity two.
    pub fn new() -> (s: Sim)
        ensures
            s.wf(),
            s.floor_count() == 5,
            s.elevator.capacity == 2,
            s.elevator.floor == 0,
            s.elevator.people@.len() == 0,
            s.events@.len() == 0,
            s.building.spec_is_empty(),
            waiting_ms(s.building.floors@) == Multiset::<Person>::empty(),
            arrived_ms(s.building.floors@) == Multiset::<Person>::empty(),
    {
        Sim::with_config(5, 2)
    }

    /// A simulation over `floor_count` empty floors and an empty car of
    /// the given capacity.
    pub fn with_config(floor_count: usize, capacity: usize) -> (s: Sim)
        requires
            floor_count >= 1,
        ensures
            s.wf(),
            s.floor_count() == floor_count,
            s.elevator.capacity == capacity,
            s.elevator.floor == 0,
            s.elevator.people@.len() == 0,
            s.events@.len() == 0,
            s.building.spec_is_empty(),
            waiting_ms(s.building.floors@) == Multiset::<Person>::empty(),
            arrived_ms(s.building.floors@) == Multiset::<Person>::empty(),
            forall|g: int|
                0 <= g < floor_count ==> (#[trigger] s.building.floors@[g]).arrived@.len() == 0,
    {
        let building = Building::new(floor_count);
        let elevator = Elevator::new(capacity);
        let events: Vec<Event> = Vec::new();
        let s = Sim { building, elevator, events };
        proof {
            lemma_waiting_ms_empty(s.building.floors@);
            lemma_arrived_ms_all_empty(s.building.floors@);
        }
        s
    }

    /// Runs the simulation to completion under the sweep policy and
    /// returns the number of ticks, i.e. of car moves. Every waiting
    /// passenger ends up in the arrived bin of its destination floor:
    /// the arrived multiset grows by exactly the initially waiting
    /// passengers, nobody is lost or duplicated, and the tick count is
    /// bounded by `tick_limit`.
    #[verifier::loop_isolation(false)]
    #[verifier::rlimit(100)]
    pub fn run(&mut self) -> (count: usize)
        requires
            old(self).wf(),
            old(self).elevator.capacity >= 1,
            old(self).elevator.people@.len() == 0,
            old(self).tick_limit() <= usize::MAX,
        ensures
            final(self).wf(),
            final(self).floor_count() == old(self).floor_count(),
            final(self).elevator.capacity == old(self).elevator.capacity,
            final(self).building.spec_is_empty(),
            final(self).elevator.people@.len() == 0,
            waiting_ms(final(self).building.floors@) == Multiset::<Person>::empty(),
            arrived_ms(final(self).building.floors@) == arrived_ms(
                old(self).building.floors@,
            ).add(waiting_ms(old(self).building.floors@)),
            count <= old(self).tick_limit(),
    {
        let ghost init: Sim = *self;
        let ghost m0: int = self.run_measure(Direction::Up);
        let ghost c: int = 3 * self.floor_count() + 2;
        let mut count: usize = 0;
        let mut direction = Direction::Up;
        proof {
            self.lemma_phase_bounds(Direction::Up);
            assert((init.undelivered() + 1) * c == init.undelivered() * c + c)
                by (nonlinear_arith);
            assert(self.elevator.people@.to_multiset().len() == 0);
            assert(self.elevator.people@.to_multiset() =~= Multiset::<Person>::empty());
        }
        while !self.building.is_empty() || self.elevator.people.len() > 0
            invariant
                self.wf(),
                self.floor_count() == init.floor_count(),
                self.elevator.capacity == init.elevator.capacity,
                self.elevator.capacity >= 1,
                direction == Direction::Up || direction == Direction::Down,
                direction == Direction::Up ==> forall|j: int|
                    0 <= j < self.elevator.people@.len() ==> (
                    #[trigger] self.elevator.people@[j]).destination
                        >= self.elevator.floor,
                direction == Direction::Down ==> forall|j: int|
                    0 <= j < self.elevator.people@.len() ==> (
                    #[trigger] self.elevator.people@[j]).destination
                        <= self.elevator.floor,
                self.floor_count() >= 2 || self.elevator.people@.len() == 0,
                arrived_ms(self.building.floors@).add(waiting_ms(self.building.floors@)).add(
                    self.elevator.people@.to_multiset(),
                ) == arrived_ms(init.building.floors@).add(waiting_ms(init.building.floors@)),
                c == 3 * self.floor_count() + 2,
                0 <= self.run_measure(direction),
                count + self.run_measure(direction) <= m0,
                m0 <= init.tick_limit(),
                init.tick_limit() <= usize::MAX,
            decreases self.run_measure(direction),
        {
            let ghost pre: Sim = *self;
            let ghost d1: Direction = direction;
            let ghost n: int = self.floor_count();
            let ghost f1: int = self.elevator.floor as int;
            let ghost u1: int = pre.undelivered();
            let ghost m1: int = pre.run_measure(d1);
            proof {
                // inside the body the building has at least two floors
                if n < 2 {
                    if self.elevator.people@.len() > 0 {
                    } else {
                        let g = choose|g: int|
                            0 <= g < n && (#[trigger] self.building.floors@[g]).spec_has_waiting();
                        assert(self.wf_floor_at(g));
                        let flg = self.building.floors@[g];
                        if flg.up@.len() > 0 {
                            assert(flg.up@[0].destination < n);
                        } else {
                            assert(flg.down@[0].destination < g);
                        }
                        assert(false);
                    }
                }
                assert(n >= 2);
                // the loop makes progress only while someone is undelivered
                if self.elevator.people@.len() == 0 {
                    let g = choose|g: int|
                        0 <= g < n && (#[trigger] self.building.floors@[g]).spec_has_waiting();
                    lemma_waiting_ms_floor_bound(self.building.floors@, g);
                }
                assert(u1 >= 1);
            }
            let current_floor = self.elevator.floor;

            // 1. Direction reversal check.
            if !self.can_move_direction(&direction) {
                direction.swap();
            }
            let ghost dchk: Direction = direction;
            proof {
                assert(dchk == next_direction(d1, f1, n));
                assert(spec_can_move(dchk, f1, n));
                assert(dchk == Direction::Up || dchk == Direction::Down);
            }

            // 2. Alight: stable partition of the occupants.
            let mut fl = self.building.floors.remove(current_floor);
            let ghost fl0: Floor = fl;
            let ghost orig: Seq<Person> = self.elevator.people@;
            let mut kept: Vec<Person> = Vec::new();
            proof {
                assert(pre.wf_floor_at(f1));
                assert(fl0 == pre.building.floors@[f1]);
                assert(forall|j: int|
                    0 <= j < fl.arrived@.len() ==> (#[trigger] fl.arrived@[j]).destination == f1);
                assert(forall|j: int|
                    0 <= j < fl.up@.len() ==> (#[trigger] fl.up@[j]).destination > f1
                        && fl.up@[j].destination < n);
                assert(forall|j: int|
                    0 <= j < fl.down@.len() ==> (#[trigger] fl.down@[j]).destination < f1);
            }
            while self.elevator.people.len() > 0
                invariant
                    self.elevator.people@.len() <= orig.len(),
                    self.elevator.people@ == orig.subrange(
                        orig.len() - self.elevator.people@.len(),
                        orig.len() as int,
                    ),
                    kept@.to_multiset().add(fl.arrived@.to_multiset()).add(
                        self.elevator.people@.to_multiset(),
                    ) == orig.to_multiset().add(fl0.arrived@.to_multiset()),
                    kept@.len() + fl.arrived@.len() + self.elevator.people@.len() == orig.len()
                        + fl0.arrived@.len(),
                    fl0.arrived@.len() <= fl.arrived@.len(),
                    fl.arrived@.len() == fl0.arrived@.len() ==> fl == fl0,
                    fl.arrived@.len() == fl0.arrived@.len() ==> forall|j: int|
                        0 <= j < orig.len() - self.elevator.people@.len() ==> (
                        #[trigger] orig[j]).destination != f1,
                    forall|j: int|
                        0 <= j < kept@.len() ==> (#[trigger] kept@[j]).destination != f1,
                    forall|j: int|
                        0 <= j < kept@.len() ==> (#[trigger] kept@[j]).destination < n,
                    d1 == Direction::Up ==> forall|j: int|
                        0 <= j < kept@.len() ==> (#[trigger] kept@[j]).destination > f1,
                    d1 == Direction::Down ==> forall|j: int|
                        0 <= j < kept@.len() ==> (#[trigger] kept@[j]).destination < f1,
                    forall|j: int|
                        0 <= j < fl.arrived@.len() ==> (#[trigger] fl.arrived@[j]).destination
                            == f1,
                    fl.up@ == fl0.up@,
                    fl.down@ == fl0.down@,
                    self.building.floors@ == pre.building.floors@.remove(f1),
                    self.elevator.floor == pre.elevator.floor,
                    self.elevator.capacity == pre.elevator.capacity,
                    d1 == Direction::Up ==> forall|j: int|
                        0 <= j < self.elevator.people@.len() ==> (
                        #[trigger] self.elevator.people@[j]).destination >= f1,
                    d1 == Direction::Down ==> forall|j: int|
                        0 <= j < self.elevator.people@.len() ==> (
                        #[trigger] self.elevator.people@[j]).destination <= f1,
                    forall|j: int|
                        0 <= j < self.elevator.people@.len() ==> (
                        #[trigger] self.elevator.people@[j]).destination < n,
                decreases self.elevator.people@.len(),
            {
                let ghost people1: Seq<Person> = self.elevator.people@;
                let ghost arr1: Seq<Person> = fl.arrived@;
                let p = self.elevator.people.remove(0);
                proof {
                    assert(self.elevator.people@ =~= orig.subrange(
                        orig.len() - self.elevator.people@.len(),
                        orig.len() as int,
                    ));
                    assert(people1.to_multiset() == self.elevator.people@.to_multiset().insert(p));
                    assert(orig[orig.len() - people1.len()] == p);
                }
                if p.destination == current_floor {
                    self.events.push(Event::Disembark { name: p.name.clone(), floor: current_floor });
                    fl.add_arrived(p);
                    proof {
                        lemma_prepend_to_multiset(arr1, p);
                        assert(fl.arrived@[0] == p);
                        assert(forall|j: int|
                            1 <= j < fl.arrived@.len() ==> (#[trigger] fl.arrived@[j]) == arr1[j
                                - 1]);
                    }
                } else {
                    kept.push(p);
                    proof {
                        if fl.arrived@.len() == fl0.arrived@.len() {
                            assert forall|j: int|
                                0 <= j < orig.len() - self.elevator.people@.len() implies (
                            #[trigger] orig[j]).destination != f1 by {
                                if j < orig.len() - people1.len() {
                                } else {
                                    assert(orig[j] == p);
                                }
                            }
                        }
                    }
                }
            }
            let ghost kept_v: Seq<Person> = kept@;
            let ghost arr_after: Seq<Person> = fl.arrived@;
            let ghost k: int = orig.len() - kept_v.len();
            self.elevator.people = kept;
            proof {
                assert(orig.subrange(orig.len() as int, orig.len() as int) =~= Seq::<
                    Person,
                >::empty());
                assert(Seq::<Person>::empty().to_multiset().len() == 0);
                assert(Seq::<Person>::empty().to_multiset() =~= Multiset::<Person>::empty());
                assert(k == arr_after.len() - fl0.arrived@.len());
                // if the direction was reversed, every occupant alights here
                if dchk != d1 && orig.len() > 0 {
                    assert(orig[0].destination == f1);
                    assert(k >= 1) by {
                        if k == 0 {
                            assert(orig[0].destination != f1);
                        }
                    }
                }
            }

            // 3. Board from the queue matching the travel direction.
            let ghost pa: Seq<Person> = self.elevator.people@;
            let ghost fla: Floor = fl;
            let ghost upb: Seq<Person> = fl.up@;
            let ghost downb: Seq<Person> = fl.down@;
            proof {
                if dchk != d1 {
                    assert(kept_v.len() == 0) by {
                        if kept_v.len() > 0 {
                            assert(kept_v[0].destination != f1);
                        }
                    }
                }
                assert(dchk == Direction::Up ==> forall|j: int|
                    0 <= j < pa.len() ==> (#[trigger] pa[j]).destination > f1);
                assert(dchk == Direction::Down ==> forall|j: int|
                    0 <= j < pa.len() ==> (#[trigger] pa[j]).destination < f1);
            }
            if self.elevator.has_space() {
                match direction {
                    Direction::Up => {
                        while self.elevator.people.len() < self.elevator.capacity && fl.up.len()
                            > 0
                            invariant
                                self.elevator.people@.len() <= pre.elevator.capacity,
                                self.elevator.capacity == pre.elevator.capacity,
                                self.elevator.floor == pre.elevator.floor,
                                self.building.floors@ == pre.building.floors@.remove(f1),
                                fl.up@.len() <= upb.len(),
                                fl.up@ == upb.subrange(
                                    upb.len() - fl.up@.len(),
                                    upb.len() as int,
                                ),
                                self.elevator.people@ == pa + upb.subrange(
                                    0,
                                    upb.len() - fl.up@.len(),
                                ),
                                self.elevator.people@.to_multiset().add(fl.up@.to_multiset())
                                    == pa.to_multiset().add(upb.to_multiset()),
                                fl.down@ == downb,
                                fl.arrived@ == arr_after,
                                fl.up@.len() == upb.len() ==> fl == fla,
                                forall|j: int|
                                    0 <= j < upb.len() ==> (#[trigger] upb[j]).destination > f1
                                        && upb[j].destination < n,
                                forall|j: int|
                                    0 <= j < self.elevator.people@.len() ==> (
                                    #[trigger] self.elevator.people@[j]).destination > f1
                                        && self.elevator.people@[j].destination < n,
                            decreases fl.up@.len(),
                        {
                            let ghost people2: Seq<Person> = self.elevator.people@;
                            let ghost up2: Seq<Person> = fl.up@;
                            let ghost s: int = upb.len() - up2.len();
                            if let Some(person) = fl.up.pop_front() {
                                self.events.push(Event::Board {
                                    name: person.name.clone(),
                                    floor: current_floor,
                                });
                                self.elevator.people.push(person);
                                proof {
                                    assert(person == up2[0]);
                                    assert(up2 == upb.subrange(s, upb.len() as int));
                                    assert(upb.subrange(s, upb.len() as int)[0] == upb[s]);
                                    assert(person == upb[s]);
                                    assert(fl.up@ == up2.subrange(1, up2.len() as int));
                                    assert forall|j: int|
                                        0 <= j < fl.up@.len() implies #[trigger] fl.up@[j] == upb[s
                                        + 1 + j] by {
                                        assert(fl.up@[j] == up2[j + 1]);
                                        assert(up2[j + 1] == upb.subrange(s, upb.len() as int)[j
                                            + 1]);
                                    }
                                    assert(fl.up@ =~= upb.subrange(s + 1, upb.len() as int));
                                    assert(self.elevator.people@ == people2.push(person));
                                    assert(upb.subrange(0, s + 1) =~= upb.subrange(0, s).push(
                                        upb[s],
                                    ));
                                    assert(self.elevator.people@ =~= pa + upb.subrange(0, s + 1));
                                    assert(up2.remove(0) =~= up2.subrange(1, up2.len() as int));
                                    assert(up2.remove(0).to_multiset() == up2.to_multiset().remove(
                                        up2[0],
                                    ));
                                    assert(up2.contains(person));
                                    assert(up2.to_multiset().count(person) > 0);
                                    assert(up2.to_multiset() =~= fl.up@.to_multiset().insert(
                                        person,
                                    ));
                                }
                            }
                        }
                    },
                    Direction::Down => {
                        while self.elevator.people.len() < self.elevator.capacity && fl.down.len()
                            > 0
                            invariant
                                self.elevator.people@.len() <= pre.elevator.capacity,
                                self.elevator.capacity == pre.elevator.capacity,
                                self.elevator.floor == pre.elevator.floor,
                                self.building.floors@ == pre.building.floors@.remove(f1),
                                fl.down@.len() <= downb.len(),
                                fl.down@ == downb.subrange(
                                    downb.len() - fl.down@.len(),
                                    downb.len() as int,
                                ),
                                self.elevator.people@ == pa + downb.subrange(
                                    0,
                                    downb.len() - fl.down@.len(),
                                ),
                                self.elevator.people@.to_multiset().add(fl.down@.to_multiset())
                                    == pa.to_multiset().add(downb.to_multiset()),
                                fl.up@ == upb,
                                fl.arrived@ == arr_after,
                                fl.down@.len() == downb.len() ==> fl == fla,
                                forall|j: int|
                                    0 <= j < downb.len() ==> (#[trigger] downb[j]).destination
                                        < f1,
                                forall|j: int|
                                    0 <= j < self.elevator.people@.len() ==> (
                                    #[trigger] self.elevator.people@[j]).destination < f1,
                            decreases fl.down@.len(),
                        {
                            let ghost people2: Seq<Person> = self.elevator.people@;
                            let ghost down2: Seq<Person> = fl.down@;
                            let ghost s: int = downb.len() - down2.len();
                            if let Some(person) = fl.down.pop_front() {
                                self.events.push(Event::Board {
                                    name: person.name.clone(),
                                    floor: current_floor,
                                });
                                self.elevator.people.push(person);
                                proof {
                                    assert(person == down2[0]);
                                    assert(down2 == downb.subrange(s, downb.len() as int));
                                    assert(downb.subrange(s, downb.len() as int)[0] == downb[s]);
                                    assert(person == downb[s]);
                                    assert(fl.down@ == down2.subrange(1, down2.len() as int));
                                    assert forall|j: int|
                                        0 <= j < fl.down@.len() implies #[trigger] fl.down@[j]
                                        == downb[s + 1 + j] by {
                                        assert(fl.down@[j] == down2[j + 1]);
                                        assert(down2[j + 1] == downb.subrange(
                                            s,
                                            downb.len() as int,
                                        )[j + 1]);
                                    }
                                    assert(fl.down@ =~= downb.subrange(s + 1, downb.len() as int));
                                    assert(self.elevator.people@ == people2.push(person));
                                    assert(downb.subrange(0, s + 1) =~= downb.subrange(0, s).push(
                                        downb[s],
                                    ));
                                    assert(self.elevator.people@ =~= pa + downb.subrange(
                                        0,
                                        s + 1,
                                    ));
                                    assert(down2.remove(0) =~= down2.subrange(
                                        1,
                                        down2.len() as int,
                                    ));
                                    assert(down2.remove(0).to_multiset() == down2.to_multiset()
                                        .remove(down2[0]));
                                    assert(down2.contains(person));
                                    assert(down2.to_multiset().count(person) > 0);
                                    assert(down2.to_multiset() =~= fl.down@.to_multiset().insert(
                                        person,
                                    ));
                                }
                            }
                        }
                    },
                    Direction::Idle => {},
                }
            }
            let ghost b: int = self.elevator.people@.len() - pa.len();
            let ghost fl_fin: Floor = fl;

            // 4. Put the floor back and move the car.
            self.building.floors.insert(current_floor, fl);
            proof {
                assert(self.building.floors@ =~= pre.building.floors@.update(f1, fl_fin));
            }
            self.elevator.move_direction(&direction);
            self.events.push(Event::Move { direction });
            proof {
                let fs1 = pre.building.floors@;
                let fs2 = self.building.floors@;
                assert(fl0 == fs1[f1]);
                lemma_ms_update(fs1, f1, fl_fin);
                let w1 = waiting_ms(fs1);
                let w2 = waiting_ms(fs2);
                let a1 = arrived_ms(fs1);
                let a2 = arrived_ms(fs2);
                let p2 = self.elevator.people@;
                let f2: int = self.elevator.floor as int;
                assert(fs2.len() == fs1.len());
                assert(f2 == if dchk == Direction::Up {
                    f1 + 1
                } else {
                    f1 - 1
                });
                assert(0 <= f2 < n);

                // the boarding step's net effect, in every branch
                assert(dchk == Direction::Up ==> p2.to_multiset().add(fl_fin.up@.to_multiset())
                    == kept_v.to_multiset().add(fl0.up@.to_multiset()) && fl_fin.down@ == fl0.down@
                    && p2.len() + fl_fin.up@.len() == kept_v.len() + fl0.up@.len());
                assert(dchk == Direction::Down ==> p2.to_multiset().add(
                    fl_fin.down@.to_multiset(),
                ) == kept_v.to_multiset().add(fl0.down@.to_multiset()) && fl_fin.up@ == fl0.up@
                    && p2.len() + fl_fin.down@.len() == kept_v.len() + fl0.down@.len());
                assert(fl_fin.arrived@ == arr_after);
                assert(b == p2.len() - kept_v.len());

                // conservation across the tick
                assert forall|x: Person|
                    a2.add(w2).add(p2.to_multiset()).count(x) == a1.add(w1).add(
                        orig.to_multiset(),
                    ).count(x) by {
                    assert(a2.add(floor_arrived_ms(fl0)).count(x) == a1.add(
                        floor_arrived_ms(fl_fin),
                    ).count(x));
                    assert(w2.add(floor_waiting_ms(fl0)).count(x) == w1.add(
                        floor_waiting_ms(fl_fin),
                    ).count(x));
                    assert(kept_v.to_multiset().add(arr_after.to_multiset()).count(x)
                        == orig.to_multiset().add(fl0.arrived@.to_multiset()).count(x));
                    if dchk == Direction::Up {
                        assert(p2.to_multiset().add(fl_fin.up@.to_multiset()).count(x)
                            == kept_v.to_multiset().add(fl0.up@.to_multiset()).count(x));
                    } else {
                        assert(p2.to_multiset().add(fl_fin.down@.to_multiset()).count(x)
                            == kept_v.to_multiset().add(fl0.down@.to_multiset()).count(x));
                    }
                }
                assert(a2.add(w2).add(p2.to_multiset()) =~= a1.add(w1).add(orig.to_multiset()));

                // undelivered count across the tick
                assert(w2.add(floor_waiting_ms(fl0)).len() == w1.add(
                    floor_waiting_ms(fl_fin),
                ).len());
                assert(w2.len() + floor_waiting_ms(fl0).len() == w1.len() + floor_waiting_ms(
                    fl_fin,
                ).len());
                assert(floor_waiting_ms(fl_fin).len() == floor_waiting_ms(fl0).len() - b);
                assert(w2.len() == w1.len() - b);
                assert(p2.len() == orig.len() - k + b);
                let u2: int = self.undelivered();
                assert(u2 == u1 - k);

                // well-formedness is restored
                assert forall|h: int| 0 <= h < n implies self.wf_floor_at(h) by {
                    assert(pre.wf_floor_at(h));
                    if h == f1 {
                        assert(forall|j: int|
                            0 <= j < fl_fin.up@.len() ==> fl_fin.up@[j] == fl0.up@[j + (fl0.up@.len()
                                - fl_fin.up@.len())]);
                        assert(forall|j: int|
                            0 <= j < fl_fin.down@.len() ==> fl_fin.down@[j] == fl0.down@[j + (
                            fl0.down@.len() - fl_fin.down@.len())]);
                    } else {
                        assert(fs2[h] == fs1[h]);
                    }
                }
                assert(self.wf());

                // the measure strictly decreases
                let m2: int = self.run_measure(dchk);
                pre.lemma_phase_bounds(d1);
                self.lemma_phase_bounds(dchk);
                assert(u2 >= 0);
                assert(u2 * c >= 0) by (nonlinear_arith)
                    requires
                        u2 >= 0,
                        c >= 0,
                ;
                assert(m2 >= 0);
                if k >= 1 {
                    assert((u1 - k) * c == u1 * c - k * c) by (nonlinear_arith);
                    assert(k * c >= c) by (nonlinear_arith)
                        requires
                            k >= 1,
                            c >= 0,
                    ;
                    assert(self.phase(dchk) <= 3 * n);
                    assert(m2 <= m1 - 2);
                } else if orig.len() > 0 {
                    assert(dchk == d1);
                    assert(p2.len() > 0);
                    assert(pre.phase(d1) == if d1 == Direction::Up {
                        n - 1 - f1
                    } else {
                        f1
                    });
                    assert(self.phase(dchk) == pre.phase(d1) - 1);
                    assert(m2 == m1 - 1);
                } else {
                    // empty car: the sweep closes in on some waiting passenger
                    assert(kept_v.len() == 0 && k == 0 && p2.len() == b);
                    assert(!pre.building.spec_is_empty());
                    let gw = choose|g: int|
                        0 <= g < n && (#[trigger] fs1[g]).spec_has_waiting();
                    assert(fs1[gw].spec_has_waiting());
                    if fs1[gw].up@.len() > 0 {
                        assert(has_waiter(fs1, (gw, Direction::Up)));
                    } else {
                        assert(has_waiter(fs1, (gw, Direction::Down)));
                    }
                    assert(exists|t: (int, Direction)| has_waiter(fs1, t));
                    let tw = choose|t: (int, Direction)| has_waiter(fs1, t);
                    assert(pre.phase(d1) == n + 2 + path_dist(n, f1, dchk, tw.0, tw.1));
                    pre.lemma_waiter_valid(tw);
                    if b >= 1 {
                        assert(self.phase(dchk) <= n - 1);
                        assert(m2 <= m1 - 1);
                    } else {
                        assert(p2.len() == 0);
                        if dchk == Direction::Up {
                            assert(fl_fin.up@.len() == upb.len());
                        } else {
                            assert(fl_fin.down@.len() == downb.len());
                        }
                        assert(fl_fin == fla);
                        assert(arr_after.len() == fl0.arrived@.len());
                        assert(fla == fl0);
                        assert(fs2 =~= fs1);
                        assert(dchk == Direction::Up ==> fl0.up@.len() == 0);
                        assert(dchk == Direction::Down ==> fl0.down@.len() == 0);
                        assert(!(tw.0 == f1 && tw.1 == dchk));
                        lemma_path_dist_step(n, f1, dchk, tw.0, tw.1);
                        assert(self.phase(dchk) == n + 2 + path_dist(
                            n,
                            f2,
                            next_direction(dchk, f2, n),
                            tw.0,
                            tw.1,
                        ));
                        assert(self.phase(dchk) == pre.phase(d1) - 1);
                        assert(m2 == m1 - 1);
                    }
                }
                assert(m2 <= m1 - 1);

                // the tick counter stays within its budget
                assert(u1 * c >= c) by (nonlinear_arith)
                    requires
                        u1 >= 1,
                        c >= 0,
                ;
                assert(pre.phase(d1) >= 0);
                assert(m1 >= c);
                assert(count + 1 + m2 <= m0);
            }
            count = count + 1;
        }
        proof {
            lemma_waiting_ms_empty(self.building.floors@);
            assert(self.elevator.people@.to_multiset().len() == 0);
            assert(self.elevator.people@.to_multiset() =~= Multiset::<Person>::empty());
            assert(init.elevator.people@.to_multiset().len() == 0);
            assert(init.elevator.people@.to_multiset() =~= Multiset::<Person>::empty());
            assert(arrived_ms(self.building.floors@) =~= arrived_ms(init.building.floors@).add(
                waiting_ms(init.building.floors@),
            ));
        }
        count
    }

    /// True iff the car can keep moving in `direction`.
    pub fn can_move_direction(&self, direction: &Direction) -> (b: bool)
        ensures
            b == spec_can_move(*direction, self.elevator.floor as int, self.floor_count()),
    {
        match *direction {
            Direction::Up => self.can_move_up(),
            Direction::Down => self.can_move_down(),
            Direction::Idle => true,
        }
    }

    /// True iff the car is below the top floor.
    pub fn can_move_up(&self) -> (b: bool)
        ensures
            b == ((self.elevator.floor as int) < self.floor_count() - 1),
    {
        self.building.floors.len() > 0 && self.elevator.floor < self.building.floors.len() - 1
    }

    /// True iff the car is above floor 0.
    pub fn can_move_down(&self) -> (b: bool)
        ensures
            b == (self.elevator.floor > 0),
    {
        self.elevator.floor > 0
    }

    /// Files a passenger standing on floor `*floor` onto that floor's
    /// queue matching its travel direction; a passenger already at its
    /// destination needs no transport and is dropped.
    pub fn add_person(&mut self, floor: &usize, person: Person)
        requires
            old(self).wf(),
            (*floor as int) < old(self).floor_count(),
            (person.destination as int) < old(self).floor_count(),
        ensures
            final(self).wf(),
            final(self).floor_count() == old(self).floor_count(),
            final(self).elevator == old(self).elevator,
            final(self).events == old(self).events,
            arrived_ms(final(self).building.floors@) == arrived_ms(old(self).building.floors@),
            person.destination != *floor ==> waiting_ms(final(self).building.floors@)
                == waiting_ms(old(self).building.floors@).insert(person),
            person.destination == *floor ==> *final(self) == *old(self),
            person.destination > *floor ==> {
                &&& final(self).building.floors@[*floor as int].up@
                    == old(self).building.floors@[*floor as int].up@.push(person)
                &&& final(self).building.floors@[*floor as int].down@
                    == old(self).building.floors@[*floor as int].down@
            },
            person.destination < *floor ==> {
                &&& final(self).building.floors@[*floor as int].down@
                    == old(self).building.floors@[*floor as int].down@.push(person)
                &&& final(self).building.floors@[*floor as int].up@
                    == old(self).building.floors@[*floor as int].up@
            },
            forall|g: int|
                0 <= g < old(self).floor_count() && g != *floor
                    ==> final(self).building.floors@[g] == old(self).building.floors@[g],
    {
        let g = *floor;
        let ghost fs0 = self.building.floors@;
        let d = person.direction(g);
        match d {
            Direction::Up => {
                let mut fl = self.building.floors.remove(g);
                let ghost flg = fs0[g as int];
                fl.add_up(person);
                self.building.floors.insert(g, fl);
                proof {
                    assert(self.building.floors@ =~= fs0.update(g as int, fl));
                    lemma_ms_update(fs0, g as int, fl);
                    assert(floor_waiting_ms(fl) =~= floor_waiting_ms(flg).insert(person));
                    assert forall|x: Person|
                        waiting_ms(self.building.floors@).count(x) == waiting_ms(fs0).insert(
                            person,
                        ).count(x) by {
                        assert(waiting_ms(fs0.update(g as int, fl)).add(
                            floor_waiting_ms(flg),
                        ).count(x) == waiting_ms(fs0).add(floor_waiting_ms(fl)).count(x));
                    }
                    assert(waiting_ms(self.building.floors@) =~= waiting_ms(fs0).insert(person));
                    assert forall|x: Person|
                        arrived_ms(self.building.floors@).count(x) == arrived_ms(fs0).count(
                            x,
                        ) by {
                        assert(arrived_ms(fs0.update(g as int, fl)).add(
                            floor_arrived_ms(flg),
                        ).count(x) == arrived_ms(fs0).add(floor_arrived_ms(fl)).count(x));
                        assert(floor_arrived_ms(fl) == floor_arrived_ms(flg));
                    }
                    assert(arrived_ms(self.building.floors@) =~= arrived_ms(fs0));
                    assert forall|h: int| 0 <= h < self.floor_count() implies self.wf_floor_at(
                        h,
                    ) by {
                        assert(old(self).wf_floor_at(h));
                        if h == g as int {
                            assert(fl.up@.last() == person);
                        }
                    }
                }
            },
            Direction::Down => {
                let mut fl = self.building.floors.remove(g);
                let ghost flg = fs0[g as int];
                fl.add_down(person);
                self.building.floors.insert(g, fl);
                proof {
                    assert(self.building.floors@ =~= fs0.update(g as int, fl));
                    lemma_ms_update(fs0, g as int, fl);
                    assert(floor_waiting_ms(fl) =~= floor_waiting_ms(flg).insert(person));
                    assert forall|x: Person|
                        waiting_ms(self.building.floors@).count(x) == waiting_ms(fs0).insert(
                            person,
                        ).count(x) by {
                        assert(waiting_ms(fs0.update(g as int, fl)).add(
                            floor_waiting_ms(flg),
                        ).count(x) == waiting_ms(fs0).add(floor_waiting_ms(fl)).count(x));
                    }
                    assert(waiting_ms(self.building.floors@) =~= waiting_ms(fs0).insert(person));
                    assert forall|x: Person|
                        arrived_ms(self.building.floors@).count(x) == arrived_ms(fs0).count(
                            x,
                        ) by {
                        assert(arrived_ms(fs0.update(g as int, fl)).add(
                            floor_arrived_ms(flg),
                        ).count(x) == arrived_ms(fs0).add(floor_arrived_ms(fl)).count(x));
                        assert(floor_arrived_ms(fl) == floor_arrived_ms(flg));
                    }
                    assert(arrived_ms(self.building.floors@) =~= arrived_ms(fs0));
                    assert forall|h: int| 0 <= h < self.floor_count() implies self.wf_floor_at(
                        h,
                    ) by {
                        assert(old(self).wf_floor_at(h));
                        if h == g as int {
                            assert(fl.down@.last() == person);
                        }
                    }
                }
            },
            Direction::Idle => {},
        }
    }
}

/// A building whose arrived bins are all empty has an empty arrived
/// multiset.
pub proof fn lemma_arrived_ms_all_empty(fs: Seq<Floor>)
    requires
        forall|g: int| 0 <= g < fs.len() ==> (#[trigger] fs[g]).arrived@.len() == 0,
    ensures
        arrived_ms(fs) == Multiset::<Person>::empty(),
    decreases fs.len(),
{
    if fs.len() > 0 {
        lemma_arrived_ms_all_empty(fs.drop_last());
        assert(fs.last().arrived@ =~= Seq::<Person>::empty());
        assert(arrived_ms(fs) =~= Multiset::<Person>::empty());
    } else {
        assert(arrived_ms(fs) =~= Multiset::<Person>::empty());
    }
}

} // verus!
