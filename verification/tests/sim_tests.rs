use elevator_sim::building::Building;
use elevator_sim::direction::Direction;
use elevator_sim::elevator::Elevator;
use elevator_sim::floor::Floor;
use elevator_sim::person::Person;
use elevator_sim::sim::{Event, Sim};

fn person(name: &str, destination: usize) -> Person {
    Person {
        destination,
        name: name.to_string(),
    }
}

#[test]
fn swap_alternates_up_and_down() {
    let mut d = Direction::Up;
    d.swap();
    assert_eq!(d, Direction::Down);
    d.swap();
    assert_eq!(d, Direction::Up);
    let mut idle = Direction::Idle;
    idle.swap();
    assert_eq!(idle, Direction::Idle);
}

#[test]
fn classify_relative_to_current_floor() {
    let p = person("ana", 3);
    assert_eq!(p.direction(1), Direction::Up);
    assert_eq!(p.direction(4), Direction::Down);
    assert_eq!(p.direction(3), Direction::Idle);
}

#[test]
fn floor_queues_and_waiting() {
    let mut fl = Floor::new();
    assert!(!fl.has_waiting());
    fl.add_up(person("ana", 3));
    assert!(fl.has_waiting());
    fl.add_down(person("bo", 0));
    fl.add_arrived(person("cy", 1));
    assert_eq!(fl.up.len(), 1);
    assert_eq!(fl.down.len(), 1);
    assert_eq!(fl.arrived.len(), 1);
    assert_eq!(fl.get_waiting_for_direction(&Direction::Up).len(), 1);
    assert_eq!(
        fl.get_waiting_for_direction(&Direction::Up)[0].name,
        "ana".to_string()
    );
    assert_eq!(
        fl.get_waiting_for_direction(&Direction::Down)[0].name,
        "bo".to_string()
    );
    assert_eq!(
        fl.get_waiting_for_direction(&Direction::Idle)[0].name,
        "cy".to_string()
    );
}

#[test]
fn arrived_bin_never_counts_as_waiting() {
    let mut fl = Floor::new();
    fl.add_arrived(person("cy", 1));
    assert!(!fl.has_waiting());
}

#[test]
fn elevator_capacity_and_moves() {
    let mut e = Elevator::new(2);
    assert_eq!(e.floor, 0);
    assert!(e.has_space());
    e.people.push(person("ana", 3));
    e.people.push(person("bo", 4));
    assert!(!e.has_space());
    e.move_up();
    assert_eq!(e.floor, 1);
    e.move_down();
    assert_eq!(e.floor, 0);
    e.move_up();
    e.move_direction(&Direction::Idle);
    assert_eq!(e.floor, 0);
    let moved = e.set_floor(3);
    assert_eq!(moved.floor, 3);
    assert_eq!(moved.people.len(), 2);
    assert_eq!(moved.capacity, 2);
}

#[test]
fn building_is_empty_until_someone_waits() {
    let b = Building::new(5);
    assert_eq!(b.floors.len(), 5);
    assert!(b.is_empty());
    let mut b = Building::new(3);
    b.floors[1].add_up(person("ana", 2));
    assert!(!b.is_empty());
}

#[test]
fn add_person_files_by_direction() {
    let mut sim = Sim::new();
    sim.add_person(&1, person("riser", 4));
    sim.add_person(&3, person("sinker", 0));
    sim.add_person(&2, person("settled", 2));
    assert_eq!(sim.building.floors[1].up.len(), 1);
    assert_eq!(sim.building.floors[3].down.len(), 1);
    // a passenger already at its destination is dropped
    assert!(!sim.building.floors[2].has_waiting());
    assert_eq!(sim.building.floors[2].up.len(), 0);
    assert_eq!(sim.building.floors[2].down.len(), 0);
}

#[test]
fn can_move_respects_boundaries() {
    let mut sim = Sim::new();
    assert!(sim.can_move_up());
    assert!(!sim.can_move_down());
    assert!(sim.can_move_direction(&Direction::Up));
    assert!(!sim.can_move_direction(&Direction::Down));
    assert!(sim.can_move_direction(&Direction::Idle));
    sim.elevator = sim.elevator.set_floor(4);
    assert!(!sim.can_move_up());
    assert!(sim.can_move_down());
}

#[test]
fn empty_building_terminates_immediately() {
    let mut sim = Sim::new();
    let ticks = sim.run();
    assert_eq!(ticks, 0);
    assert_eq!(sim.events.len(), 0);
}

// Single passenger, five floors, capacity two, car placed on the
// passenger's start floor. The car boards at floor 2, delivers at
// floor 4, and the final tick (reversal at the top and the mandatory
// move) still counts: 2->3, 3->4, then 4->3 after the drop-off.
#[test]
fn single_passenger_from_floor_two() {
    let mut sim = Sim::new();
    sim.elevator = sim.elevator.set_floor(2);
    sim.add_person(&2, person("ana", 4));
    assert_eq!(sim.building.floors[2].up.len(), 1);
    let ticks = sim.run();
    assert_eq!(ticks, 3);
    assert_eq!(sim.building.floors[4].arrived.len(), 1);
    assert_eq!(sim.building.floors[4].arrived[0].name, "ana".to_string());
    assert!(sim
        .events
        .iter()
        .any(|e| matches!(e, Event::Board { name, floor } if name == "ana" && *floor == 2)));
    assert!(sim
        .events
        .iter()
        .any(|e| matches!(e, Event::Disembark { name, floor } if name == "ana" && *floor == 4)));
}

// Two passengers board together at floor 0 (capacity 2 admits both);
// the first leaves at floor 1, the second at floor 3, and the move of
// the tick that delivers the second passenger still counts.
#[test]
fn two_passengers_share_the_car() {
    let mut sim = Sim::new();
    sim.add_person(&0, person("ana", 1));
    sim.add_person(&0, person("bo", 3));
    let ticks = sim.run();
    assert_eq!(ticks, 4);
    assert_eq!(sim.building.floors[1].arrived.len(), 1);
    assert_eq!(sim.building.floors[1].arrived[0].name, "ana".to_string());
    assert_eq!(sim.building.floors[3].arrived.len(), 1);
    assert_eq!(sim.building.floors[3].arrived[0].name, "bo".to_string());
}

// Capacity one with two passengers both bound for the top: the car
// delivers the first (4 moves), reverses at the top boundary, returns
// to floor 0 (1 + 4 moves, the first being the move of the drop-off
// tick), carries the second up (1 + 4 moves), and makes one final move
// after the last drop-off. Nobody starves: the sweep reverses only at
// the boundaries.
#[test]
fn capacity_one_forces_a_full_return() {
    let mut sim = Sim::with_config(5, 1);
    sim.add_person(&0, person("first", 4));
    sim.add_person(&0, person("second", 4));
    let ticks = sim.run();
    assert_eq!(ticks, 13);
    assert_eq!(sim.building.floors[4].arrived.len(), 2);
    let boards: Vec<&Event> = sim
        .events
        .iter()
        .filter(|e| matches!(e, Event::Board { .. }))
        .collect();
    assert_eq!(boards.len(), 2);
    assert!(matches!(boards[0], Event::Board { name, floor } if name == "first" && *floor == 0));
    assert!(matches!(boards[1], Event::Board { name, floor } if name == "second" && *floor == 0));
}

// Conservation on a mixed population: everyone enqueued with
// destination != start ends in the arrived bin of its destination.
#[test]
fn every_passenger_is_delivered_exactly_once() {
    let mut sim = Sim::new();
    sim.add_person(&0, person("a", 4));
    sim.add_person(&4, person("b", 0));
    sim.add_person(&2, person("c", 1));
    sim.add_person(&1, person("d", 3));
    sim.add_person(&3, person("e", 3)); // already home, dropped
    sim.run();
    let delivered: usize = sim.building.floors.iter().map(|f| f.arrived.len()).sum();
    assert_eq!(delivered, 4);
    for fl in 0..5 {
        for p in sim.building.floors[fl].arrived.iter() {
            assert_eq!(p.destination, fl);
        }
        assert_eq!(sim.building.floors[fl].up.len(), 0);
        assert_eq!(sim.building.floors[fl].down.len(), 0);
    }
    assert_eq!(sim.elevator.people.len(), 0);
}

// The car never holds more passengers than its capacity: with capacity
// one and many waiting passengers, boardings and drop-offs alternate.
#[test]
fn boardings_never_exceed_capacity() {
    let mut sim = Sim::with_config(4, 1);
    sim.add_person(&0, person("a", 1));
    sim.add_person(&0, person("b", 2));
    sim.add_person(&0, person("c", 3));
    sim.run();
    let mut aboard: isize = 0;
    for e in sim.events.iter() {
        match e {
            Event::Board { .. } => {
                aboard += 1;
                assert!(aboard <= 1);
            }
            Event::Disembark { .. } => {
                aboard -= 1;
                assert!(aboard >= 0);
            }
            Event::Move { .. } => {}
        }
    }
    assert_eq!(aboard, 0);
}

#[test]
fn tick_count_matches_move_events() {
    let mut sim = Sim::new();
    sim.add_person(&1, person("a", 4));
    sim.add_person(&3, person("b", 0));
    let ticks = sim.run();
    let moves = sim
        .events
        .iter()
        .filter(|e| matches!(e, Event::Move { .. }))
        .count();
    assert_eq!(ticks, moves);
}
