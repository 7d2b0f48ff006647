//! A single-car elevator simulation: floors hold queues of waiting
//! passengers, the car sweeps the building in a cocktail-shaker pattern,
//! and the simulation counts the number of moves needed to deliver
//! every passenger to its destination floor.

pub mod building;
pub mod direction;
pub mod elevator;
pub mod floor;
pub mod manifest;
pub mod person;
pub mod sim;
