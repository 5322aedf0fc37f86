//! A turn-based fishing simulation on a hexagonal grid: a fisherman hunts
//! marlins and fights sharks, whose movement follows simple stateful rules.
pub mod entities;
pub mod level;
pub mod map;
mod rng;
