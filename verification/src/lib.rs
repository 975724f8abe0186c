//! The rules of a grid puzzle of coloured cubes: points and neighbourhoods,
//! lookups, motions, frozen areas, snapshots and the level format.
#![allow(unused_imports)]

pub mod common;
pub mod game;
pub mod model;
pub mod refactor;
pub mod rule;
pub mod seed;
