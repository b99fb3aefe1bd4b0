//! An exact-arithmetic twisty-puzzle toolkit: arbitrary-precision integers,
//! rationals, modular integers and polynomials over them, with the helpers
//! that the simulator's front ends share.

pub mod batch;
pub mod catalog;
pub mod error;
pub mod exact;
pub mod extension;
pub mod layout;
pub mod math;
pub mod menu;
pub mod movement;
pub mod num;
pub mod parse;
pub mod piece;
pub mod polyhedra;
pub mod render;
pub mod simulator;
pub mod turning;
