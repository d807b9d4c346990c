//! A gravity simulation core on fixed-point integers: pairwise Newtonian
//! attraction, collision detection, merging of colliding bodies that keeps
//! mass, momentum and area, removal of consumed bodies, and integration.

pub mod arith;
pub mod body;
pub mod gravity;
pub mod merging;
pub mod frame;
