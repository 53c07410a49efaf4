use vstd::prelude::*;

pub mod board;
pub mod check;
pub mod coords;
pub mod error;
pub mod laws;
pub mod pairs;
pub mod render;
pub mod singles;
pub mod solver;
pub mod square;
pub mod text;
pub mod units;

verus! {

} // verus!
