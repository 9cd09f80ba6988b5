use vstd::prelude::*;

pub mod cell;
pub mod util;
pub mod equality;
pub mod grid;
pub mod solution;
pub mod sbox;
pub mod placement;
pub mod candidates;
pub mod techniques;
pub mod siblings;
pub mod exclusives;
pub mod xwing;
pub mod solver;
pub mod sudoku;
pub mod laws;

verus! {

} // verus!
