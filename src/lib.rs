//! Solutions to a set of grid, simulation and parsing puzzles, each verified
//! against its contract. The centre piece is `hill_climb`, a height-constrained
//! shortest-path engine over an elevation grid.
use vstd::prelude::*;

pub mod beacons;
pub mod calories;
pub mod camp_cleanup;
pub mod cathode;
pub mod distress;
pub mod filesystem;
pub mod hill_climb;
pub mod lava;
pub mod monkeys;
pub mod pyroclastic;
pub mod reservoir;
pub mod rock_paper_scissors;
pub mod rope;
pub mod rucksack;
pub mod supply_stacks;
pub mod tree_house;
pub mod tuning;

verus! {

} // verus!
