//! A two-phase solver for the 3x3x3 cube: combinatorial indexing, the twist
//! vocabulary, the cubie model and the coordinate cubes derived from it, move
//! tables, pruning tables and the iterative-deepening search that uses them.
//!
//! The cubies are the ground truth: `corners` and `edges` say what a turn does
//! to them. `cube` holds the same state as six numbers, `twister` the tables
//! by which a turn takes the numbers to the numbers, and `consistency` shows
//! that the numbers follow the cubies. `tables` makes the pruning tables by a
//! search in breadth, and `two_phase` searches with them.

pub mod bits;
pub mod config;
pub mod consistency;
pub mod corners;
pub mod cube;
pub mod edges;
pub mod math;
pub mod multi_twister;
pub mod parity;
pub mod spaces;
pub mod stored_tables;
pub mod subset;
pub mod tables;
pub mod text;
pub mod turns;
pub mod twist;
pub mod twister;
pub mod two_phase;

pub use config::{config_value, CORNERS_TABLE, COSET_TABLE, DEFAULT_CONFIG, SUBSET_TABLE};
pub use corners::Corners;
pub use cube::{CornersCube, CosetCube, Cube, SubsetCube, SOLVED_SLICE_LOC};
pub use edges::Edges;
pub use math::{
    binomial, combination_index, factorial, is_even_permutation, is_even_permutation_array,
    is_odd_permutation, nth_combination, nth_permutation, permutation_index,
};
pub use multi_twister::MultiTwister;
pub use spaces::{CornerLookup, CornerSpace, CosetSpace, SubsetSpace};
pub use stored_tables::{
    corners_distance_table, coset_direction_table, is_corners_table, is_coset_table,
    is_subset_table, subset_distance_table,
};
pub use tables::{DirectionsAndDistance, DirectionsTable, DistanceTable, Numbered, StateSpace};
pub use twist::{inversed, parse_twists, parse_words, RandomTwistGen, Twist, Twistable, Twists};
pub use twister::{AllTwister, Twister};
pub use two_phase::{stat_line, TwoPhaseSolver};
