//! Verified solvers for a collection of small text puzzles. The two
//! centrepieces are the jigsaw tile assembly (`tiles`: orientation search,
//! edge matching, a sparse grid of placed tiles) and the sparse cellular
//! automaton over 3- and 4-dimensional cube space (`cubes`). Around them
//! stand the smaller solvers: grid walks, policy checks, tiny machines and
//! arithmetic puzzles, each with contracts that pin down what it computes.

pub mod adapters;
pub mod allergens;
pub mod boarding;
pub mod combat;
pub mod cubes;
pub mod customs;
pub mod docking;
pub mod encoding;
pub mod expenses;
pub mod handheld;
pub mod handshake;
pub mod hexfloor;
pub mod messages;
pub mod navigation;
pub mod passports;
pub mod passwords;
pub mod shuttle;
pub mod text;
pub mod tickets;
pub mod tiles;
pub mod toboggan;
