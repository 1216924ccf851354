//! VNStudio: cellular automata (von Neumann's 29-state automaton and Conway's
//! Game of Life) on an unbounded grid stored in chunks, together with the
//! pattern formats the studio reads and writes.
pub mod cell;
pub mod von_neumann;

pub mod game_of_life;
pub mod rule_lut;
pub mod storage;
pub mod evaluator;
pub mod automaton;
pub mod chunk_neighbors;
pub mod kernel_names;
pub mod text;
pub mod golly;
pub mod vns;
pub mod studio;
pub mod round_trip;
pub mod session;
