pub mod bits;
pub mod moves;
pub mod plist;
pub mod reach;
pub mod text;
pub mod game;
pub mod pqueue;
pub mod hungarian;
pub mod board;
pub mod zobrist;
pub mod sort;
pub mod heuristic;
pub mod deadlocks;
pub mod corral;
pub mod levels;
pub mod solver;
pub mod relaxed;
pub mod trace;
