//! The rules of a mine-clearing puzzle: a rectangular grid whose mines are laid
//! on the first reveal, away from the revealed cell, and opened cell by cell.

pub mod cell;
pub mod tally;
pub mod board;
pub mod audit;
pub mod flood;
pub mod solve;
pub mod mouse;
pub mod laws;
