//! A Minesweeper game core: the grid of cells, randomized mine placement with
//! a safe first click, flood-fill revelation, flag bookkeeping, and the
//! session state machine with its timer.

pub mod field;
pub mod rng;
pub mod state;
