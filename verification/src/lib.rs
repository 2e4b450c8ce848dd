//! A tiled wave-function-collapse solver.
//!
//! Each cell of a rectangular grid starts out allowing every tile.  Cells are
//! collapsed one at a time, and the consequences of each collapse are
//! propagated to the neighbouring cells until either every cell holds a single
//! tile or some cell has none left.  With leave to backtrack, a collapse that
//! empties a cell is undone and ruled out.
//!
//! The executable code:
//!
//! * [`boundary`]: compass directions and the border code of a tile;
//! * [`entry`]: tiles drawn with one character each;
//! * [`fieldpoint`]: one cell, with the step at which it lost each tile;
//! * [`changequeue`] and [`containerutils`]: the worklist of propagation and
//!   the borrowing of two cells at a time;
//! * [`selection`]: keeping track of the best cell while scanning for the
//!   next one to collapse;
//! * [`field`]: the grid, with the closing of its edges, propagation, steps
//!   and backtracking.
//!
//! What it is proved against:
//!
//! * [`grid`]: the geometry of the grid, arc consistency, and what
//!   propagation from a set of waiting cells leaves of an assignment;
//! * [`state`]: a field as plain mathematical values, and what the
//!   operations on it make of them;
//! * [`propagation`], [`closing`] and [`backtracking`]: the lemmas behind the
//!   contracts of [`field`].
//!
//! Which cell to collapse next and to which tile is a matter of weights and
//! of chance.  The weights are real numbers and stay with the caller, who
//! tells the library how two entropies compare and how each draw came out.

pub mod backtracking;
pub mod boundary;
pub mod changequeue;
pub mod closing;
pub mod containerutils;
pub mod entry;
pub mod field;
pub mod fieldpoint;
pub mod grid;
pub mod propagation;
pub mod selection;
pub mod state;
