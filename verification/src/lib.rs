//! A solver for 9×9 Sudoku puzzles that works by deduction alone.
//!
//! Every place of the grid holds a confirmed digit or the set of digits
//! that are still possible there. Three techniques take possible digits
//! away, each working on the units of the grid (its rows, columns and 3×3
//! blocks): single position, naked sets, and candidate lines. The solver
//! applies them in rounds until every place is confirmed or a round changes
//! nothing. It never guesses: a puzzle that deduction cannot decide is left
//! as far as deduction got.
//!
//! * [`sk_box`], [`sk_cell`], [`sudoku`]: a place, a block, the grid.
//! * [`bits`], [`unit`], [`grid`]: masks, units and the grid as mathematics.
//! * [`combinations`], [`single`], [`naked`], [`line`]: the techniques.
//! * [`solvers`], [`rounds`]: the passes over the grid, and the solving loop.
//! * [`shrink`], [`stable`], [`sound`]: what holds of every deduction.
//! * [`text`], [`pretty`], [`sudoku_builder`]: reading, showing and making grids.
pub mod bits;
pub mod combinations;
pub mod constants;
pub mod grid;
pub mod line;
pub mod naked;
pub mod pretty;
pub mod rounds;
pub mod shrink;
pub mod single;
pub mod sk_box;
pub mod sk_cell;
pub mod solvers;
pub mod sound;
pub mod stable;
pub mod sudoku;
pub mod sudoku_builder;
pub mod text;
pub mod unit;
