//! A verified minesweeper core: board generation, flood-fill reveal, the win
//! condition and the rules of a turn, each with a machine-checked contract.
//!
//! A position is a pair `(x, y)`: `x` counts the rows of the board from the
//! top, `y` the places of a row from the left.
//!
//! - `geometry`: rectangles, positions, and what touches what
//! - `grid`: the cells of a board, bombs and counts
//! - `visibility`: what the player sees of each position
//! - `random`: the random source, the one part that is trusted, not proved
//! - `generate`: a new board with bombs on random positions
//! - `flood`: revealing a position and what lies open around it
//! - `win`: whether the flags mark the bombs
//! - `render`: the board as lines of text
//! - `play`: command codes, moves and their outcome

pub mod flood;
pub mod generate;
pub mod geometry;
pub mod grid;
pub mod play;
pub mod random;
pub mod render;
pub mod visibility;
pub mod win;
