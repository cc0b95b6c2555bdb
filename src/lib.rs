//! Puzzle solvers over plain text input. The main two: a pipe maze whose
//! closed loop is measured and whose enclosed area is counted, and a network
//! of named nodes replayed against a cyclic instruction tape. Beside them,
//! smaller puzzles: cube games, boat races, scratchcards, camel-card hands,
//! sequence extrapolation, and a short rendering of large counts.
pub mod camel_cards;
pub mod cubes;
pub mod network;
pub mod numbers;
pub mod pipe_maze;
pub mod races;
pub mod scratchcards;
pub mod sequence;
pub mod text;
