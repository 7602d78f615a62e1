//! Rules engine and look-ahead search for ChessBall, a two-player board game in
//! which attackers and defenders move a neutral ball toward the opposing goal row.
pub mod board;
pub mod moves;
pub mod winning_moves;
pub mod blocking_move;
pub mod win_avoidability;
pub mod heuristics;
pub mod minimax;
pub mod move_laws;
pub mod text;
