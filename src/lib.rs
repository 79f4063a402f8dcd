pub mod ai;
pub mod logic;
pub mod mcts;
pub mod minmax;
pub mod platform;
pub mod board_lemmas;
