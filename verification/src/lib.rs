//! The rules of Rust Lander: its high score table, its end screen, the
//! lander's lives, and the rescues, each with a contract and a proof.

pub mod decimal;
pub mod end_screen;
pub mod ground_cells;
pub mod high_score_table;
pub mod ids;
pub mod lander;
pub mod rescue;
