//! A text maze game: a randomly dug, fully connected maze in which one
//! player walks step by step towards a goal.

pub mod direction;
pub mod generator;
pub mod maze;
pub mod position;
pub mod reach;
