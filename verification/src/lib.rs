//! A 9×9 number-place solver that works by constraint propagation alone:
//! peer elimination, naked singles and hidden singles, repeated until the
//! grid is full or a round places nothing. It does not guess, and it does
//! not check that the clues agree with each other.

pub mod board;
pub mod elimination;
pub mod equality;
pub mod grid;
pub mod input;
pub mod position;
pub mod propagation;
pub mod render;
pub mod singles;
pub mod soundness;
pub mod unit;
