//! A simulator for the hundred prisoners problem.
//!
//! A game hides the numbers 1 to 100 in a 10 by 10 grid of boxes. Each
//! prisoner follows the chain of numbers that starts at the box labelled with
//! their own number, and may open at most 50 boxes. The game is won when every
//! prisoner finds their own number.
pub mod grid;
pub mod game;
pub mod trials;
