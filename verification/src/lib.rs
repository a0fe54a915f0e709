//! Left-Center-Right as a Markov chain: every position of the game for a
//! table of players, and the exact chance that one roll turns one position
//! into another.

pub mod counting;
pub mod enumeration;
pub mod markov;
pub mod matrix;
pub mod probability;
pub mod rolling;
pub mod state;
