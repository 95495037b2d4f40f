//! An interactive "hits and blows" digit-guessing game.
//!
//! The player picks a level `L` between 3 and 9; the game draws a secret
//! sequence of `L` pairwise-distinct decimal digits. Guesses are entered
//! digit by digit against a per-guess countdown; each completed guess is
//! scored as hits (right digit, right place) and blows (right digit, wrong
//! place). The scorer, the secret generator, and the per-tick decisions of
//! the round loop live here, verified; the terminal plumbing around them
//! does not.

pub mod game;
pub mod input;
mod rng;
pub mod round;
pub mod scoring;
