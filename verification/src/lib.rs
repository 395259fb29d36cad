//! A terminal word-puzzle library in the style of "Spelling Bee".
//!
//! A round is seeded by a dictionary word with exactly seven distinct
//! letters; one of those letters is the mandatory "anchor" letter. The
//! library derives the letter pool, builds the complete solution set,
//! evaluates guesses against it, and renders the board. All of that
//! logic is verified; reading the dictionary and driving the terminal
//! live outside the library.

pub mod game;
pub mod letters;
pub mod render;
mod rng;
pub mod words;
