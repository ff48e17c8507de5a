//! A solver for five-letter word games of the Wordle kind.
//!
//! A [`game::Game`] holds the words that may still be the secret. Each round hands it a guess
//! and the feedback that the guess was given; the game folds the round into a
//! [`filter::Filter`], keeps the words that meet it, and suggests the most relevant of them as
//! the next guess. A [`simulation::Simulation`] plays a game against a known secret, and
//! [`interactive::App`] is the board of a game that a player feeds by hand.
//!
//! Every executable function is verified against its contract. The contracts speak of the
//! models of the data: a set of letters, the five letters of a word, the pool of a game.

pub mod feedback;
pub mod filter;
pub mod game;
pub mod interactive;
pub mod letter;
pub mod letter_map;
pub mod letter_set;
pub mod list;
pub mod simulation;
pub mod stats;
pub mod summary;
pub mod word;
