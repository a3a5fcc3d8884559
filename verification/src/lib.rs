//! A constraint-narrowing engine for a five-letter word-guessing game, and
//! a handful of smaller verified building blocks.
//!
//! The engine:
//! - [`word`], [`feedback`]: words, and the mask that comparing a guess with an
//!   answer produces, with its base-3 code;
//! - [`dictionary`]: the vocabulary of guesses and of answers;
//! - [`history`], [`candidates`]: the turns of a game, and the answers that
//!   they leave standing;
//! - [`natural`], [`ranking`]: ranking guesses by entropy, decided exactly on
//!   whole numbers;
//! - [`selector`]: five strategies behind one contract;
//! - [`game`]: one game from the first guess to the end.
//!
//! The building blocks:
//! - [`order`], [`sort`]: sorting a slice in place, five ways;
//! - [`strsplit`]: splitting text at a delimiter;
//! - [`pool`], [`myvec`], [`link_list`]: small containers;
//! - [`fat`]: static and dynamic dispatch;
//! - [`nuget`]: planning the installation of packages;
//! - [`collisions`]: which asteroids a collision destroys.

pub mod candidates;
pub mod collisions;
pub mod dictionary;
pub mod error;
pub mod fat;
pub mod feedback;
pub mod game;
pub mod history;
pub mod link_list;
pub mod myvec;
pub mod natural;
pub mod nuget;
pub mod order;
pub mod pool;
pub mod ranking;
pub mod selector;
pub mod sort;
pub mod strsplit;
pub mod word;
