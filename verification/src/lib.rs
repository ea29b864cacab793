//! A deterministic, allocation-free pseudo-random number engine.
//!
//! * [`pcg32_32`] holds the generator itself: two 32-bit words, a seeding
//!   rule, the step that puts out a word, and the jump.
//! * [`lcg`] holds the linear congruential recurrence that carries the
//!   generator's state, and the routine that skips any number of its steps
//!   in logarithmic time. [`period`] shows how long its cycle is.
//! * [`gen32`] holds what follows from a step alone, for any generator of
//!   32-bit words: narrower and wider integers, unbiased bounded integers,
//!   picking from a slice and shuffling one.
//! * [`stream`], [`bounded`] and [`shuffling`] say what those operations
//!   compute: the words that a generator will give, which of them a bounded
//!   draw keeps, and the exchanges that a shuffle makes.
//! * [`free_utils`] makes the bit patterns of floating-point numbers in the
//!   unit range.
#![allow(unused_imports)]

pub mod bounded;
pub mod free_utils;
pub mod gen32;
pub mod lcg;
pub mod pcg32_32;
pub mod period;
pub mod shuffling;
pub mod stream;

pub use gen32::{Gen32, RawGen32};
pub use pcg32_32::Pcg32x32;
