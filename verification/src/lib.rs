//! Scheduling core for a spaced-repetition vocabulary trainer.
//!
//! The library decides which vocabulary items a learner sees and when:
//! a spaced-repetition interval engine maps each right or wrong answer to a
//! new review interval and difficulty estimate, an introduction scorer ranks
//! catalog items so that a multi-character word never comes before its
//! component characters, and an unlock scheduler releases new items in
//! cooldown-gated batches.
//!
//! All durations are held as whole minutes and the ease factor in hundredths,
//! so every computation is exact integer arithmetic.

pub mod cards;
pub mod catalog;
pub mod cedict;
pub mod clock;
pub mod merge;
pub mod progress;
pub mod scheduler;
pub mod score;
pub mod sessions;
pub mod sortutil;
pub mod srs;
pub mod strutil;
pub mod subtlex;
pub mod timefmt;
