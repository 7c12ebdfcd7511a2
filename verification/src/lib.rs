//! Ranked, multi-office elections with region-reserved seats.
//!
//! An organizer defines an election (offices, reserved regions, candidates),
//! members build ranked ballots step by step, and the organizer asks for a
//! tally that assigns winners to offices.
//!
//! The crate is verified with Verus.  Four small functions are trusted
//! rather than proved, each marked where it stands: the shuffle of the
//! tally, the wall clock, the test for white space and the mutable access
//! to a guild's data.  Rendering, locking and file access live outside the
//! crate.

pub mod actions;
pub mod backup;
mod clock;
pub mod data;
pub mod election;
pub mod guild;
pub mod name_map;
pub mod seating;
pub mod session;
pub mod setup;
pub mod store;
pub mod tally;
pub mod text;
