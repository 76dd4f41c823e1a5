//! Time-bounded tree search for a single-player grid game.
//!
//! A character walks a board of point cells for a fixed number of turns; the
//! engines choose its next move. [`beam`] keeps one frontier and expands its
//! best states turn by turn; [`chokudai`] keeps a frontier for every depth and
//! advances them all, round after round. Both work under a [`clock`] and
//! return a legal move whenever it expires.
//!
//! Every function carries its contract. The contracts speak of the game as a
//! mathematical value ([`maze::MazeModel`]) and of a frontier as the sequence
//! of its states, best first ([`frontier`]). What holds of the engines beyond
//! the contract of each is proved beside them: a counted budget fixes the
//! move ([`beam::law_beam_repeatable`], [`chokudai::law_chokudai_repeatable`]),
//! a beam of width 1 is greedy descent ([`greedy_descent`]), a beam that no
//! frontier outgrows searches the whole game tree ([`exhaustive`]) and so
//! chooses the first move of a best game ([`optimal`]), more rounds of
//! chokudai search never rest the choice on a worse state ([`anytime`]), and
//! with rounds enough it chooses no worse than beam search does
//! ([`patient`]).
//!
//! [`automove`] and [`local_search`] hold a second game, which plays itself
//! once its characters are placed, and the local search over placements.

pub mod anytime;
pub mod automove;
pub mod beam;
pub mod chokudai;
pub mod clock;
pub mod exhaustive;
pub mod expand;
pub mod frontier;
pub mod greedy;
pub mod greedy_descent;
pub mod local_search;
pub mod maze;
pub mod optimal;
pub mod ordering;
pub mod patient;
pub mod playout;
pub mod rng;
pub mod text;
