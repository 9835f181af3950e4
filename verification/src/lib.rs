//! A Markov-chain playlist generator.
//!
//! The library builds a song-to-song transition table from a listening
//! history, reshapes each row's weights with a "creativity" parameter, and
//! performs a seeded weighted random walk over the table.  Weights are exact
//! rationals: each row stores integer numerators over one shared denominator,
//! so every reweighting step is verified arithmetic rather than floating
//! point.

pub mod song;
pub mod table;
pub mod smooth;
pub mod walk;
pub mod opts;
