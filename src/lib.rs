//! Outcome statistics of chess games by month, opening family and rating band.
//!
//! The library splits a stream of game records into games, reads their header tags,
//! derives each game's key (month, opening family, rating buckets of both sides) and
//! counts results per key; counts of separate batches merge into the counts of all games.
//! It also plans which monthly archives of a published index remain to be ingested.

pub mod aggregator;
pub mod config;
pub mod db;
pub mod eco;
pub mod model;
pub mod pgn;
pub mod remote;
pub mod text;
pub mod verbose;
