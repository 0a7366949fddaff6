//! A rules engine for a four-player tile-matching game: packed tile
//! multisets, bit-level pattern filters over rank counters, meld and
//! discard-pile records, a circular wall with a dead-wall reserve, and the
//! draw/discard/claim turn cycle.

pub mod action;
pub mod dice;
pub mod game;
pub mod meld;
pub mod rng;
pub mod table;
pub mod tile;
