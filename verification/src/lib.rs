//! Conversion of tile-based dungeon maps into the fixed-size binary room
//! records read by a legacy dungeon-crawler engine.
//!
//! The crate holds the record codec, the map validator, the room builder
//! and the world-graph assembly; reading and writing files is left to the
//! caller.

pub mod convert;
pub mod error;
pub mod pascal;
pub mod rms;
pub mod source;
pub mod validate;
pub mod world;
