//! A codec between the binary script bytecode of a family of fighting games
//! and an editable text form, driven by a per-game instruction catalog.
pub mod endian;
pub mod error;
pub mod config;
pub mod text;
pub mod parser;
pub mod format;
pub mod rebuilder;
pub mod laws;
pub mod script;
pub mod round_trip;
pub mod text_round_trip;
pub mod legacy;
