//! Two line-oriented puzzle solvers: calibration values read from lines of
//! text, and cube games read from their one-line records.
//!
//! Every function reads its line as the bytes of its UTF-8 encoding, and the
//! contracts speak of that byte sequence. For calibration values the module
//! `characters` shows that reading the line character by character comes to
//! the same.

pub mod calibration;
pub mod characters;
pub mod cubes;
pub mod decimal;
pub mod text;
