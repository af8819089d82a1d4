//! Pictures as escapes a terminal draws.

pub mod base64;
pub mod kitty;
