//! Pictures and pages for a terminal that speaks the Kitty graphics protocol.

pub mod args;
pub mod columns;
pub mod config;
pub mod framebuffer;
pub mod geometry;
pub mod print;
pub mod render;
pub mod source;
pub mod term;
pub mod text;
pub mod tui;
