//! The viewer.

pub mod bands;
pub mod draw;
pub mod keys;
pub mod load;
pub mod search;
pub mod view;
pub mod viewer;
