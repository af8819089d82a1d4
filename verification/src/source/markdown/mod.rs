//! Markdown as a page.

pub mod builder;
pub mod emit;
pub mod event;
pub mod highlight;
pub mod layout;
pub mod measure;
pub mod page;
pub mod parse;
pub mod raster;
pub mod to_svg;
pub mod url;
pub mod wrap;
