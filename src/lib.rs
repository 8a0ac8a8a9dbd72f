//! Turns a tree of categorised mockup screenshots into a model of
//! categories, sections and images, and plans the static site and the
//! thumbnails built from it.

pub mod text;
pub mod filename;
pub mod encoding;
pub mod sorting;
pub mod structure;
pub mod builder;
pub mod laws;
pub mod thumbs;
pub mod site;
