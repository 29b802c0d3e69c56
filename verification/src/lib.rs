//! A hierarchical to-do list: a tree of tasks addressed by dotted index
//! paths, with mutation through path resolution and a two-pass table
//! renderer that measures column widths over the whole tree before
//! laying out the rows.

pub mod item;
pub mod paths;
pub mod render;
pub mod laws;
