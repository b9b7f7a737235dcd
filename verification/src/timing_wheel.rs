//! Hierarchical timing wheel and the pieces it is built from.

pub mod bucket;
pub mod gather;
pub mod hierarchical;
pub mod level;
pub mod position;
