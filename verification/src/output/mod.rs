//! Text renderings of a filter result.

pub mod xml;
pub mod table;
