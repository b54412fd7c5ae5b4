//! Inspection of mobile view hierarchies: the element tree of a UI dump,
//! attribute and XPath filters over it, and its text renderings, with what
//! the command-line tool decides about devices, configuration and its
//! interactive session.

pub mod attr;
pub mod attrmap;
pub mod cli;
pub mod config;
pub mod error;
pub mod filter;
pub mod model;
pub mod output;
pub mod platform;
pub mod repl;
pub mod text;
