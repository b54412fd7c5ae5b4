//! The device platforms and what the library decides about their output.

pub mod android;
pub mod ios;

use vstd::prelude::*;

use crate::error::InspectorError;

verus! {

/// A source of UI dumps.
pub trait Platform {
    /// The XML text of the current view hierarchy.
    fn dump_xml(&self) -> Result<String, InspectorError>;

    /// The name of the platform, as shown in prompts.
    fn name(&self) -> &'static str;
}

} // verus!
