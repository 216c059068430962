//! Verified core of a record-splitting pipeline: records are split into
//! units (bytes, grapheme clusters, or delimiter-separated fields), a
//! selection algebra picks units out, and the picked units are recombined
//! under join, placeholder, and alignment policies.

use vstd::prelude::*;

pub mod cli;
pub mod cli_tokens;
pub mod compose;
pub mod matcher;
pub mod process_bytes;
pub mod process_chars;
pub mod pipeline;
pub mod process_fields;
pub mod reader;
pub mod selection;
pub mod types;
pub mod utilities;
pub mod widths;
pub mod unicode;

verus! {

} // verus!
