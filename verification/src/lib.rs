//! Line-oriented file comparison: shortest edit scripts between two
//! sequences of lines and the classic textual renderings of such scripts.
use vstd::prelude::*;

pub mod edit;
pub mod text;
pub mod myers;
pub mod options;
pub mod diff;
pub mod hunks;
pub mod render;
pub mod cli;
pub mod report;
pub mod tools;
pub mod dirs;
pub mod scripts;
pub mod hunk_laws;
pub mod normal_laws;

verus! {

} // verus!
