//! Slotted-page storage core of a disk-backed index: a fixed-size page
//! layout with a slot directory, overflow chains for large payloads and a
//! page manager that keeps the pages by identifier.
use vstd::prelude::*;

pub mod chain;
pub mod errors;
pub mod layout;
pub mod manager;
pub mod offset;
pub mod paging;
pub mod record;
pub mod types;

verus! {

} // verus!
