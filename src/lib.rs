//! A replica-friendly event log for time tracking: edits are patches that
//! merge in any causally consistent order, and the merged history flattens
//! to one start and a tag set per event, with conflicts reported.
use vstd::prelude::*;

pub mod event;
pub mod idset;
pub mod order;
pub mod patch;
pub mod timesheet;

pub use crate::event::{Event, PatchedEvent};
pub use crate::patch::{AddStart, AddTag, CreateEvent, Patch, RemoveStart, RemoveTag, Timestamp};
pub use crate::timesheet::{PatchedTimesheet, Timesheet};

verus! {

/// Names a patch; also how a patch names its predecessors.
pub type PatchRef = u128;

/// Names an event.
pub type EventRef = String;

/// A tag label.
pub type Tag = String;

} // verus!
