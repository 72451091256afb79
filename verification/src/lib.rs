//! Synchronises session ("AK") data from an event-management service into a
//! wiki.  The crate aggregates flat category, owner, session and slot records
//! into one validated `Event` graph per event id, renders each session as
//! canonical wiki markup, and plans the wiki edits and deletions that make the
//! published pages match the current sessions.  All network transport lives
//! outside this crate; the functions here are pure and fully specified.

pub mod aktool;
pub mod duration;
pub mod idmap;
pub mod komapedia;
pub mod markup;
pub mod model;
pub mod reconcile;
pub mod text;
