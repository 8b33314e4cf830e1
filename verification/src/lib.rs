//! A revision-log engine for collaborative text editing.
//!
//! The engine owns an append-only log of revisions and a monotonically
//! growing "union" text that keeps every character ever inserted.  Edits may
//! be computed against a stale revision; the engine rebases them into the
//! union coordinate frame with priority tie-breaking, and supports selective,
//! group-based undo by replaying the whole history.

pub mod delta;
pub mod engine;
pub mod subset;
