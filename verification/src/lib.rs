//! A personal shell-activity logger: a capture gate that decides whether an
//! interactive command invocation should be recorded, an append-only event
//! store with time-ordered scans, and an analytics engine that turns the flat
//! log into windowed digests, rankings, per-folder rollups and search results.

pub mod analytics;
pub mod event;
pub mod gate;
pub mod store;
pub mod text;

use vstd::prelude::*;

verus! {

} // verus!
