//! Core logic of a multi-surface control plane for a tool-using coding agent:
//! session bookkeeping, settings and auth, tool catalog, skill descriptions,
//! message formatting and code-aware splitting, and session persistence.

use vstd::prelude::*;

pub mod codec;
pub mod commands;
pub mod complete;
pub mod dashboard;
pub mod files;
pub mod jsonio;
pub mod presenter;
pub mod session;
pub mod settings;
pub mod skills;
pub mod split;
pub mod term;
pub mod text;
pub mod tools;
pub mod util;

verus! {

/// Message length limit of surface A (per-message hard cap).
pub const MSG_LIMIT_A: usize = 2000;

/// Message length limit of surface B (per-message hard cap).
pub const MSG_LIMIT_B: usize = 4096;

} // verus!
