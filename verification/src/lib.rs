//! Verified core of a multi-threaded download manager: file-name derivation,
//! segment planning and resume bookkeeping, retry policy, task-queue
//! transitions, settings normalisation and window-geometry rules.
use vstd::prelude::*;

pub mod client;
pub mod digest;
pub mod engine;
pub mod filename;
pub mod locale;
pub mod paths;
pub mod settings;
pub mod state;
pub mod tasks;
pub mod text;
pub mod window_state;

