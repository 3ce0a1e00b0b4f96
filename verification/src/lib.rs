//! fleet-conductor: fleet orchestration for distributed agent coordination.
//!
//! The library is the in-memory orchestration core of a fleet conductor, every
//! part of it proved against its contract:
//!
//! - [`state`]: the agent lifecycle state machine;
//! - [`conservation`]: the guard that defers actions which would leave the
//!   stable region of gamma and eta;
//! - [`conductor`]: observation, spawning, draining, reconciliation and
//!   lifecycle ticks, with [`fleet`] for their data;
//! - [`http`], [`routes`] and [`json`]: what a server reads, does and answers,
//!   with [`text`] for words and numerals;
//! - [`binary64`] and [`rounding`]: the numbers that the guard computes with;
//! - [`model`], [`laws`] and [`outcomes`]: what the operations mean, and what
//!   holds of them.

pub mod binary64;
pub mod conductor;
pub mod conservation;
pub mod fleet;
mod groups;
pub mod http;
pub mod json;
pub mod laws;
pub mod model;
pub mod outcomes;
pub mod rounding;
pub mod routes;
pub mod state;
pub mod stub;
pub mod text;

pub use binary64::Binary64;
pub use conductor::Conductor;
pub use conservation::{ConservationConfig, ConservationVerdict, DeferredReason};
pub use fleet::{
    Agent, AgentId, AgentKind, AgentSpec, DrainOutcome, FleetSpec, FleetState, KindSummaries,
    KindSummary, StateCounts,
};
pub use state::{AgentState, TransitionError};
