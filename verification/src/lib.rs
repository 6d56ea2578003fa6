//! A request-scoped model-inference serving core.
//!
//! The library is the decision-making half of a small HTTP front-end for a
//! text-generation engine: it routes requests, validates them, tracks loaded
//! models in a registry with reference counts, serializes executions against
//! the same model through a per-model session lock, and maps every outcome to
//! an HTTP status and body.  The work that only the outside world can do —
//! reading the request off the wire, loading model weights from disk, running
//! the token-generation loop — is driven by a thin unverified shell that asks
//! this core what to do next and reports back what happened.

pub mod dispatch;
pub mod http;
pub mod laws;
pub mod state;
