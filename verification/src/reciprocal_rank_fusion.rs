//! Reciprocal rank fusion combines the rankings of several sources.
//!
//! Exact rank streams are composed deterministically, with a certificate that
//! stops once the fused Top-K can no longer change.

pub mod certificate;
pub mod executor;
pub mod exhaustive;
pub mod laws;
pub mod progress;
pub mod responses;
pub mod schedule_laws;
pub mod scoring;
pub mod session;
pub mod state;
pub mod types;

use vstd::prelude::*;

verus! {

/// The rank constant of fusions that give none.
pub const DEFAULT_RRF_K: usize = 2;

} // verus!
