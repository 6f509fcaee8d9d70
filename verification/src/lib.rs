//! Administrative inventory of pepper cultivars: fruits and their colors,
//! potted plants, and harvest weigh-ins, kept consistent by a transactional
//! in-memory relational store with verified write and aggregation operations.

use vstd::prelude::*;

pub mod date;
pub mod decimal;
pub mod domain;
pub mod error;
pub mod store;

verus! {

/// Base URL under which the administrative HTTP surface is mounted.
pub struct ApplicationBaseUrl(pub String);

} // verus!
