//! Building blocks of a cluster scheduler: last-writer-wins maps that merge
//! replicas of a schedule, validity shields around data read from peers, and
//! the scheduling rules that place service instances on hosts.
use vstd::prelude::*;

pub mod text;
pub mod strmap;
pub mod lwwset;
pub mod shield;
pub mod scheduler;
pub mod input;
pub mod random;
pub mod logger;
pub mod graphql;

verus! {

/// JSON data that the scheduler carries through without reading it.
#[verifier::external_type_specification]
#[verifier::external_body]
pub struct ExJsonValue(serde_json::Value);

} // verus!
