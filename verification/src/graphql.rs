//! A GraphQL request that a scheduler run is asked to perform.
use vstd::prelude::*;
use crate::strmap::StrMap;

verus! {

/// A GraphQL query or mutation, with its variables as JSON.
#[derive(Debug)]
pub struct GraphqlAction {
    pub query: String,
    pub operation_name: Option<String>,
    pub variables: StrMap<serde_json::Value>,
}

} // verus!
