//! The actions that a scheduler run is asked to perform.
use vstd::prelude::*;
use crate::graphql::GraphqlAction;

verus! {

/// An action: a GraphQL request, or data that is not one.
#[derive(Debug)]
pub enum Action {
    Graphql(GraphqlAction),
    Other(serde_json::Value),
}

} // verus!
