//! What the scheduler's mutations answer.
use vstd::prelude::*;

verus! {

/// The root of the queries the scheduler answers.
#[derive(Debug)]
pub struct Query;

/// The root of the mutations the scheduler performs.
#[derive(Debug)]
pub struct Mutation;

/// A generic successful response.
#[derive(Debug)]
pub struct Okay {
    pub ok: bool,
}

/// Why a mutation was refused; each carries the name it could not use.
#[derive(Debug)]
pub enum MutationError {
    /// No project has the slug.
    NoProject(String),
    /// The project has no group with the slug.
    NoGroup(String),
    /// A service was given an empty slug.
    EmptySlug(String),
    /// No source has the slug.
    NoSource(String),
}

impl MutationError {
    /// The message that a client is answered with.
    pub fn message(&self) -> (r: &'static str)
        ensures
            r@ == match self {
                MutationError::NoProject(_) => "no project found"@,
                MutationError::NoGroup(_) => "no group found"@,
                MutationError::EmptySlug(_) => "slug must not be empty"@,
                MutationError::NoSource(_) => "no source found"@,
            },
    {
        match self {
            MutationError::NoProject(_) => "no project found",
            MutationError::NoGroup(_) => "no group found",
            MutationError::EmptySlug(_) => "slug must not be empty",
            MutationError::NoSource(_) => "no source found",
        }
    }

    /// The name that the mutation could not use.
    pub fn data(&self) -> (r: &String)
        ensures
            *r == match self {
                MutationError::NoProject(s) => *s,
                MutationError::NoGroup(s) => *s,
                MutationError::EmptySlug(s) => *s,
                MutationError::NoSource(s) => *s,
            },
    {
        match self {
            MutationError::NoProject(s) => s,
            MutationError::NoGroup(s) => s,
            MutationError::EmptySlug(s) => s,
            MutationError::NoSource(s) => s,
        }
    }
}

} // verus!
