//! The schedule: sources and projects that replicas merge, and the nodes
//! that the scheduler computes.
use vstd::prelude::*;
use crate::strmap::StrMap;
use crate::shield::Shield;
use crate::lwwset::{LwwMap, merged_view};
use crate::scheduler::sources::Source;
use crate::scheduler::projects::Project;

verus! {

/// One service that a node runs.
#[derive(Debug)]
pub struct NodeService {
    pub image: String,
    pub config: String,
    pub instances: u32,
}

impl Default for NodeService {
    fn default() -> (r: Self)
        ensures
            r.image@ == Seq::<char>::empty(),
            r.config@ == Seq::<char>::empty(),
            r.instances == 0,
    {
        NodeService { image: String::new(), config: String::new(), instances: 0 }
    }
}

/// A role of a node: the services of one group, or a role of its own.
#[derive(Debug)]
pub struct NodeRole {
    pub template: Option<String>,
    pub version: String,
    pub services: StrMap<Shield<NodeService>>,
}

impl Default for NodeRole {
    fn default() -> (r: Self)
        ensures
            r.template is None,
            r.version@ == Seq::<char>::empty(),
            r.services@ == vstd::map::Map::<Seq<char>, Shield<NodeService>>::empty(),
    {
        NodeRole { template: None, version: String::new(), services: StrMap::new() }
    }
}

/// A host and the roles it runs.
#[derive(Debug)]
pub struct Node {
    pub roles: StrMap<Shield<NodeRole>>,
}

impl Default for Node {
    fn default() -> (r: Self)
        ensures
            r.roles@ == vstd::map::Map::<Seq<char>, Shield<NodeRole>>::empty(),
    {
        Node { roles: StrMap::new() }
    }
}

/// The schedule.
#[derive(Debug)]
pub struct Schedule {
    pub sources: LwwMap<Source>,
    pub projects: LwwMap<Project>,
    pub nodes: StrMap<Shield<Node>>,
}

impl Default for Schedule {
    fn default() -> (r: Self)
        ensures
            r.sources@ == vstd::map::Map::<Seq<char>, crate::lwwset::Item<Source>>::empty(),
            r.projects@ == vstd::map::Map::<Seq<char>, crate::lwwset::Item<Project>>::empty(),
            r.nodes@ == vstd::map::Map::<Seq<char>, Shield<Node>>::empty(),
    {
        Schedule { sources: LwwMap::new(), projects: LwwMap::new(), nodes: StrMap::new() }
    }
}

impl crate::input::Schedule for Schedule {
    open spec fn is_fresh(&self) -> bool {
        &&& self.sources@ == vstd::map::Map::<Seq<char>, crate::lwwset::Item<Source>>::empty()
        &&& self.projects@ == vstd::map::Map::<Seq<char>, crate::lwwset::Item<Project>>::empty()
        &&& self.nodes@ == vstd::map::Map::<Seq<char>, Shield<Node>>::empty()
    }

    /// The sources and the projects are merged; the nodes of the replica
    /// are ignored, since nodes are computed anew.
    open spec fn merges_into(&self, other: &Self, result: &Self) -> bool {
        &&& merged_view(self.sources@, other.sources@, result.sources@)
        &&& merged_view(self.projects@, other.projects@, result.projects@)
        &&& result.nodes == self.nodes
    }

    fn new() -> (r: Self) {
        Schedule { sources: LwwMap::new(), projects: LwwMap::new(), nodes: StrMap::new() }
    }

    fn merge(&mut self, other: Self) {
        let Schedule { sources, projects, nodes: _ } = other;
        self.sources.merge(sources);
        self.projects.merge(projects);
    }
}

} // verus!
