//! The scheduler: the schedule that replicas merge, the mutations that its
//! API offers, and the rules that place service instances on hosts.
pub mod graph;
pub mod action;
pub mod schedule;
pub mod services;
pub mod projects;
pub mod sources;
pub mod ciruela;
pub mod distribute;
pub mod running;
pub mod plan;
