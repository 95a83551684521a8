use kokkupanek::input::{from_parents, Schedule as ScheduleTrait};
use kokkupanek::lwwset::Mergeable;
use kokkupanek::scheduler::projects::{create_group, create_project};
use kokkupanek::scheduler::schedule::Schedule;
use kokkupanek::scheduler::sources::create_source;

#[test]
fn from_parents_merges_every_parent() {
    let mut a = Schedule::new();
    create_project(&mut a, "p".to_string(), "A".to_string(), 1).unwrap();
    let mut b = Schedule::new();
    create_project(&mut b, "p".to_string(), "B".to_string(), 2).unwrap();
    create_group(&mut b, "p".to_string(), "g".to_string(), "G".to_string(), 2).unwrap();
    let mut c = Schedule::new();
    create_source(&mut c, "s".to_string(), vec![], 3).unwrap();
    let merged = from_parents(vec![a, b, c]);
    let p = merged.projects.get("p").unwrap();
    assert_eq!(p.title, "B");
    assert!(p.groups.get("g").is_some());
    assert!(merged.sources.get("s").is_some());
    assert!(merged.nodes.is_empty());
}

#[test]
fn from_no_parents_is_empty() {
    let s: Schedule = from_parents(Vec::new());
    assert!(s.projects.is_empty());
    assert!(s.sources.is_empty());
}

#[test]
fn older_project_keeps_title_but_merges_groups() {
    let mut a = Schedule::new();
    create_project(&mut a, "p".to_string(), "New".to_string(), 10).unwrap();
    let mut b = Schedule::new();
    create_project(&mut b, "p".to_string(), "Old".to_string(), 5).unwrap();
    create_group(&mut b, "p".to_string(), "g".to_string(), "G".to_string(), 5).unwrap();
    a.merge(b);
    let p = a.projects.get("p").unwrap();
    assert_eq!(p.title, "New");
    assert_eq!(p.timestamp(), 10);
    assert!(p.groups.get("g").is_some());
}

#[test]
fn source_merge_keeps_later_timestamp() {
    let mut a = Schedule::new();
    create_source(&mut a, "s".to_string(), vec![], 10).unwrap();
    let mut b = Schedule::new();
    create_source(&mut b, "s".to_string(), vec![], 20).unwrap();
    a.merge(b);
    assert_eq!(a.sources.get("s").unwrap().timestamp, 20);
}
