use kokkupanek::input::Schedule as ScheduleTrait;
use kokkupanek::scheduler::graph::MutationError;
use kokkupanek::scheduler::projects::{create_group, create_project};
use kokkupanek::scheduler::schedule::Schedule;
use kokkupanek::scheduler::services::{create_service, NewService};
use kokkupanek::scheduler::sources::{add_deployment, create_source, Key, NewCommand, NewDaemon, NewDeployment};

fn new_service(slug: &str, instances: i32) -> NewService {
    NewService {
        slug: slug.to_string(),
        source: "src".to_string(),
        config: "web.yaml".to_string(),
        version: "v1".to_string(),
        branch: None,
        instances,
        variables: None,
    }
}

#[test]
fn create_project_then_group_then_service() {
    let mut s = Schedule::new();
    assert!(create_project(&mut s, "web".to_string(), "Web".to_string(), 100).unwrap().ok);
    assert!(create_group(&mut s, "web".to_string(), "front".to_string(), "Front".to_string(), 101).is_ok());
    assert!(create_service(&mut s, "web".to_string(), "front".to_string(), new_service("nginx", 2), 102).is_ok());
    let p = s.projects.get("web").unwrap();
    assert_eq!(p.title, "Web");
    assert_eq!(p.timestamp, 100);
    let g = p.groups.get("front").unwrap();
    assert_eq!(g.slug, "front");
    assert_eq!(g.timestamp, 101);
    let svc = g.services.get("nginx").unwrap();
    assert_eq!(svc.instances, 2);
    assert_eq!(svc.timestamp, 102);
    assert_eq!(svc.version, "v1");
    assert!(svc.variables.is_empty());
}

#[test]
fn create_group_needs_a_project() {
    let mut s = Schedule::new();
    match create_group(&mut s, "nope".to_string(), "g".to_string(), "G".to_string(), 1) {
        Err(e) => {
            assert_eq!(e.message(), "no project found");
            assert_eq!(e.data(), "g");
        }
        Ok(_) => panic!("expected an error"),
    }
    assert!(s.projects.is_empty());
}

#[test]
fn create_service_errors() {
    let mut s = Schedule::new();
    match create_service(&mut s, "p".to_string(), "g".to_string(), new_service("x", 1), 1) {
        Err(MutationError::NoProject(p)) => assert_eq!(p, "p"),
        _ => panic!("expected no project"),
    }
    create_project(&mut s, "p".to_string(), "P".to_string(), 1).unwrap();
    match create_service(&mut s, "p".to_string(), "g".to_string(), new_service("x", 1), 1) {
        Err(e) => {
            assert_eq!(e.message(), "no group found");
            assert_eq!(e.data(), "g");
        }
        _ => panic!("expected no group"),
    }
    create_group(&mut s, "p".to_string(), "g".to_string(), "G".to_string(), 1).unwrap();
    match create_service(&mut s, "p".to_string(), "g".to_string(), new_service("", 1), 1) {
        Err(e) => assert_eq!(e.message(), "slug must not be empty"),
        _ => panic!("expected empty slug"),
    }
    assert!(s.projects.get("p").unwrap().groups.get("g").unwrap().services.is_empty());
}

#[test]
fn negative_instances_wrap() {
    let mut s = Schedule::new();
    create_project(&mut s, "p".to_string(), "P".to_string(), 1).unwrap();
    create_group(&mut s, "p".to_string(), "g".to_string(), "G".to_string(), 1).unwrap();
    create_service(&mut s, "p".to_string(), "g".to_string(), new_service("x", -1), 1).unwrap();
    let svc = s.projects.get("p").unwrap().groups.get("g").unwrap().services.get("x").unwrap();
    assert_eq!(svc.instances, u32::MAX);
}

#[test]
fn create_source_with_keys() {
    let mut s = Schedule::new();
    let keys = vec![
        Key { key: "k1".to_string(), comment: "first".to_string() },
        Key { key: "k2".to_string(), comment: "second".to_string() },
        Key { key: "k1".to_string(), comment: "again".to_string() },
    ];
    assert!(create_source(&mut s, "src".to_string(), keys, 7).is_ok());
    let src = s.sources.get("src").unwrap();
    assert_eq!(src.timestamp, 7);
    assert_eq!(src.keys.get("k1").unwrap().comment, "again");
    assert_eq!(src.keys.get("k2").unwrap().timestamp, 7);
    assert!(src.deployments.is_empty());
    assert!(src.images.is_empty());
}

#[test]
fn add_deployment_records_images() {
    let mut s = Schedule::new();
    match add_deployment(&mut s, "src".to_string(), NewDeployment {
        version: "v1".to_string(),
        branch: None,
        daemons: vec![],
        commands: vec![],
    }, 1) {
        Err(e) => {
            assert_eq!(e.message(), "no source found");
            assert_eq!(e.data(), "src");
        }
        Ok(_) => panic!("expected no source"),
    }
    create_source(&mut s, "src".to_string(), vec![], 1).unwrap();
    let config = NewDeployment {
        version: "v1".to_string(),
        branch: Some("main".to_string()),
        daemons: vec![NewDaemon {
            name: "web.yaml".to_string(),
            config: "/config/web.yaml".to_string(),
            image: "web.v1".to_string(),
            variables: None,
        }],
        commands: vec![NewCommand {
            name: "migrate".to_string(),
            config: "/config/migrate.yaml".to_string(),
            image: "tools.v1".to_string(),
        }],
    };
    assert!(add_deployment(&mut s, "src".to_string(), config, 9).is_ok());
    let src = s.sources.get("src").unwrap();
    let d = src.deployments.get("v1").unwrap();
    assert_eq!(d.timestamp, 9);
    assert_eq!(d.branch.as_deref(), Some("main"));
    assert!(d.containers.contains_key("web.v1"));
    assert!(d.containers.contains_key("tools.v1"));
    assert_eq!(d.containers.len(), 2);
    let web = src.images.get("web.v1").unwrap();
    assert_eq!(web.daemons.get("web.yaml").unwrap().config, "/config/web.yaml");
    assert!(web.commands.is_empty());
    let tools = src.images.get("tools.v1").unwrap();
    assert_eq!(tools.commands.get("migrate").unwrap().config, "/config/migrate.yaml");
    assert!(tools.daemons.is_empty());
}

#[test]
fn project_replaced_by_a_new_one_of_the_same_slug() {
    let mut s = Schedule::new();
    create_project(&mut s, "p".to_string(), "Old".to_string(), 1).unwrap();
    create_group(&mut s, "p".to_string(), "g".to_string(), "G".to_string(), 2).unwrap();
    create_project(&mut s, "p".to_string(), "New".to_string(), 3).unwrap();
    let p = s.projects.get("p").unwrap();
    assert_eq!(p.title, "New");
    assert!(p.groups.is_empty());
}
