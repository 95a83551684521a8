use kokkupanek::input::{host_set, Schedule as ScheduleTrait};
use kokkupanek::random::generator_at;
use kokkupanek::scheduler::ciruela::populate;
use kokkupanek::scheduler::distribute::distribute;
use kokkupanek::scheduler::plan::{plan, plan_nodes, PlanError};
use kokkupanek::scheduler::running::node_totals;
use kokkupanek::scheduler::projects::{create_group, create_project};
use kokkupanek::scheduler::schedule::{Node, NodeRole, NodeService, Schedule};
use kokkupanek::scheduler::services::{create_service, NewService};
use kokkupanek::scheduler::sources::{add_deployment, create_source, NewDaemon, NewDeployment};
use kokkupanek::shield::Shield;
use kokkupanek::strmap::StrMap;

fn scheduled(instances: i32, image: &str) -> Schedule {
    let mut s = Schedule::new();
    create_source(&mut s, "src".to_string(), vec![], 1).unwrap();
    add_deployment(&mut s, "src".to_string(), NewDeployment {
        version: "v1".to_string(),
        branch: None,
        daemons: vec![NewDaemon {
            name: "web.yaml".to_string(),
            config: "/c/web.yaml".to_string(),
            image: image.to_string(),
            variables: None,
        }],
        commands: vec![],
    }, 1).unwrap();
    create_project(&mut s, "web".to_string(), "Web".to_string(), 1).unwrap();
    create_group(&mut s, "web".to_string(), "front".to_string(), "Front".to_string(), 1).unwrap();
    create_service(&mut s, "web".to_string(), "front".to_string(), NewService {
        slug: "nginx".to_string(),
        source: "src".to_string(),
        config: "web.yaml".to_string(),
        version: "v1".to_string(),
        branch: None,
        instances,
        variables: None,
    }, 1).unwrap();
    s
}

fn hosts(names: &[&str]) -> Vec<String> {
    names.iter().map(|x| x.to_string()).collect()
}

fn placed(nodes: &StrMap<Shield<Node>>, host: &str) -> Option<(String, u32, String, String)> {
    let node = nodes.get(host)?.ok()?;
    let role = node.roles.get("web--front")?.ok()?;
    let svc = role.services.get("nginx")?.ok()?;
    Some((role.version.clone(), svc.instances, svc.image.clone(), svc.config.clone()))
}

#[test]
fn instances_spread_over_hosts() {
    let mut s = scheduled(3, "nginx.v1");
    let hs = hosts(&["h1", "h2"]);
    let mut rng = generator_at(1_500_000_000, 0);
    let nodes = distribute(&mut s, &hs, &mut rng);
    let a = placed(&nodes, "h1").unwrap();
    let b = placed(&nodes, "h2").unwrap();
    assert_eq!(a.1 + b.1, 3);
    assert!(a.1 >= 1 && b.1 >= 1);
    assert_eq!(a.0, "v1");
    assert_eq!(a.2, "src/nginx/nginx.v1");
    assert_eq!(a.3, "web.yaml");
    let role = nodes.get("h1").unwrap().ok().unwrap().roles.get("web--front").unwrap().ok().unwrap();
    assert_eq!(role.template.as_deref(), Some("service"));
    assert_eq!(nodes.len(), 2);
}

#[test]
fn fewer_instances_than_hosts() {
    let mut s = scheduled(1, "nginx");
    let hs = hosts(&["h1", "h2", "h3"]);
    let mut rng = generator_at(42, 7);
    let nodes = distribute(&mut s, &hs, &mut rng);
    assert_eq!(nodes.len(), 1);
    let (_, (h, shield)) = (0, nodes.entry_at(0));
    assert!(hs.contains(h));
    let role = shield.ok().unwrap().roles.get("web--front").unwrap().ok().unwrap();
    let svc = role.services.get("nginx").unwrap().ok().unwrap();
    assert_eq!(svc.instances, 1);
    assert_eq!(svc.image, "src/nginx/nginx");
}

#[test]
fn no_image_no_placement() {
    let mut s = scheduled(2, "nginx.v1");
    // The service asks for a config that no image runs.
    s = {
        let mut t = s;
        create_service(&mut t, "web".to_string(), "front".to_string(), NewService {
            slug: "nginx".to_string(),
            source: "src".to_string(),
            config: "other.yaml".to_string(),
            version: "v1".to_string(),
            branch: None,
            instances: 2,
            variables: None,
        }, 2).unwrap();
        t
    };
    let hs = hosts(&["h1"]);
    let mut rng = generator_at(1, 0);
    let nodes = distribute(&mut s, &hs, &mut rng);
    assert!(nodes.is_empty());
}

#[test]
fn existing_instances_are_kept() {
    let mut s = scheduled(3, "nginx.v1");
    // h1 runs two instances already.
    let mut services = StrMap::new();
    services.insert("nginx".to_string(), Shield::Valid(NodeService {
        image: "old".to_string(),
        config: "web.yaml".to_string(),
        instances: 2,
    }));
    let mut roles = StrMap::new();
    roles.insert("web--front".to_string(), Shield::Valid(NodeRole {
        template: Some("service".to_string()),
        version: "v0".to_string(),
        services,
    }));
    s.nodes.insert("h1".to_string(), Shield::Valid(Node { roles }));
    let hs = hosts(&["h1", "h2"]);
    let mut rng = generator_at(1_600_000_000, 5);
    let nodes = distribute(&mut s, &hs, &mut rng);
    let a = placed(&nodes, "h1").map(|x| x.1).unwrap_or(0);
    let b = placed(&nodes, "h2").map(|x| x.1).unwrap_or(0);
    assert_eq!(a + b, 3);
    assert!(a >= 2);
}

#[test]
fn exact_count_keeps_placement() {
    let mut s = scheduled(2, "nginx.v1");
    let mut services = StrMap::new();
    services.insert("nginx".to_string(), Shield::Valid(NodeService {
        image: "old".to_string(),
        config: "web.yaml".to_string(),
        instances: 2,
    }));
    let mut roles = StrMap::new();
    roles.insert("web--front".to_string(), Shield::Valid(NodeRole {
        template: None,
        version: "v0".to_string(),
        services,
    }));
    s.nodes.insert("h2".to_string(), Shield::Valid(Node { roles }));
    s.nodes.insert("bad".to_string(), Shield::Invalid(serde_json::Value::Null));
    let hs = hosts(&["h1", "h2"]);
    let mut rng = generator_at(9, 9);
    let nodes = distribute(&mut s, &hs, &mut rng);
    assert_eq!(placed(&nodes, "h2").unwrap().1, 2);
    assert!(placed(&nodes, "h1").is_none());
    assert_eq!(placed(&nodes, "h2").unwrap().2, "src/nginx/nginx.v1");
    // The invalid node of the schedule was made valid.
    assert!(s.nodes.get("bad").unwrap().ok().is_some());
}

#[test]
fn no_hosts_no_nodes() {
    let mut s = scheduled(2, "nginx.v1");
    let hs: Vec<String> = Vec::new();
    let mut rng = generator_at(3, 0);
    let nodes = distribute(&mut s, &hs, &mut rng);
    assert!(nodes.is_empty());
}

#[test]
fn populate_adds_ciruela_everywhere() {
    let mut s = Schedule::new();
    s.nodes.insert("h1".to_string(), Shield::Invalid(serde_json::Value::Null));
    let hs = host_set(hosts(&["h1", "h2", "h1"]));
    assert_eq!(hs.len(), 2);
    populate(&mut s, &hs);
    for h in ["h1", "h2"].iter() {
        let role = s.nodes.get(h).unwrap().ok().unwrap().roles.get("ciruela").unwrap().ok().unwrap();
        assert_eq!(role.template.as_deref(), Some("ciruela"));
    }
}

#[test]
fn plan_places_and_populates() {
    let mut s = scheduled(2, "nginx.v1");
    let hs = hosts(&["h1", "h2"]);
    let mut rng = generator_at(1_700_000_000, 123);
    plan_nodes(&mut s, &hs, &mut rng);
    let a = placed(&s.nodes, "h1").unwrap();
    let b = placed(&s.nodes, "h2").unwrap();
    assert_eq!(a.1 + b.1, 2);
    for h in ["h1", "h2"].iter() {
        let node = s.nodes.get(h).unwrap().ok().unwrap();
        assert_eq!(node.roles.get("ciruela").unwrap().ok().unwrap().template.as_deref(), Some("ciruela"));
    }
}

fn running_node(instances: u32) -> Shield<Node> {
    let mut services = StrMap::new();
    services.insert("nginx".to_string(), Shield::Valid(NodeService {
        image: "old".to_string(),
        config: "web.yaml".to_string(),
        instances,
    }));
    let mut roles = StrMap::new();
    roles.insert("web--front".to_string(), Shield::Valid(NodeRole {
        template: None,
        version: "v0".to_string(),
        services,
    }));
    Shield::Valid(Node { roles })
}

#[test]
fn totals_add_up_over_nodes() {
    let mut nodes = StrMap::new();
    nodes.insert("h1".to_string(), running_node(2));
    nodes.insert("h2".to_string(), running_node(5));
    nodes.insert("h3".to_string(), Shield::Invalid(serde_json::Value::Null));
    let t = node_totals(&nodes).unwrap();
    let n = *t.get("web").unwrap().get("front").unwrap().get("nginx").unwrap();
    assert_eq!(n, 7);
    assert_eq!(t.len(), 1);
}

#[test]
fn totals_past_u32_are_refused() {
    let mut nodes = StrMap::new();
    nodes.insert("h1".to_string(), running_node(u32::MAX));
    nodes.insert("h2".to_string(), running_node(1));
    assert!(node_totals(&nodes).is_none());
    let mut s = scheduled(1, "nginx.v1");
    s.nodes = nodes;
    let mut rng = generator_at(5, 5);
    assert_eq!(plan(&mut s, hosts(&["h1"]), &mut rng), Err(PlanError::TooManyRunning));
    // The schedule is left as it was.
    assert_eq!(s.nodes.len(), 2);
}

#[test]
fn surplus_with_hosts_is_refused() {
    let mut s = scheduled(1, "nginx.v1");
    s.nodes.insert("h1".to_string(), running_node(3));
    let mut rng = generator_at(5, 6);
    assert_eq!(plan(&mut s, hosts(&["h1", "h2"]), &mut rng), Err(PlanError::Surplus));
    assert_eq!(placed(&s.nodes, "h1").unwrap().1, 3);
}

#[test]
fn surplus_without_hosts_plans_nothing() {
    let mut s = scheduled(1, "nginx.v1");
    s.nodes.insert("h1".to_string(), running_node(3));
    let mut rng = generator_at(5, 7);
    assert_eq!(plan(&mut s, Vec::new(), &mut rng), Ok(()));
    assert!(s.nodes.is_empty());
}

#[test]
fn plan_counts_each_host_once() {
    let mut s = scheduled(4, "nginx.v1");
    let mut rng = generator_at(1_700_000_001, 9);
    assert_eq!(plan(&mut s, hosts(&["h1", "h2", "h1"]), &mut rng), Ok(()));
    assert_eq!(s.nodes.len(), 2);
    let a = placed(&s.nodes, "h1").unwrap().1;
    let b = placed(&s.nodes, "h2").unwrap().1;
    assert_eq!((a, b), (2, 2));
}
