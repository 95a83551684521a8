use kokkupanek::input::{host_set, GenericInput, Input, Peer};
use kokkupanek::logger::{SchedulerLogger, Sublogger};
use kokkupanek::random::{generator_at, generator_seed, global_rng, GlobalRng};
use kokkupanek::scheduler::running::{add_services, Running};
use rand::{Rng, SeedableRng, XorShiftRng};
use kokkupanek::strmap::StrMap;

fn peer(host: &str) -> Peer {
    Peer {
        addr: None,
        name: host.to_string(),
        hostname: host.to_string(),
        known_since: 0,
        last_report_direct: None,
    }
}

#[test]
fn hosts_lists_current_host_first() {
    let mut peers = StrMap::new();
    peers.insert("id2".to_string(), peer("beta"));
    peers.insert("id1".to_string(), peer("alpha"));
    let input: GenericInput<(), (), ()> = GenericInput {
        now: 5,
        current_host: "me".to_string(),
        current_id: "id0".to_string(),
        parents: vec![],
        actions: std::collections::BTreeMap::new(),
        runtime: (),
        peers,
    };
    assert_eq!(input.hosts(), vec!["me".to_string(), "alpha".to_string(), "beta".to_string()]);
    assert_eq!(input.now(), 5);
}

#[test]
fn host_set_keeps_first_of_each() {
    let hs = host_set(vec!["b".to_string(), "a".to_string(), "b".to_string(), "c".to_string(), "a".to_string()]);
    assert_eq!(hs, vec!["b".to_string(), "a".to_string(), "c".to_string()]);
}

#[test]
fn seed_splits_seconds() {
    assert_eq!(generator_seed(0x1_0000_0002, 7), [1, 2, 7, 0]);
    assert_eq!(generator_seed(5, 0), [0, 5, 0, 0]);
    let _: GlobalRng = global_rng();
}

#[test]
fn log_lines_are_tagged() {
    let mut log = SchedulerLogger::context();
    log.write_line("INFO", Some("sched"), "hello");
    let sub = Sublogger::context(&mut log, "web--front");
    let inner = Sublogger::context(&mut log, "nginx");
    log.write_line("ERROR", None, "oops");
    inner.leave(&mut log);
    log.write_line("WARN", Some("m"), "x");
    sub.leave(&mut log);
    log.write_line("DEBUG", Some("m"), "y");
    assert_eq!(
        log.into_inner(),
        " INFO: sched[]: hello\nERROR: <unknown>[web--front.nginx]: oops\n WARN: m[web--front]: x\nDEBUG: m[]: y\n"
    );
}

#[test]
fn generator_is_seeded_from_the_time() {
    let mut a = generator_at(0x1_0000_0002, 7);
    let mut b = generator_at(0x1_0000_0002, 7);
    let mut c = XorShiftRng::from_seed([1, 2, 7, 0]);
    let xs: Vec<u32> = (0..4).map(|_| a.next_u32()).collect();
    let ys: Vec<u32> = (0..4).map(|_| b.next_u32()).collect();
    let zs: Vec<u32> = (0..4).map(|_| c.next_u32()).collect();
    assert_eq!(xs, ys);
    assert_eq!(xs, zs);
    let mut d = generator_at(0x1_0000_0002, 8);
    let ws: Vec<u32> = (0..4).map(|_| d.next_u32()).collect();
    assert_ne!(xs, ws);
}

#[test]
fn added_instances_spread_evenly() {
    let hosts = vec!["a".to_string(), "b".to_string()];
    let mut servers = StrMap::new();
    servers.insert("a".to_string(), 1u32);
    servers.insert("gone".to_string(), 4u32);
    let mut r = Running { total: 5, servers };
    let mut rng = generator_at(11, 0);
    add_services(&mut r, &hosts, 5, &mut rng);
    assert_eq!(r.total, 10);
    let a = *r.servers.get("a").unwrap() - 1;
    let b = *r.servers.get("b").unwrap();
    assert_eq!(a + b, 5);
    assert!((a == 2 && b == 3) || (a == 3 && b == 2));
    assert_eq!(*r.servers.get("gone").unwrap(), 4);
}

#[test]
fn leaving_past_the_path_keeps_it() {
    let mut log = SchedulerLogger::context();
    let outer = Sublogger::context(&mut log, "web");
    let inner = Sublogger::context(&mut log, "front");
    outer.leave(&mut log);
    assert_eq!(log.sublogger, "");
    inner.leave(&mut log);
    assert_eq!(log.sublogger, "");
    log.write_line("INFO", Some("m"), "z");
    assert_eq!(log.into_inner(), " INFO: m[]: z\n");
}
