//! The instances that the nodes of a schedule already run, by project,
//! group and service.
use vstd::prelude::*;
use crate::strmap::StrMap;
use crate::shield::{Shield, valid_or_default};
use crate::text::{role_name_spec, split_role_spec, lemma_split_role_name_joins};
use crate::scheduler::schedule::{Node, NodeRole, NodeService};
use crate::scheduler::distribute::split_role_name;
use crate::random::{is_sample, sample_positions};
use crate::input::{distinct_texts, holds_text};
use rand::XorShiftRng;

verus! {

/// The instances of one service that run: in all, and by node.
#[derive(Debug)]
pub struct Running {
    pub total: u32,
    pub servers: StrMap<u32>,
}

/// Running services by project slug, group slug and service name.
pub type RunningTable = StrMap<StrMap<StrMap<Running>>>;

/// What the table holds for a service: the total and the instances by
/// node; nothing runs of a service that the table does not hold.
pub open spec fn run_view(t: RunningTable, p: Seq<char>, g: Seq<char>, s: Seq<char>) -> (int, Map<
    Seq<char>,
    u32,
>) {
    if t@.contains_key(p) && t@[p]@.contains_key(g) && t@[p]@[g]@.contains_key(s) {
        let r = t@[p]@[g]@[s];
        (r.total as int, r.servers@)
    } else {
        (0, Map::empty())
    }
}

/// The roles of a node; an invalid node has none.
pub open spec fn node_roles(sh: Shield<Node>) -> Map<Seq<char>, Shield<NodeRole>> {
    match sh {
        Shield::Valid(n) => n.roles@,
        Shield::Invalid(_) => Map::empty(),
    }
}

/// The services of a role; an invalid role has none.
pub open spec fn role_services(sh: Shield<NodeRole>) -> Map<Seq<char>, Shield<NodeService>> {
    match sh {
        Shield::Valid(r) => r.services@,
        Shield::Invalid(_) => Map::empty(),
    }
}

/// The instances of a service; an invalid service runs none.
pub open spec fn service_count(sh: Shield<NodeService>) -> u32 {
    match sh {
        Shield::Valid(x) => x.instances,
        Shield::Invalid(_) => 0,
    }
}

/// The instances of service `s` of group `g` of project `p` that a node
/// runs, if the node lists the service: under the role that joins the
/// slugs, when splitting that role name gives the slugs back.
pub open spec fn contribution(sh: Shield<Node>, p: Seq<char>, g: Seq<char>, s: Seq<char>) -> Option<u32> {
    let rn = role_name_spec(p, g);
    if split_role_spec(rn) == Some((p, g)) && node_roles(sh).contains_key(rn) && role_services(
        node_roles(sh)[rn],
    ).contains_key(s) {
        Some(service_count(role_services(node_roles(sh)[rn])[s]))
    } else {
        None
    }
}

/// What the table holds for a service once node `node` is counted with
/// `c` instances of it (`None`: the node does not list it).
pub open spec fn bumped(v: (int, Map<Seq<char>, u32>), node: Seq<char>, c: Option<u32>) -> (int, Map<
    Seq<char>,
    u32,
>) {
    match c {
        Some(n) => (v.0 + n, v.1.insert(node, n)),
        None => v,
    }
}

/// The total instances of a service over the nodes `ns`.
pub open spec fn total_of(ns: Seq<(String, Shield<Node>)>, p: Seq<char>, g: Seq<char>, s: Seq<char>) -> int
    decreases ns.len(),
{
    if ns.len() == 0 {
        0
    } else {
        total_of(ns.drop_last(), p, g, s) + match contribution(ns.last().1, p, g, s) {
            Some(n) => n as int,
            None => 0,
        }
    }
}

/// The instances of a service over the nodes `ns`, by node.
pub open spec fn servers_of(ns: Seq<(String, Shield<Node>)>, p: Seq<char>, g: Seq<char>, s: Seq<char>) -> Map<
    Seq<char>,
    u32,
>
    decreases ns.len(),
{
    if ns.len() == 0 {
        Map::empty()
    } else {
        bumped(
            (0, servers_of(ns.drop_last(), p, g, s)),
            ns.last().0@,
            contribution(ns.last().1, p, g, s),
        ).1
    }
}

/// Counts `c` instances of service `s` of group `g` of project `p` on node `node`.
fn table_bump(table: &mut RunningTable, p: &str, g: &str, s: &str, node: &String, c: u32)
    requires
        run_view(*old(table), p@, g@, s@).0 + c <= u32::MAX,
    ensures
        forall|p1: Seq<char>, g1: Seq<char>, s1: Seq<char>|
            #[trigger] run_view(*final(table), p1, g1, s1) == if p1 == p@ && g1 == g@ && s1 == s@ {
                bumped(run_view(*old(table), p1, g1, s1), node@, Some(c))
            } else {
                run_view(*old(table), p1, g1, s1)
            },
{
    let ghost t0 = *table;
    let mut pt = match table.remove(p) {
        Some(x) => x,
        None => StrMap::new(),
    };
    let ghost pt0 = pt;
    let mut gt = match pt.remove(g) {
        Some(x) => x,
        None => StrMap::new(),
    };
    let ghost gt0 = gt;
    let mut r = match gt.remove(s) {
        Some(x) => x,
        None => Running { total: 0, servers: StrMap::new() },
    };
    r.total = r.total + c;
    r.servers.insert(node.clone(), c);
    gt.insert(String::from_str(s), r);
    pt.insert(String::from_str(g), gt);
    table.insert(String::from_str(p), pt);
    proof {
        assert forall|p1: Seq<char>, g1: Seq<char>, s1: Seq<char>|
            #[trigger] run_view(*table, p1, g1, s1) == if p1 == p@ && g1 == g@ && s1 == s@ {
                bumped(run_view(t0, p1, g1, s1), node@, Some(c))
            } else {
                run_view(t0, p1, g1, s1)
            } by {
            if p1 == p@ && g1 == g@ && s1 == s@ {
                assert(run_view(*table, p1, g1, s1).1 =~= bumped(run_view(t0, p1, g1, s1), node@, Some(c)).1);
            } else if p1 == p@ && g1 == g@ {
                assert(t0@.contains_key(p1) ==> pt0 == t0@[p1]);
            } else if p1 == p@ {
                assert(t0@.contains_key(p1) ==> pt0 == t0@[p1]);
            }
        }
    }
}

/// Counts the services of role `role` of group `g` of project `p` on node
/// `node`; gives the role back with its services made valid.
fn count_role(table: &mut RunningTable, node: &String, p: &str, g: &str, role: NodeRole) -> (r: NodeRole)
    requires
        forall|s: Seq<char>|
            #[trigger] role.services@.contains_key(s) ==> run_view(*old(table), p@, g@, s).0
                + service_count(role.services@[s]) <= u32::MAX,
    ensures
        forall|p1: Seq<char>, g1: Seq<char>, s1: Seq<char>|
            #[trigger] run_view(*final(table), p1, g1, s1) == if p1 == p@ && g1 == g@
                && role.services@.contains_key(s1) {
                bumped(
                    run_view(*old(table), p1, g1, s1),
                    node@,
                    Some(service_count(role.services@[s1])),
                )
            } else {
                run_view(*old(table), p1, g1, s1)
            },
        r.template == role.template,
        r.version == role.version,
        forall|s: Seq<char>| #[trigger] r.services@.contains_key(s) == role.services@.contains_key(s),
        forall|s: Seq<char>|
            #[trigger] r.services@.contains_key(s) ==> r.services@[s] is Valid && valid_or_default(
                role.services@.get(s),
                r.services@[s]->Valid_0,
            ) && r.services@[s]->Valid_0.instances == service_count(role.services@[s]),
{
    let ghost t0 = *table;
    let ghost sv = role.services@;
    let NodeRole { template, version, services } = role;
    services.lemma_sorted();
    let ghost ss = services.items();
    proof {
        crate::strmap::lemma_items_map(ss);
    }
    let mut rest = crate::strmap::reversed(services.into_items());
    let mut out: StrMap<Shield<NodeService>> = StrMap::new();
    let n = rest.len();
    let mut done: usize = 0;
    while rest.len() > 0
        invariant
            n == ss.len(),
            crate::strmap::keys_sorted(ss),
            sv == crate::strmap::items_map(ss),
            rest@.len() + done == n,
            forall|j: int| 0 <= j < rest@.len() ==> #[trigger] rest@[j] == ss[ss.len() - 1 - j],
            forall|s: Seq<char>|
                #[trigger] sv.contains_key(s) ==> run_view(t0, p@, g@, s).0 + service_count(sv[s]) <= u32::MAX,
            forall|p1: Seq<char>, g1: Seq<char>, s1: Seq<char>|
                #[trigger] run_view(*table, p1, g1, s1) == if p1 == p@ && g1 == g@ && exists|j: int|
                    0 <= j < done && ss[j].0@ == s1 {
                    bumped(run_view(t0, p1, g1, s1), node@, Some(service_count(sv[s1])))
                } else {
                    run_view(t0, p1, g1, s1)
                },
            forall|s: Seq<char>|
                #[trigger] out@.contains_key(s) == exists|j: int| 0 <= j < done && ss[j].0@ == s,
            forall|s: Seq<char>|
                #[trigger] out@.contains_key(s) ==> out@[s] is Valid && valid_or_default(
                    sv.get(s),
                    out@[s]->Valid_0,
                ) && out@[s]->Valid_0.instances == service_count(sv[s]),
        decreases rest@.len(),
    {
        let (sname, sh) = rest.pop().unwrap();
        let ghost e = ss[done as int];
        proof {
            assert((sname, sh) == e);
            crate::strmap::lemma_items_map(ss);
            assert(crate::strmap::items_map(ss).contains_key(ss[done as int].0@));
            assert(sv.contains_key(e.0@) && sv[e.0@] == e.1);
            assert forall|j: int| 0 <= j < done implies ss[j].0@ != e.0@ by {
                crate::strmap::lemma_sorted_distinct(ss, j, done as int);
            }
        }
        let x = match sh {
            Shield::Valid(x) => x,
            Shield::Invalid(_) => NodeService::default(),
        };
        let c = x.instances;
        let ghost tb = *table;
        table_bump(table, p, g, sname.as_str(), node, c);
        out.insert(sname, Shield::Valid(x));
        proof {
            assert forall|p1: Seq<char>, g1: Seq<char>, s1: Seq<char>|
                #[trigger] run_view(*table, p1, g1, s1) == if p1 == p@ && g1 == g@ && exists|j: int|
                    0 <= j < done + 1 && ss[j].0@ == s1 {
                    bumped(run_view(t0, p1, g1, s1), node@, Some(service_count(sv[s1])))
                } else {
                    run_view(t0, p1, g1, s1)
                } by {
                assert(run_view(*table, p1, g1, s1) == if p1 == p@ && g1 == g@ && s1 == e.0@ {
                    bumped(run_view(tb, p1, g1, s1), node@, Some(c))
                } else {
                    run_view(tb, p1, g1, s1)
                });
                if s1 == e.0@ {
                    assert(ss[done as int].0@ == s1);
                } else {
                    if exists|j: int| 0 <= j < done + 1 && ss[j].0@ == s1 {
                        let j = choose|j: int| 0 <= j < done + 1 && ss[j].0@ == s1;
                        assert(j < done);
                    }
                }
            }
            assert forall|s: Seq<char>| #[trigger] out@.contains_key(s) == exists|j: int| 0 <= j < done + 1 && ss[j].0@ == s by {
                if s == e.0@ {
                    assert(ss[done as int].0@ == s);
                } else if exists|j: int| 0 <= j < done + 1 && ss[j].0@ == s {
                    let j = choose|j: int| 0 <= j < done + 1 && ss[j].0@ == s;
                    assert(j < done);
                }
            }
        }
        done = done + 1;
    }
    proof {
        crate::strmap::lemma_items_map(ss);
        assert forall|s: Seq<char>| #[trigger] out@.contains_key(s) == sv.contains_key(s) by {
            if sv.contains_key(s) {
                let j = choose|j: int| 0 <= j < ss.len() && ss[j].0@ == s;
            }
            if exists|j: int| 0 <= j < n && ss[j].0@ == s {
                let j = choose|j: int| 0 <= j < n && ss[j].0@ == s;
                assert(sv.contains_key(ss[j].0@));
            }
        }
        assert forall|p1: Seq<char>, g1: Seq<char>, s1: Seq<char>|
            #[trigger] run_view(*table, p1, g1, s1) == if p1 == p@ && g1 == g@ && sv.contains_key(s1) {
                bumped(run_view(t0, p1, g1, s1), node@, Some(service_count(sv[s1])))
            } else {
                run_view(t0, p1, g1, s1)
            } by {
            assert(out@.contains_key(s1) == sv.contains_key(s1));
        }
    }
    NodeRole { template, version, services: out }
}

/// `new` is role `old` with its services made valid, each keeping its
/// instances (none for invalid data).
pub open spec fn role_counted(old: NodeRole, new: NodeRole) -> bool {
    &&& new.template == old.template
    &&& new.version == old.version
    &&& forall|s: Seq<char>| #[trigger] new.services@.contains_key(s) == old.services@.contains_key(s)
    &&& forall|s: Seq<char>|
        #[trigger] new.services@.contains_key(s) ==> new.services@[s] is Valid && valid_or_default(
            old.services@.get(s),
            new.services@[s]->Valid_0,
        ) && new.services@[s]->Valid_0.instances == service_count(old.services@[s])
}

/// `new` is node `old` whose roles that name a project and a group are made
/// valid, with their services made valid; its other roles stay.
pub open spec fn node_counted(old: Node, new: Node) -> bool {
    &&& forall|k: Seq<char>| #[trigger] new.roles@.contains_key(k) == old.roles@.contains_key(k)
    &&& forall|k: Seq<char>|
        #[trigger] new.roles@.contains_key(k) ==> if split_role_spec(k) is Some {
            &&& new.roles@[k] is Valid
            &&& exists|r0: NodeRole| #[trigger] valid_or_default(old.roles@.get(k), r0) && role_counted(r0, new.roles@[k]->Valid_0)
        } else {
            new.roles@[k] == old.roles@[k]
        }
}

/// Splitting two different role names never gives the same slugs.
proof fn lemma_split_injective(a: Seq<char>, b: Seq<char>)
    requires
        split_role_spec(a) is Some,
        split_role_spec(a) == split_role_spec(b),
    ensures
        a == b,
{
    lemma_split_role_name_joins(a);
    lemma_split_role_name_joins(b);
}

/// Counts the services of node `node` named `name`; gives the node back
/// with the roles it counts made valid.
fn count_node(table: &mut RunningTable, name: &String, node: Node) -> (r: Node)
    requires
        forall|p: Seq<char>, g: Seq<char>, s: Seq<char>|
            #[trigger] contribution(Shield::Valid(node), p, g, s) is Some ==> run_view(*old(table), p, g, s).0
                + contribution(Shield::Valid(node), p, g, s)->0 <= u32::MAX,
    ensures
        forall|p: Seq<char>, g: Seq<char>, s: Seq<char>|
            #[trigger] run_view(*final(table), p, g, s) == bumped(
                run_view(*old(table), p, g, s),
                name@,
                contribution(Shield::Valid(node), p, g, s),
            ),
        node_counted(node, r),
{
    let ghost t0 = *table;
    let ghost rv = node.roles@;
    let Node { roles } = node;
    roles.lemma_sorted();
    let ghost ss = roles.items();
    let mut rest = crate::strmap::reversed(roles.into_items());
    let mut out: StrMap<Shield<NodeRole>> = StrMap::new();
    let n = rest.len();
    let mut done: usize = 0;
    while rest.len() > 0
        invariant
            n == ss.len(),
            crate::strmap::keys_sorted(ss),
            rv == crate::strmap::items_map(ss),
            rest@.len() + done == n,
            forall|j: int| 0 <= j < rest@.len() ==> #[trigger] rest@[j] == ss[ss.len() - 1 - j],
            forall|p: Seq<char>, g: Seq<char>, s: Seq<char>|
                #[trigger] contribution(Shield::Valid(node), p, g, s) is Some
                    ==> run_view(t0, p, g, s).0 + contribution(Shield::Valid(node), p, g, s)->0 <= u32::MAX,
            node.roles@ == rv,
            forall|p: Seq<char>, g: Seq<char>, s: Seq<char>|
                #[trigger] run_view(*table, p, g, s) == if exists|j: int|
                    0 <= j < done && split_role_spec(ss[j].0@) == Some((p, g)) {
                    bumped(run_view(t0, p, g, s), name@, contribution(Shield::Valid(node), p, g, s))
                } else {
                    run_view(t0, p, g, s)
                },
            forall|k: Seq<char>|
                #[trigger] out@.contains_key(k) == exists|j: int| 0 <= j < done && ss[j].0@ == k,
            forall|k: Seq<char>|
                #[trigger] out@.contains_key(k) ==> if split_role_spec(k) is Some {
                    &&& out@[k] is Valid
                    &&& exists|r0: NodeRole| #[trigger] valid_or_default(rv.get(k), r0) && role_counted(r0, out@[k]->Valid_0)
                } else {
                    out@[k] == rv[k]
                },
        decreases rest@.len(),
    {
        let (rk, rsh) = rest.pop().unwrap();
        let ghost e = ss[done as int];
        let ghost tb = *table;
        proof {
            assert((rk, rsh) == e);
            crate::strmap::lemma_items_map(ss);
            assert(crate::strmap::items_map(ss).contains_key(ss[done as int].0@));
            assert(rv.contains_key(e.0@) && rv[e.0@] == e.1);
            assert forall|j: int| 0 <= j < done implies ss[j].0@ != e.0@ by {
                crate::strmap::lemma_sorted_distinct(ss, j, done as int);
            }
        }
        match split_role_name(rk.as_str()) {
            Some((p, g)) => {
                let r0 = match rsh {
                    Shield::Valid(x) => x,
                    Shield::Invalid(_) => NodeRole::default(),
                };
                proof {
                    lemma_split_role_name_joins(e.0@);
                    assert(role_name_spec(p@, g@) == e.0@);
                    assert forall|j: int| 0 <= j < done implies split_role_spec(ss[j].0@) != Some((p@, g@)) by {
                        if split_role_spec(ss[j].0@) == Some((p@, g@)) {
                            lemma_split_injective(ss[j].0@, e.0@);
                        }
                    }
                    assert forall|s: Seq<char>| #[trigger] r0.services@.contains_key(s) implies run_view(*table, p@, g@, s).0
                        + service_count(r0.services@[s]) <= u32::MAX by {
                        assert(contribution(Shield::Valid(node), p@, g@, s) is Some);
                        assert(run_view(*table, p@, g@, s) == run_view(t0, p@, g@, s));
                    }
                }
                let r1 = count_role(table, name, p, g, r0);
                proof {
                    assert(valid_or_default(rv.get(e.0@), r0));
                    assert(role_counted(r0, r1));
                    assert forall|p1: Seq<char>, g1: Seq<char>, s1: Seq<char>|
                        #[trigger] run_view(*table, p1, g1, s1) == if exists|j: int|
                            0 <= j < done + 1 && split_role_spec(ss[j].0@) == Some((p1, g1)) {
                            bumped(run_view(t0, p1, g1, s1), name@, contribution(Shield::Valid(node), p1, g1, s1))
                        } else {
                            run_view(t0, p1, g1, s1)
                        } by {
                        if p1 == p@ && g1 == g@ {
                            assert(split_role_spec(ss[done as int].0@) == Some((p1, g1)));
                            assert(role_services(e.1) == r0.services@);
                            assert(run_view(tb, p1, g1, s1) == run_view(t0, p1, g1, s1));
                        } else {
                            if exists|j: int| 0 <= j < done + 1 && split_role_spec(ss[j].0@) == Some((p1, g1)) {
                                let j = choose|j: int| 0 <= j < done + 1 && split_role_spec(ss[j].0@) == Some((p1, g1));
                                assert(j < done);
                            }
                        }
                    }
                }
                out.insert(rk, Shield::Valid(r1));
            },
            None => {
                proof {
                    assert forall|p1: Seq<char>, g1: Seq<char>, s1: Seq<char>|
                        #[trigger] run_view(*table, p1, g1, s1) == if exists|j: int|
                            0 <= j < done + 1 && split_role_spec(ss[j].0@) == Some((p1, g1)) {
                            bumped(run_view(t0, p1, g1, s1), name@, contribution(Shield::Valid(node), p1, g1, s1))
                        } else {
                            run_view(t0, p1, g1, s1)
                        } by {
                        if exists|j: int| 0 <= j < done + 1 && split_role_spec(ss[j].0@) == Some((p1, g1)) {
                            let j = choose|j: int| 0 <= j < done + 1 && split_role_spec(ss[j].0@) == Some((p1, g1));
                            assert(j < done);
                        }
                    }
                }
                out.insert(rk, rsh);
            },
        }
        proof {
            assert forall|k: Seq<char>| #[trigger] out@.contains_key(k) == exists|j: int| 0 <= j < done + 1 && ss[j].0@ == k by {
                if k == e.0@ {
                    assert(ss[done as int].0@ == k);
                } else if exists|j: int| 0 <= j < done + 1 && ss[j].0@ == k {
                    let j = choose|j: int| 0 <= j < done + 1 && ss[j].0@ == k;
                    assert(j < done);
                }
            }
        }
        done = done + 1;
    }
    proof {
        crate::strmap::lemma_items_map(ss);
        assert forall|k: Seq<char>| #[trigger] out@.contains_key(k) == rv.contains_key(k) by {
            if rv.contains_key(k) {
                let j = choose|j: int| 0 <= j < ss.len() && ss[j].0@ == k;
            }
            if exists|j: int| 0 <= j < n && ss[j].0@ == k {
                let j = choose|j: int| 0 <= j < n && ss[j].0@ == k;
                assert(rv.contains_key(ss[j].0@));
            }
        }
        assert forall|p1: Seq<char>, g1: Seq<char>, s1: Seq<char>|
            #[trigger] run_view(*table, p1, g1, s1) == bumped(
                run_view(t0, p1, g1, s1),
                name@,
                contribution(Shield::Valid(node), p1, g1, s1),
            ) by {
            if !exists|j: int| 0 <= j < n && split_role_spec(ss[j].0@) == Some((p1, g1)) {
                let rn = role_name_spec(p1, g1);
                if split_role_spec(rn) == Some((p1, g1)) && rv.contains_key(rn) {
                    let j = choose|j: int| 0 <= j < ss.len() && ss[j].0@ == rn;
                    assert(split_role_spec(ss[j].0@) == Some((p1, g1)));
                }
            }
        }
    }
    Node { roles: out }
}

/// The total instances of a service over a prefix of the nodes is no more
/// than over all of them.
pub proof fn lemma_total_prefix(ns: Seq<(String, Shield<Node>)>, j: int, p: Seq<char>, g: Seq<char>, s: Seq<char>)
    requires
        0 <= j <= ns.len(),
    ensures
        total_of(ns.take(j), p, g, s) <= total_of(ns, p, g, s),
        total_of(ns.take(j), p, g, s) >= 0,
    decreases ns.len() - j,
{
    if j < ns.len() {
        lemma_total_prefix(ns, j + 1, p, g, s);
        assert(ns.take(j + 1).drop_last() =~= ns.take(j));
        lemma_total_nonneg(ns.take(j), p, g, s);
    } else {
        assert(ns.take(j) =~= ns);
        lemma_total_nonneg(ns, p, g, s);
    }
}

proof fn lemma_total_nonneg(ns: Seq<(String, Shield<Node>)>, p: Seq<char>, g: Seq<char>, s: Seq<char>)
    ensures
        total_of(ns, p, g, s) >= 0,
    decreases ns.len(),
{
    if ns.len() > 0 {
        lemma_total_nonneg(ns.drop_last(), p, g, s);
    }
}

/// `new` is the node map `old` with every node made valid and counted.
pub open spec fn nodes_counted(old: Map<Seq<char>, Shield<Node>>, new: Map<Seq<char>, Shield<Node>>) -> bool {
    &&& forall|k: Seq<char>| #[trigger] new.contains_key(k) == old.contains_key(k)
    &&& forall|k: Seq<char>|
        #[trigger] new.contains_key(k) ==> new[k] is Valid && exists|n0: Node|
            #[trigger] valid_or_default(old.get(k), n0) && node_counted(n0, new[k]->Valid_0)
}

/// Makes the nodes valid and counts the services they run; no total may
/// exceed what a `u32` holds.
pub fn collect_running(nodes: StrMap<Shield<Node>>) -> (r: (StrMap<Shield<Node>>, RunningTable))
    requires
        forall|p: Seq<char>, g: Seq<char>, s: Seq<char>|
            #[trigger] total_of(nodes.items(), p, g, s) <= u32::MAX,
    ensures
        nodes_counted(nodes@, r.0@),
        forall|p: Seq<char>, g: Seq<char>, s: Seq<char>|
            #[trigger] run_view(r.1, p, g, s) == (total_of(nodes.items(), p, g, s), servers_of(
                nodes.items(),
                p,
                g,
                s,
            )),
{
    nodes.lemma_sorted();
    let ghost ns = nodes.items();
    let ghost nv = nodes@;
    let mut rest = crate::strmap::reversed(nodes.into_items());
    let mut out: StrMap<Shield<Node>> = StrMap::new();
    let mut table: RunningTable = StrMap::new();
    let n = rest.len();
    let mut done: usize = 0;
    while rest.len() > 0
        invariant
            n == ns.len(),
            crate::strmap::keys_sorted(ns),
            nv == crate::strmap::items_map(ns),
            rest@.len() + done == n,
            forall|j: int| 0 <= j < rest@.len() ==> #[trigger] rest@[j] == ns[ns.len() - 1 - j],
            forall|p: Seq<char>, g: Seq<char>, s: Seq<char>|
                #[trigger] total_of(ns, p, g, s) <= u32::MAX,
            forall|p: Seq<char>, g: Seq<char>, s: Seq<char>|
                #[trigger] run_view(table, p, g, s) == (
                    total_of(ns.take(done as int), p, g, s),
                    servers_of(ns.take(done as int), p, g, s),
                ),
            forall|k: Seq<char>|
                #[trigger] out@.contains_key(k) == exists|j: int| 0 <= j < done && ns[j].0@ == k,
            forall|k: Seq<char>|
                #[trigger] out@.contains_key(k) ==> out@[k] is Valid && exists|n0: Node|
                    #[trigger] valid_or_default(nv.get(k), n0) && node_counted(n0, out@[k]->Valid_0),
        decreases rest@.len(),
    {
        let (name, sh) = rest.pop().unwrap();
        let ghost e = ns[done as int];
        let ghost tb = table;
        proof {
            assert((name, sh) == e);
            crate::strmap::lemma_items_map(ns);
            assert(crate::strmap::items_map(ns).contains_key(ns[done as int].0@));
            assert(nv.contains_key(e.0@) && nv[e.0@] == e.1);
            assert forall|j: int| 0 <= j < done implies ns[j].0@ != e.0@ by {
                crate::strmap::lemma_sorted_distinct(ns, j, done as int);
            }
            assert(ns.take(done + 1).drop_last() =~= ns.take(done as int));
            assert(ns.take(done + 1).last() == e);
        }
        let node = match sh {
            Shield::Valid(x) => x,
            Shield::Invalid(_) => Node::default(),
        };
        proof {
            assert forall|p: Seq<char>, g: Seq<char>, s: Seq<char>|
                #[trigger] contribution(Shield::Valid(node), p, g, s) is Some implies run_view(table, p, g, s).0
                    + contribution(Shield::Valid(node), p, g, s)->0 <= u32::MAX by {
                assert(contribution(Shield::Valid(node), p, g, s) == contribution(e.1, p, g, s));
                lemma_total_prefix(ns, done + 1, p, g, s);
            }
        }
        let counted = count_node(&mut table, &name, node);
        proof {
            assert forall|p: Seq<char>, g: Seq<char>, s: Seq<char>|
                #[trigger] run_view(table, p, g, s) == (
                    total_of(ns.take(done + 1), p, g, s),
                    servers_of(ns.take(done + 1), p, g, s),
                ) by {
                assert(contribution(Shield::Valid(node), p, g, s) == contribution(e.1, p, g, s));
            }
            assert(valid_or_default(nv.get(e.0@), node));
        }
        out.insert(name, Shield::Valid(counted));
        proof {
            assert forall|k: Seq<char>| #[trigger] out@.contains_key(k) == exists|j: int| 0 <= j < done + 1 && ns[j].0@ == k by {
                if k == e.0@ {
                    assert(ns[done as int].0@ == k);
                } else if exists|j: int| 0 <= j < done + 1 && ns[j].0@ == k {
                    let j = choose|j: int| 0 <= j < done + 1 && ns[j].0@ == k;
                    assert(j < done);
                }
            }
        }
        done = done + 1;
    }
    proof {
        crate::strmap::lemma_items_map(ns);
        assert(ns.take(n as int) =~= ns);
        assert forall|k: Seq<char>| #[trigger] out@.contains_key(k) == nv.contains_key(k) by {
            if nv.contains_key(k) {
                let j = choose|j: int| 0 <= j < ns.len() && ns[j].0@ == k;
            }
            if exists|j: int| 0 <= j < n && ns[j].0@ == k {
                let j = choose|j: int| 0 <= j < n && ns[j].0@ == k;
                assert(nv.contains_key(ns[j].0@));
            }
        }
    }
    (out, table)
}

/// The instances that map `m` gives host `h`; none if it does not list it.
pub open spec fn count_of(m: Map<Seq<char>, u32>, h: Seq<char>) -> int {
    if m.contains_key(h) {
        m[h] as int
    } else {
        0
    }
}

/// The hosts that a sample of positions of `hosts` picks, in sample order.
pub open spec fn picked(sample: Seq<usize>, hosts: Seq<String>) -> Seq<Seq<char>> {
    Seq::new(sample.len(), |j: int| hosts[sample[j] as int]@)
}

/// `servers` once `n` more instances are placed round-robin over `order`.
pub open spec fn add_rounds(servers: Map<Seq<char>, u32>, order: Seq<Seq<char>>, n: nat) -> Map<Seq<char>, u32>
    decreases n,
{
    if n == 0 || order.len() == 0 {
        servers
    } else {
        let m = add_rounds(servers, order, (n - 1) as nat);
        let h = order[(n - 1) as int % order.len() as int];
        m.insert(h, (count_of(m, h) + 1) as u32)
    }
}

/// Placing `n` more instances round-robin over `order` takes no instance
/// away from a host, gives no host more than `n`, and leaves a host that
/// `order` does not name as it was.
pub proof fn lemma_add_rounds_keeps(servers: Map<Seq<char>, u32>, order: Seq<Seq<char>>, n: nat, h: Seq<char>)
    requires
        forall|k: Seq<char>| #[trigger] count_of(servers, k) + n <= u32::MAX,
    ensures
        count_of(servers, h) <= count_of(add_rounds(servers, order, n), h) <= count_of(servers, h) + n,
        !order.contains(h) ==> count_of(add_rounds(servers, order, n), h) == count_of(servers, h),
    decreases n,
{
    if n > 0 && order.len() > 0 {
        let m = add_rounds(servers, order, (n - 1) as nat);
        let i = (n - 1) as int % order.len() as int;
        let k = order[i];
        lemma_add_rounds_keeps(servers, order, (n - 1) as nat, h);
        lemma_add_rounds_keeps(servers, order, (n - 1) as nat, k);
        assert(count_of(servers, k) + n <= u32::MAX);
        if h == k {
            assert(order.contains(h));
        }
    }
}

/// One more round moves the count of position `j` on by one exactly when
/// the round lands on `j`.
proof fn lemma_round_step(n: int, len: int, j: int)
    requires
        n > 0,
        len > 0,
        0 <= j < len,
    ensures
        n / len + (if j < n % len { 1int } else { 0int }) == (n - 1) / len + (if j < (n - 1) % len {
            1int
        } else {
            0int
        }) + (if j == (n - 1) % len { 1int } else { 0int }),
{
    let q = (n - 1) / len;
    let r = (n - 1) % len;
    vstd::arithmetic::div_mod::lemma_fundamental_div_mod(n - 1, len);
    assert(0 <= r < len);
    if r + 1 < len {
        assert(n == q * len + (r + 1)) by (nonlinear_arith)
            requires
                n - 1 == len * q + r,
        ;
        vstd::arithmetic::div_mod::lemma_fundamental_div_mod_converse(n, len, q, r + 1);
    } else {
        assert(n == (q + 1) * len + 0) by (nonlinear_arith)
            requires
                n - 1 == len * q + r,
                r + 1 == len,
        ;
        vstd::arithmetic::div_mod::lemma_fundamental_div_mod_converse(n, len, q + 1, 0);
    }
}

/// Placing `n` instances round-robin over distinct hosts spreads them
/// evenly: the host at position `j` of `order` gets `n / len` more, and one
/// more when `j` is among the first `n % len` positions.
pub proof fn lemma_add_rounds_spread(servers: Map<Seq<char>, u32>, order: Seq<Seq<char>>, n: nat, j: int)
    requires
        order.no_duplicates(),
        0 <= j < order.len(),
        forall|k: Seq<char>| #[trigger] count_of(servers, k) + n <= u32::MAX,
    ensures
        count_of(add_rounds(servers, order, n), order[j]) == count_of(servers, order[j]) + n / order.len() + (
        if j < n % order.len() {
            1int
        } else {
            0int
        }),
    decreases n,
{
    if n > 0 {
        let len = order.len() as int;
        let i = (n - 1) as int % len;
        lemma_add_rounds_spread(servers, order, (n - 1) as nat, j);
        lemma_add_rounds_keeps(servers, order, (n - 1) as nat, order[i]);
        assert(count_of(servers, order[i]) + n <= u32::MAX);
        lemma_round_step(n as int, len, j);
        if i != j {
            assert(order[i] != order[j]);
        }
    } else {
        assert(0nat / order.len() == 0 && 0nat % order.len() == 0) by (nonlinear_arith)
            requires
                order.len() > 0,
        ;
    }
}

/// Adding `n` instances over a sample of `n` distinct hosts (all of them,
/// when there are no more than `n`) spreads them evenly: each host gets at
/// least `n / m` and at most `n / m` rounded up more, where `m` is the
/// number of hosts, and what is not a host gets none.
pub proof fn lemma_added_evenly(
    servers: Map<Seq<char>, u32>,
    sample: Seq<usize>,
    hosts: Seq<String>,
    n: nat,
    h: Seq<char>,
)
    requires
        distinct_texts(hosts),
        0 < hosts.len() <= usize::MAX,
        is_sample(sample, hosts.len(), n),
        forall|k: Seq<char>| #[trigger] count_of(servers, k) + n <= u32::MAX,
    ensures
        holds_text(hosts, h) ==> n as int / hosts.len() as int <= count_of(add_rounds(servers, picked(sample, hosts), n), h)
            - count_of(servers, h) <= (n + hosts.len() - 1) as int / hosts.len() as int,
        !holds_text(hosts, h) ==> count_of(add_rounds(servers, picked(sample, hosts), n), h) == count_of(
            servers,
            h,
        ),
{
    let m = hosts.len();
    let order = picked(sample, hosts);
    assert forall|a: int, b: int| 0 <= a < order.len() && 0 <= b < order.len() && a != b implies order[a]
        != order[b] by {
        if n >= m {
            assert(sample[a] == a && sample[b] == b);
        } else {
            assert(sample[a] != sample[b]);
        }
    }
    assert(order.no_duplicates());
    lemma_add_rounds_keeps(servers, order, n, h);
    if !holds_text(hosts, h) {
        assert(!order.contains(h)) by {
            if order.contains(h) {
                let a = choose|a: int| 0 <= a < order.len() && order[a] == h;
                assert(hosts[sample[a] as int]@ == h);
            }
        }
    } else {
        let j = choose|j: int| 0 <= j < m && (#[trigger] hosts[j])@ == h;
        if n == 0 {
            assert(0nat / m == 0) by (nonlinear_arith)
                requires
                    m > 0,
            ;
        } else if n >= m {
            assert(order[j] == h);
            lemma_add_rounds_spread(servers, order, n, j);
            let q = n / m;
            let r = n % m;
            vstd::arithmetic::div_mod::lemma_fundamental_div_mod(n as int, m as int);
            assert((n + m - 1) as int == (q + 1) * m + (r - 1)) by (nonlinear_arith)
                requires
                    n as int == m * q + r,
            ;
            if r == 0 {
                vstd::arithmetic::div_mod::lemma_fundamental_div_mod_converse((n + m - 1) as int, m as int, q as int, (m - 1) as int);
            } else {
                vstd::arithmetic::div_mod::lemma_fundamental_div_mod_converse((n + m - 1) as int, m as int, (q + 1) as int, (r - 1) as int);
            }
        } else {
            vstd::arithmetic::div_mod::lemma_fundamental_div_mod_converse(n as int, m as int, 0, n as int);
            vstd::arithmetic::div_mod::lemma_fundamental_div_mod_converse((n + m - 1) as int, m as int, 1, (n - 1) as int);
            if order.contains(h) {
                let a = choose|a: int| 0 <= a < order.len() && order[a] == h;
                lemma_add_rounds_spread(servers, order, n, a);
                vstd::arithmetic::div_mod::lemma_fundamental_div_mod_converse(n as int, n as int, 1, 0);
            }
        }
    }
}

/// No host runs more instances than the total.
pub open spec fn counts_within(total: int, m: Map<Seq<char>, u32>) -> bool {
    forall|h: Seq<char>| #[trigger] m.contains_key(h) ==> m[h] <= total
}

/// Places `n` more instances of a service on the hosts: a random sample of
/// `n` hosts (all of them, if there are no more than `n`) take them in turn.
pub fn add_services(r: &mut Running, hosts: &Vec<String>, n: u32, rng: &mut XorShiftRng)
    requires
        old(r).total + n <= u32::MAX,
        forall|h: Seq<char>| #[trigger] count_of(old(r).servers@, h) + n <= u32::MAX,
    ensures
        counts_within(old(r).total as int, old(r).servers@) ==> counts_within(
            final(r).total as int,
            final(r).servers@,
        ),
        exists|sample: Seq<usize>|
            #[trigger] is_sample(sample, hosts@.len(), n as nat) && if hosts@.len() == 0 {
                final(r).total == old(r).total && final(r).servers@ == old(r).servers@
            } else {
                final(r).total == old(r).total + n && final(r).servers@ == add_rounds(
                    old(r).servers@,
                    picked(sample, hosts@),
                    n as nat,
                )
            },
{
    let order = sample_positions(rng, hosts.len(), n as usize);
    let k = order.len();
    let ghost sample = order@;
    if k == 0 {
        proof {
            if hosts@.len() > 0 {
                assert(n as nat == 0);
            }
        }
        return;
    }
    let ghost s0 = r.servers@;
    let ghost t0 = r.total;
    let ghost ord = picked(sample, hosts@);
    let mut t: u32 = 0;
    while t < n
        invariant
            k == order@.len(),
            k > 0,
            sample == order@,
            ord == picked(sample, hosts@),
            forall|j: int| 0 <= j < k ==> #[trigger] order@[j] < hosts@.len(),
            t <= n,
            t0 + n <= u32::MAX,
            r.total == t0 + t,
            r.servers@ == add_rounds(s0, ord, t as nat),
            forall|h: Seq<char>| #[trigger] count_of(r.servers@, h) + (n - t) <= u32::MAX,
            counts_within(t0 as int, s0) ==> counts_within(r.total as int, r.servers@),
        decreases n - t,
    {
        let pos = order[(t as usize) % k];
        let h = &hosts[pos];
        let cur = match r.servers.get(h.as_str()) {
            Some(c) => *c,
            None => 0,
        };
        let ghost before = r.servers@;
        proof {
            assert(count_of(before, h@) == cur);
            assert(count_of(before, h@) + (n - t) <= u32::MAX);
        }
        r.servers.insert(h.clone(), cur + 1);
        r.total = r.total + 1;
        proof {
            assert(ord[(t as int) % (k as int)] == h@);
            assert forall|h1: Seq<char>| #[trigger] count_of(r.servers@, h1) + (n - (t + 1)) <= u32::MAX by {
                if h1 != h@ {
                    assert(count_of(r.servers@, h1) == count_of(before, h1));
                    assert(count_of(before, h1) + (n - t) <= u32::MAX);
                }
            }
        }
        t = t + 1;
    }
}

/// Takes `n` instances of a service away from the hosts. The scheduler
/// never finishes taking instances away when there are some to take and
/// hosts to take them from, so `requires` leaves those inputs out; on the
/// others nothing is taken, though a sample is still drawn.
pub fn drop_services(r: &mut Running, hosts: &Vec<String>, n: u32, rng: &mut XorShiftRng)
    requires
        n == 0 || hosts@.len() == 0,
    ensures
        final(r).total == old(r).total,
        final(r).servers@ == old(r).servers@,
        exists|sample: Seq<usize>| #[trigger] is_sample(sample, hosts@.len(), n as nat),
{
    let order = sample_positions(rng, hosts.len(), n as usize);
    proof {
        assert(is_sample(order@, hosts@.len(), n as nat));
    }
}

/// A copy of what runs of a service.
pub fn copy_running(r: &Running) -> (c: Running)
    ensures
        c.total == r.total,
        c.servers@ == r.servers@,
{
    let mut servers: StrMap<u32> = StrMap::new();
    r.servers.lemma_sorted();
    let ghost ss = r.servers.items();
    let n = r.servers.len();
    let mut i: usize = 0;
    while i < n
        invariant
            n == ss.len(),
            ss == r.servers.items(),
            crate::strmap::keys_sorted(ss),
            i <= n,
            servers@ == crate::strmap::items_map(ss.take(i as int)),
        decreases n - i,
    {
        let (k, v) = r.servers.entry_at(i);
        servers.insert(k.clone(), *v);
        proof {
            assert(ss.take(i + 1).drop_last() =~= ss.take(i as int));
            assert(ss.take(i + 1).last() == ss[i as int]);
        }
        i = i + 1;
    }
    proof {
        assert(ss.take(n as int) =~= ss);
    }
    Running { total: r.total, servers }
}

/// Totals of running instances by project slug, group slug and service name.
pub type TotalsTable = StrMap<StrMap<StrMap<u32>>>;

/// What the totals table holds for a service; nothing counted is zero.
pub open spec fn total_view(t: TotalsTable, p: Seq<char>, g: Seq<char>, s: Seq<char>) -> int {
    if t@.contains_key(p) && t@[p]@.contains_key(g) && t@[p]@[g]@.contains_key(s) {
        t@[p]@[g]@[s] as int
    } else {
        0
    }
}

/// Adds `c` to the total of a service, unless the sum exceeds a `u32`.
fn add_total(t: &mut TotalsTable, p: &str, g: &str, s: &str, c: u32) -> (ok: bool)
    ensures
        ok == (total_view(*old(t), p@, g@, s@) + c <= u32::MAX),
        ok ==> forall|p1: Seq<char>, g1: Seq<char>, s1: Seq<char>|
            #[trigger] total_view(*final(t), p1, g1, s1) == if p1 == p@ && g1 == g@ && s1 == s@ {
                total_view(*old(t), p1, g1, s1) + c
            } else {
                total_view(*old(t), p1, g1, s1)
            },
{
    let ghost t0 = *t;
    let cur: u32 = match t.get(p) {
        None => 0,
        Some(pt) => match pt.get(g) {
            None => 0,
            Some(gt) => match gt.get(s) {
                None => 0,
                Some(x) => *x,
            },
        },
    };
    if cur > u32::MAX - c {
        return false;
    }
    let mut pt = match t.remove(p) {
        Some(x) => x,
        None => StrMap::new(),
    };
    let ghost pt0 = pt;
    let mut gt = match pt.remove(g) {
        Some(x) => x,
        None => StrMap::new(),
    };
    gt.insert(String::from_str(s), cur + c);
    pt.insert(String::from_str(g), gt);
    t.insert(String::from_str(p), pt);
    proof {
        assert forall|p1: Seq<char>, g1: Seq<char>, s1: Seq<char>|
            #[trigger] total_view(*t, p1, g1, s1) == if p1 == p@ && g1 == g@ && s1 == s@ {
                total_view(t0, p1, g1, s1) + c
            } else {
                total_view(t0, p1, g1, s1)
            } by {
            if p1 == p@ {
                assert(t0@.contains_key(p1) ==> pt0 == t0@[p1]);
            }
        }
    }
    true
}

/// The contribution of a node to the total of a service, as a number.
pub open spec fn contribution_count(sh: Shield<Node>, p: Seq<char>, g: Seq<char>, s: Seq<char>) -> int {
    match contribution(sh, p, g, s) {
        Some(n) => n as int,
        None => 0,
    }
}

/// Adds the services that node `sh` runs to the totals; `false` when a
/// total would exceed a `u32`, with no promise on the table then.
fn add_node_totals(t: &mut TotalsTable, sh: &Shield<Node>) -> (ok: bool)
    ensures
        ok == forall|p: Seq<char>, g: Seq<char>, s: Seq<char>|
            #[trigger] total_view(*old(t), p, g, s) + contribution_count(*sh, p, g, s) <= u32::MAX,
        ok ==> forall|p: Seq<char>, g: Seq<char>, s: Seq<char>|
            #[trigger] total_view(*final(t), p, g, s) == total_view(*old(t), p, g, s) + contribution_count(*sh, p, g, s),
{
    let ghost t0 = *t;
    let node = match sh {
        Shield::Valid(n) => n,
        Shield::Invalid(_) => {
            return true;
        },
    };
    node.roles.lemma_sorted();
    let ghost rs = node.roles.items();
    let ghost rv = node.roles@;
    let nr = node.roles.len();
    let mut j: usize = 0;
    while j < nr
        invariant
            nr == rs.len(),
            rs == node.roles.items(),
            rv == node.roles@,
            rv == crate::strmap::items_map(rs),
            crate::strmap::keys_sorted(rs),
            *sh == Shield::Valid(*node),
            t0 == *old(t),
            j <= nr,
            forall|p: Seq<char>, g: Seq<char>, s: Seq<char>|
                #[trigger] total_view(*t, p, g, s) == total_view(t0, p, g, s) + if exists|k: int|
                    0 <= k < j && split_role_spec(rs[k].0@) == Some((p, g)) {
                    contribution_count(*sh, p, g, s)
                } else {
                    0
                },
            forall|p: Seq<char>, g: Seq<char>, s: Seq<char>|
                (exists|k: int| 0 <= k < j && split_role_spec(rs[k].0@) == Some((p, g)))
                    ==> #[trigger] total_view(t0, p, g, s) + contribution_count(*sh, p, g, s) <= u32::MAX,
        decreases nr - j,
    {
        let (rk, rsh) = node.roles.entry_at(j);
        let ghost e = rs[j as int];
        proof {
            crate::strmap::lemma_items_map(rs);
            assert(rv.contains_key(rs[j as int].0@));
            assert forall|k: int| 0 <= k < j implies rs[k].0@ != e.0@ by {
                crate::strmap::lemma_sorted_distinct(rs, k, j as int);
            }
        }
        match split_role_name(rk.as_str()) {
            None => {
                proof {
                    assert forall|p: Seq<char>, g: Seq<char>, s: Seq<char>|
                        #[trigger] total_view(*t, p, g, s) == total_view(t0, p, g, s) + if exists|k: int|
                            0 <= k < j + 1 && split_role_spec(rs[k].0@) == Some((p, g)) {
                            contribution_count(*sh, p, g, s)
                        } else {
                            0
                        } by {
                        if exists|k: int| 0 <= k < j + 1 && split_role_spec(rs[k].0@) == Some((p, g)) {
                            let k = choose|k: int| 0 <= k < j + 1 && split_role_spec(rs[k].0@) == Some((p, g));
                            assert(k < j);
                        }
                    }
                    assert forall|p: Seq<char>, g: Seq<char>, s: Seq<char>|
                        (exists|k: int| 0 <= k < j + 1 && split_role_spec(rs[k].0@) == Some((p, g)))
                            implies #[trigger] total_view(t0, p, g, s) + contribution_count(*sh, p, g, s) <= u32::MAX by {
                        let k = choose|k: int| 0 <= k < j + 1 && split_role_spec(rs[k].0@) == Some((p, g));
                        assert(k < j);
                    }
                }
            },
            Some((p, g)) => {
                let ghost tj = *t;
                proof {
                    lemma_split_role_name_joins(e.0@);
                    assert(role_name_spec(p@, g@) == e.0@);
                    assert forall|k: int| 0 <= k < j implies split_role_spec(rs[k].0@) != Some((p@, g@)) by {
                        if split_role_spec(rs[k].0@) == Some((p@, g@)) {
                            lemma_split_injective(rs[k].0@, e.0@);
                        }
                    }
                }
                match rsh {
                    Shield::Invalid(_) => {},
                    Shield::Valid(role) => {
                        role.services.lemma_sorted();
                        let ghost ss = role.services.items();
                        let ghost sv = role.services@;
                        let ns = role.services.len();
                        let mut k: usize = 0;
                        proof {
                            assert(rv[e.0@] == e.1);
                            assert forall|s1: Seq<char>| #[trigger] contribution_count(*sh, p@, g@, s1) == if sv.contains_key(s1) {
                                service_count(sv[s1]) as int
                            } else {
                                0
                            } by {}
                            assert forall|s1: Seq<char>| #[trigger] total_view(tj, p@, g@, s1) == total_view(t0, p@, g@, s1) by {}
                        }
                        while k < ns
                            invariant
                                forall|s1: Seq<char>| #[trigger] contribution_count(*sh, p@, g@, s1) == if sv.contains_key(s1) {
                                    service_count(sv[s1]) as int
                                } else {
                                    0
                                },
                                forall|s1: Seq<char>| #[trigger] total_view(tj, p@, g@, s1) == total_view(t0, p@, g@, s1),
                                t0 == *old(t),
                                ns == ss.len(),
                                ss == role.services.items(),
                                sv == role.services@,
                                sv == crate::strmap::items_map(ss),
                                crate::strmap::keys_sorted(ss),
                                k <= ns,
                                forall|p1: Seq<char>, g1: Seq<char>, s1: Seq<char>|
                                    #[trigger] total_view(*t, p1, g1, s1) == total_view(tj, p1, g1, s1) + if p1 == p@ && g1
                                        == g@ && exists|q: int| 0 <= q < k && ss[q].0@ == s1 {
                                        service_count(sv[s1]) as int
                                    } else {
                                        0
                                    },
                                forall|s1: Seq<char>|
                                    (exists|q: int| 0 <= q < k && ss[q].0@ == s1) ==> #[trigger] total_view(tj, p@, g@, s1)
                                        + service_count(sv[s1]) <= u32::MAX,
                            decreases ns - k,
                        {
                            let (sname, ssh) = role.services.entry_at(k);
                            let c = match ssh {
                                Shield::Valid(x) => x.instances,
                                Shield::Invalid(_) => 0,
                            };
                            proof {
                                crate::strmap::lemma_items_map(ss);
                                assert(sv.contains_key(ss[k as int].0@));
                                assert forall|q: int| 0 <= q < k implies ss[q].0@ != sname@ by {
                                    crate::strmap::lemma_sorted_distinct(ss, q, k as int);
                                }
                                assert(total_view(*t, p@, g@, sname@) == total_view(tj, p@, g@, sname@));
                            }
                            if !add_total(t, p, g, sname.as_str(), c) {
                                proof {
                                    assert(contribution_count(*sh, p@, g@, sname@) == c);
                                    assert(total_view(tj, p@, g@, sname@) == total_view(t0, p@, g@, sname@));
                                    assert(!(total_view(t0, p@, g@, sname@) + contribution_count(*sh, p@, g@, sname@)
                                        <= u32::MAX));
                                }
                                return false;
                            }
                            proof {
                                assert forall|s1: Seq<char>|
                                    (exists|q: int| 0 <= q < k + 1 && ss[q].0@ == s1) implies #[trigger] total_view(tj, p@, g@, s1)
                                        + service_count(sv[s1]) <= u32::MAX by {
                                    let q = choose|q: int| 0 <= q < k + 1 && ss[q].0@ == s1;
                                    if q < k {
                                    } else {
                                        assert(s1 == sname@);
                                    }
                                }
                                assert forall|p1: Seq<char>, g1: Seq<char>, s1: Seq<char>|
                                    #[trigger] total_view(*t, p1, g1, s1) == total_view(tj, p1, g1, s1) + if p1 == p@ && g1
                                        == g@ && exists|q: int| 0 <= q < k + 1 && ss[q].0@ == s1 {
                                        service_count(sv[s1]) as int
                                    } else {
                                        0
                                    } by {
                                    if s1 == sname@ {
                                        assert(ss[k as int].0@ == s1);
                                    } else if exists|q: int| 0 <= q < k + 1 && ss[q].0@ == s1 {
                                        let q = choose|q: int| 0 <= q < k + 1 && ss[q].0@ == s1;
                                        assert(q < k);
                                    }
                                }
                            }
                            k = k + 1;
                        }
                        proof {
                            crate::strmap::lemma_items_map(ss);
                            assert forall|s1: Seq<char>| sv.contains_key(s1) implies exists|q: int| 0 <= q < ns && ss[q].0@ == s1 by {
                                let q = choose|q: int| 0 <= q < ss.len() && ss[q].0@ == s1;
                            }
                            assert forall|s1: Seq<char>| (exists|q: int| 0 <= q < ns && ss[q].0@ == s1) implies sv.contains_key(s1) by {
                                let q = choose|q: int| 0 <= q < ns && ss[q].0@ == s1;
                                assert(sv.contains_key(ss[q].0@));
                            }
                        }
                    },
                }
                proof {
                    assert forall|p1: Seq<char>, g1: Seq<char>, s1: Seq<char>|
                        #[trigger] total_view(*t, p1, g1, s1) == total_view(t0, p1, g1, s1) + if exists|k: int|
                            0 <= k < j + 1 && split_role_spec(rs[k].0@) == Some((p1, g1)) {
                            contribution_count(*sh, p1, g1, s1)
                        } else {
                            0
                        } by {
                        if p1 == p@ && g1 == g@ {
                            assert(split_role_spec(rs[j as int].0@) == Some((p1, g1)));
                            assert(total_view(tj, p1, g1, s1) == total_view(t0, p1, g1, s1));
                        } else if exists|k: int| 0 <= k < j + 1 && split_role_spec(rs[k].0@) == Some((p1, g1)) {
                            let k = choose|k: int| 0 <= k < j + 1 && split_role_spec(rs[k].0@) == Some((p1, g1));
                            assert(k < j);
                        }
                    }
                    assert forall|p1: Seq<char>, g1: Seq<char>, s1: Seq<char>|
                        (exists|k: int| 0 <= k < j + 1 && split_role_spec(rs[k].0@) == Some((p1, g1)))
                            implies #[trigger] total_view(t0, p1, g1, s1) + contribution_count(*sh, p1, g1, s1) <= u32::MAX by {
                        let k = choose|k: int| 0 <= k < j + 1 && split_role_spec(rs[k].0@) == Some((p1, g1));
                        if k == j {
                            assert(p1 == p@ && g1 == g@);
                            assert(total_view(tj, p1, g1, s1) == total_view(t0, p1, g1, s1));
                        }
                    }
                }
            },
        }
        j = j + 1;
    }
    proof {
        crate::strmap::lemma_items_map(rs);
        assert forall|p: Seq<char>, g: Seq<char>, s: Seq<char>|
            #[trigger] contribution(*sh, p, g, s) is Some implies exists|k: int|
                0 <= k < nr && split_role_spec(rs[k].0@) == Some((p, g)) by {
            let rn = role_name_spec(p, g);
            let k = choose|k: int| 0 <= k < rs.len() && rs[k].0@ == rn;
            assert(split_role_spec(rs[k].0@) == Some((p, g)));
        }
        assert forall|p: Seq<char>, g: Seq<char>, s: Seq<char>|
            #[trigger] total_view(*t, p, g, s) == total_view(t0, p, g, s) + contribution_count(*sh, p, g, s) by {
            if !(contribution(*sh, p, g, s) is Some) {
                assert(contribution_count(*sh, p, g, s) == 0);
            }
        }
        assert forall|p: Seq<char>, g: Seq<char>, s: Seq<char>|
            #[trigger] total_view(t0, p, g, s) + contribution_count(*sh, p, g, s) <= u32::MAX by {
            if contribution(*sh, p, g, s) is Some {
                assert(exists|k: int| 0 <= k < nr && split_role_spec(rs[k].0@) == Some((p, g)));
            } else {
                assert(total_view(t0, p, g, s) <= u32::MAX);
            }
        }
    }
    true
}

/// The totals of the services that the nodes run, by project slug, group
/// slug and service name; `None` when one of them exceeds what a `u32`
/// holds.
pub fn node_totals(nodes: &StrMap<Shield<Node>>) -> (r: Option<TotalsTable>)
    ensures
        r is Some == forall|p: Seq<char>, g: Seq<char>, s: Seq<char>|
            #[trigger] total_of(nodes.items(), p, g, s) <= u32::MAX,
        r matches Some(t) ==> forall|p: Seq<char>, g: Seq<char>, s: Seq<char>|
            #[trigger] total_view(t, p, g, s) == total_of(nodes.items(), p, g, s),
{
    let ghost ns = nodes.items();
    let n = nodes.len();
    let mut t: TotalsTable = StrMap::new();
    let mut i: usize = 0;
    while i < n
        invariant
            n == ns.len(),
            ns == nodes.items(),
            i <= n,
            forall|p: Seq<char>, g: Seq<char>, s: Seq<char>|
                #[trigger] total_view(t, p, g, s) == total_of(ns.take(i as int), p, g, s),
        decreases n - i,
    {
        let (_, sh) = nodes.entry_at(i);
        let ghost before = t;
        proof {
            assert(ns.take(i + 1).drop_last() =~= ns.take(i as int));
            assert(ns.take(i + 1).last() == ns[i as int]);
        }
        if !add_node_totals(&mut t, sh) {
            proof {
                let (p, g, s) = choose|p: Seq<char>, g: Seq<char>, s: Seq<char>|
                    !(#[trigger] total_view(before, p, g, s) + contribution_count(*sh, p, g, s) <= u32::MAX);
                assert(total_of(ns.take(i + 1), p, g, s) == total_of(ns.take(i as int), p, g, s)
                    + contribution_count(ns[i as int].1, p, g, s));
                lemma_total_prefix(ns, i + 1, p, g, s);
                assert(!(total_of(nodes.items(), p, g, s) <= u32::MAX));
            }
            return None;
        }
        proof {
            assert forall|p: Seq<char>, g: Seq<char>, s: Seq<char>|
                #[trigger] total_view(t, p, g, s) == total_of(ns.take(i + 1), p, g, s) by {
                assert(total_view(before, p, g, s) == total_of(ns.take(i as int), p, g, s));
            }
        }
        i = i + 1;
    }
    proof {
        assert(ns.take(n as int) =~= ns);
        assert forall|p: Seq<char>, g: Seq<char>, s: Seq<char>|
            #[trigger] total_of(nodes.items(), p, g, s) <= u32::MAX by {
            assert(total_view(t, p, g, s) == total_of(ns.take(n as int), p, g, s));
        }
    }
    Some(t)
}

} // verus!
