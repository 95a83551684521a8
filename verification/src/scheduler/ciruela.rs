//! The role that every host of the cluster runs: the ciruela file syncer.
use vstd::prelude::*;
use crate::shield::{Shield, ShieldExt, valid_or_default};
use crate::input::distinct_texts;
use crate::scheduler::schedule::{Schedule, Node, NodeRole};

verus! {

/// `new` is role `old` made valid, with template `template`.
pub open spec fn role_with_template(old: Option<Shield<NodeRole>>, template: Seq<char>, new: Shield<NodeRole>) -> bool {
    &&& new is Valid
    &&& exists|r0: NodeRole| #[trigger] valid_or_default(old, r0) && {
        let r = new->Valid_0;
        &&& r.template matches Some(t) && t@ == template
        &&& r.version == r0.version
        &&& r.services == r0.services
    }
}

/// `new` is node `old` made valid, whose role `role` is made valid with
/// template `template`; its other roles stay.
pub open spec fn node_with_role_template(
    old: Option<Shield<Node>>,
    role: Seq<char>,
    template: Seq<char>,
    new: Shield<Node>,
) -> bool {
    &&& new is Valid
    &&& exists|n0: Node| #[trigger] valid_or_default(old, n0) && {
        let n = new->Valid_0;
        &&& n.roles@.remove(role) == n0.roles@.remove(role)
        &&& n.roles@.contains_key(role)
        &&& role_with_template(n0.roles@.get(role), template, n.roles@[role])
    }
}

/// `new` is the node map `old` once every host of `hosts` runs the
/// `ciruela` role; the nodes of other names stay.
pub open spec fn ciruela_populated(
    old: Map<Seq<char>, Shield<Node>>,
    hosts: Seq<String>,
    new: Map<Seq<char>, Shield<Node>>,
) -> bool {
    &&& forall|i: int|
        0 <= i < hosts.len() ==> new.contains_key((#[trigger] hosts[i])@) && node_with_role_template(
            old.get(hosts[i]@),
            "ciruela"@,
            "ciruela"@,
            new[hosts[i]@],
        )
    &&& forall|k: Seq<char>|
        (forall|i: int| 0 <= i < hosts.len() ==> (#[trigger] hosts[i])@ != k) ==> #[trigger] new.get(k)
            == old.get(k)
}

/// Makes every host run the `ciruela` role: the node of each host, and its
/// `ciruela` role, are made valid, and the role gets the `ciruela` template.
pub fn populate(schedule: &mut Schedule, hosts: &Vec<String>)
    requires
        distinct_texts(hosts@),
    ensures
        final(schedule).sources == old(schedule).sources,
        final(schedule).projects == old(schedule).projects,
        ciruela_populated(old(schedule).nodes@, hosts@, final(schedule).nodes@),
{
    let ghost nodes0 = schedule.nodes@;
    let n = hosts.len();
    let mut i: usize = 0;
    while i < n
        invariant
            n == hosts@.len(),
            i <= n,
            distinct_texts(hosts@),
            schedule.sources == old(schedule).sources,
            schedule.projects == old(schedule).projects,
            nodes0 == old(schedule).nodes@,
            forall|j: int|
                0 <= j < i ==> schedule.nodes@.contains_key((#[trigger] hosts@[j])@)
                    && node_with_role_template(
                    nodes0.get(hosts@[j]@),
                    "ciruela"@,
                    "ciruela"@,
                    schedule.nodes@[hosts@[j]@],
                ),
            forall|k: Seq<char>|
                (forall|j: int| 0 <= j < i ==> (#[trigger] hosts@[j])@ != k)
                    ==> #[trigger] schedule.nodes@.get(k) == nodes0.get(k),
        decreases n - i,
    {
        let name = &hosts[i];
        let ghost h = name@;
        proof {
            assert forall|j: int| 0 <= j < i implies (#[trigger] hosts@[j])@ != h by {}
            assert(schedule.nodes@.get(h) == nodes0.get(h));
        }
        let ghost before = schedule.nodes@;
        let mut node = schedule.nodes.take_valid(name.as_str());
        let ghost n0 = node;
        let mut role = node.roles.take_valid("ciruela");
        let ghost r0 = role;
        role.template = Some(String::from_str("ciruela"));
        node.roles.insert(String::from_str("ciruela"), Shield::Valid(role));
        schedule.nodes.insert(name.clone(), Shield::Valid(node));
        proof {
            assert(node.roles@.remove("ciruela"@) =~= n0.roles@.remove("ciruela"@));
            assert(valid_or_default(n0.roles@.get("ciruela"@), r0));
            assert(role_with_template(n0.roles@.get("ciruela"@), "ciruela"@, node.roles@["ciruela"@]));
            assert(valid_or_default(nodes0.get(h), n0));
            assert(node_with_role_template(nodes0.get(h), "ciruela"@, "ciruela"@, schedule.nodes@[h]));
            assert forall|j: int| 0 <= j < i + 1 implies schedule.nodes@.contains_key((#[trigger] hosts@[j])@)
                && node_with_role_template(
                nodes0.get(hosts@[j]@),
                "ciruela"@,
                "ciruela"@,
                schedule.nodes@[hosts@[j]@],
            ) by {
                if j < i {
                    assert(hosts@[j]@ != h);
                    assert(before.contains_key(hosts@[j]@));
                }
            }
            assert forall|k: Seq<char>| (forall|j: int| 0 <= j < i + 1 ==> (#[trigger] hosts@[j])@ != k)
                implies #[trigger] schedule.nodes@.get(k) == nodes0.get(k) by {
                assert(hosts@[i as int]@ != k);
                assert(forall|j: int| 0 <= j < i ==> (#[trigger] hosts@[j])@ != k);
                assert(schedule.nodes@.get(k) == before.get(k));
            }
        }
        i = i + 1;
    }
}

} // verus!
