//! What a scheduler run does to the merged schedule once the requested
//! actions are done: it places the services anew and adds the roles that
//! every host runs.
use vstd::prelude::*;
use crate::input::{distinct_texts, holds_text, host_set};
use crate::shield::Shield;
use crate::scheduler::schedule::{Schedule, Node};
use crate::scheduler::running::{total_of, total_view, node_totals};
use crate::scheduler::distribute::{
    distribute, schedule_slots, samples_drawn, nodes_real, distribute_spec, list_slots, slot_of,
};
use crate::scheduler::ciruela::{populate, ciruela_populated};
use rand::XorShiftRng;

verus! {

/// Why a scheduler run places no service.
#[derive(Debug, PartialEq, Eq, Structural)]
pub enum PlanError {
    /// The instances of one service that the nodes run add up to more
    /// than a `u32` counts.
    TooManyRunning,
    /// There are hosts, and the nodes run more instances of a service than
    /// the schedule asks for: taking the surplus away would never end.
    Surplus,
}

/// No service has more instances over the nodes than a `u32` counts.
pub open spec fn totals_fit(schedule: Schedule) -> bool {
    forall|p: Seq<char>, g: Seq<char>, s: Seq<char>| #[trigger] total_of(schedule.nodes.items(), p, g, s) <= u32::MAX
}

/// No service of the schedule runs more instances than it asks for.
pub open spec fn no_surplus(schedule: Schedule) -> bool {
    forall|i: int|
        0 <= i < schedule_slots(schedule.projects).len() ==> total_of(
            schedule.nodes.items(),
            (#[trigger] schedule_slots(schedule.projects)[i]).0,
            schedule_slots(schedule.projects)[i].1,
            schedule_slots(schedule.projects)[i].2,
        ) <= schedule_slots(schedule.projects)[i].3.instances
}

/// `new` is `old` once its services are placed over `hosts` anew, with
/// some draw of the random samples, and every host runs the `ciruela`
/// role.
pub open spec fn planned(old: Schedule, hosts: Seq<String>, new: Schedule) -> bool {
    &&& new.sources == old.sources
    &&& new.projects == old.projects
    &&& exists|samples: Seq<Seq<usize>>, placed: Map<Seq<char>, Shield<Node>>|
        #[trigger] samples_drawn(samples, schedule_slots(old.projects), old.nodes.items(), hosts)
            && nodes_real(
            placed,
            distribute_spec(schedule_slots(old.projects), old.nodes.items(), hosts, old.sources@, samples),
        ) && #[trigger] ciruela_populated(placed, hosts, new.nodes@)
}

/// Replaces the nodes of the schedule by those that `distribute` places,
/// then makes every host run the `ciruela` role.
pub fn plan_nodes(schedule: &mut Schedule, hosts: &Vec<String>, rng: &mut XorShiftRng)
    requires
        distinct_texts(hosts@),
        totals_fit(*old(schedule)),
        hosts@.len() == 0 || no_surplus(*old(schedule)),
    ensures
        planned(*old(schedule), hosts@, *final(schedule)),
{
    let new_nodes = distribute(schedule, hosts, rng);
    let ghost placed = new_nodes@;
    schedule.nodes = new_nodes;
    populate(schedule, hosts);
    proof {
        let samples = choose|samples: Seq<Seq<usize>>|
            #[trigger] samples_drawn(
                samples,
                schedule_slots(old(schedule).projects),
                old(schedule).nodes.items(),
                hosts@,
            ) && nodes_real(
                placed,
                distribute_spec(
                    schedule_slots(old(schedule).projects),
                    old(schedule).nodes.items(),
                    hosts@,
                    old(schedule).sources@,
                    samples,
                ),
            );
        assert(samples_drawn(
            samples,
            schedule_slots(old(schedule).projects),
            old(schedule).nodes.items(),
            hosts@,
        ) && ciruela_populated(placed, hosts@, final(schedule).nodes@));
    }
}

/// Places the services of the schedule over the given hosts (each name
/// counted once) and makes every host run the `ciruela` role; the
/// schedule stays as it was when that cannot be done.
pub fn plan(schedule: &mut Schedule, hosts: Vec<String>, rng: &mut XorShiftRng) -> (r: Result<(), PlanError>)
    ensures
        match r {
            Err(PlanError::TooManyRunning) => !totals_fit(*old(schedule)) && *final(schedule) == *old(schedule),
            Err(PlanError::Surplus) => totals_fit(*old(schedule)) && hosts@.len() > 0 && !no_surplus(*old(schedule))
                && *final(schedule) == *old(schedule),
            Ok(()) => totals_fit(*old(schedule)) && (hosts@.len() == 0 || no_surplus(*old(schedule)))
                && exists|set: Seq<String>|
                distinct_texts(set) && (forall|t: Seq<char>| holds_text(set, t) <==> holds_text(hosts@, t))
                    && #[trigger] planned(*old(schedule), set, *final(schedule)),
        },
{
    let ghost raw = hosts@;
    let set = host_set(hosts);
    proof {
        if raw.len() > 0 {
            assert(holds_text(raw, raw[0]@));
        }
        if set@.len() > 0 {
            assert(holds_text(set@, set@[0]@));
        }
    }
    let totals = match node_totals(&schedule.nodes) {
        None => {
            return Err(PlanError::TooManyRunning);
        },
        Some(t) => t,
    };
    if set.len() > 0 {
        let slots = list_slots(&schedule.projects);
        let ghost sv = schedule_slots(schedule.projects);
        let n = slots.len();
        let mut i: usize = 0;
        while i < n
            invariant
                *schedule == *old(schedule),
                totals_fit(*old(schedule)),
                raw.len() > 0,
                raw == hosts@,
                n == slots@.len(),
                n == sv.len(),
                sv == schedule_slots(schedule.projects),
                forall|k: int| 0 <= k < slots@.len() ==> slot_of(#[trigger] slots@[k]) == sv[k],
                forall|p: Seq<char>, g: Seq<char>, s: Seq<char>|
                    #[trigger] total_view(totals, p, g, s) == total_of(schedule.nodes.items(), p, g, s),
                i <= n,
                forall|k: int|
                    0 <= k < i ==> total_of(schedule.nodes.items(), (#[trigger] sv[k]).0, sv[k].1, sv[k].2)
                        <= sv[k].3.instances,
            decreases n - i,
        {
            let (p, g, s, service) = slots[i];
            proof {
                assert(slot_of(slots@[i as int]) == sv[i as int]);
            }
            let have: u32 = match totals.get(p.as_str()) {
                None => 0,
                Some(pt) => match pt.get(g.as_str()) {
                    None => 0,
                    Some(gt) => match gt.get(s.as_str()) {
                        None => 0,
                        Some(x) => *x,
                    },
                },
            };
            proof {
                assert(have == total_view(totals, p@, g@, s@));
            }
            if have > service.instances {
                proof {
                    assert(!(total_of(schedule.nodes.items(), sv[i as int].0, sv[i as int].1, sv[i as int].2)
                        <= sv[i as int].3.instances));
                }
                return Err(PlanError::Surplus);
            }
            i = i + 1;
        }
    }
    plan_nodes(schedule, &set, rng);
    Ok(())
}

} // verus!
