//! Services: what a group runs, and how many instances of it.
use vstd::prelude::*;
use crate::strmap::StrMap;
use crate::lwwset::{Mergeable, Item, merged_view, max_stamp, lemma_merge_values};
use crate::scheduler::graph::{Okay, MutationError};
use crate::scheduler::schedule::Schedule;
use crate::scheduler::projects::{Project, Group, same_project_but_groups, same_group_but_services};

verus! {

/// A service of a group.
#[derive(Debug)]
pub struct Service {
    pub timestamp: u64,
    pub source: String,
    pub config: String,
    pub version: String,
    pub branch: Option<String>,
    pub instances: u32,
    pub variables: StrMap<serde_json::Value>,
}

/// A service as a client describes it.
#[derive(Debug)]
pub struct NewService {
    pub slug: String,
    pub source: String,
    pub config: String,
    pub version: String,
    pub branch: Option<String>,
    pub instances: i32,
    pub variables: Option<Vec<Variable>>,
}

/// A variable value for a service.
#[derive(Debug)]
pub struct Variable {
    pub name: String,
    pub tcp_port: Option<i32>,
    pub choice: Option<String>,
}

impl Mergeable for Service {
    open spec fn stamp(&self) -> u64 {
        self.timestamp
    }

    /// The newer replica replaces the service; on a tie the service stays.
    open spec fn merges_into(&self, other: &Self, result: &Self) -> bool {
        if other.timestamp > self.timestamp {
            *result == *other
        } else {
            *result == *self
        }
    }

    fn timestamp(&self) -> (t: u64) {
        self.timestamp
    }

    fn merge(&mut self, other: Service) {
        if other.timestamp > self.timestamp {
            *self = other;
        }
    }
}

/// Last writer wins: merging a service with a strictly newer replica gives
/// the replica; otherwise the service stays. Either way the result carries
/// the later timestamp.
pub proof fn lemma_service_last_writer_wins(a: Service, b: Service, r: Service)
    requires
        a.merges_into(&b, &r),
    ensures
        b.timestamp > a.timestamp ==> r == b,
        b.timestamp <= a.timestamp ==> r == a,
        r.timestamp == max_stamp(a.timestamp, b.timestamp),
{
}

/// Where both replicas of a map of services hold the same service, the
/// merged map holds the newer of the two, the first on a tie.
pub proof fn lemma_services_newer_wins(
    a: vstd::map::Map<Seq<char>, Item<Service>>,
    b: vstd::map::Map<Seq<char>, Item<Service>>,
    r: vstd::map::Map<Seq<char>, Item<Service>>,
    k: Seq<char>,
)
    requires
        merged_view(a, b, r),
        a.contains_key(k),
        a[k] is Value,
        b.contains_key(k),
        b[k] is Value,
    ensures
        r.contains_key(k),
        r[k] == if b[k]->Value_0.timestamp > a[k]->Value_0.timestamp {
            b[k]
        } else {
            a[k]
        },
{
    lemma_merge_values(a, b, r, k);
    lemma_service_last_writer_wins(a[k]->Value_0, b[k]->Value_0, r[k]->Value_0);
}

/// The service that `create_service` stores for `s` at time `now`.
pub open spec fn created_service(s: NewService, now: u64, created: Service) -> bool {
    &&& created.timestamp == now
    &&& created.source == s.source
    &&& created.config == s.config
    &&& created.version == s.version
    &&& created.branch == s.branch
    &&& created.instances == s.instances as u32
    &&& created.variables@ == vstd::map::Map::<Seq<char>, serde_json::Value>::empty()
}

/// `p2` is project `p` whose group `group`, which was `g`, holds the
/// service that `create_service` makes of `s` at `now`.
pub open spec fn service_added(p: Project, g: Group, p2: Project, group: String, s: NewService, now: u64) -> bool {
    &&& same_project_but_groups(p, p2)
    &&& p2.groups@.remove(group@) == p.groups@.remove(group@)
    &&& p2.groups@.contains_key(group@)
    &&& p2.groups@[group@] is Value
    &&& same_group_but_services(g, p2.groups@[group@]->Value_0)
    &&& p2.groups@[group@]->Value_0.services@.remove(s.slug@) == g.services@.remove(s.slug@)
    &&& p2.groups@[group@]->Value_0.services@.contains_key(s.slug@)
    &&& p2.groups@[group@]->Value_0.services@[s.slug@] is Value
    &&& created_service(s, now, p2.groups@[group@]->Value_0.services@[s.slug@]->Value_0)
}

/// Creates a service in group `group` of project `project` at time `now`,
/// replacing any service of its slug; refused when the project or the group
/// does not hold a value, or when the slug is empty.
pub fn create_service(
    schedule: &mut Schedule,
    project: String,
    group: String,
    service: NewService,
    now: u64,
) -> (r: Result<Okay, MutationError>)
    ensures
        final(schedule).sources == old(schedule).sources,
        final(schedule).nodes == old(schedule).nodes,
        match old(schedule).projects@.get(project@) {
            Some(Item::Value(p)) => match p.groups@.get(group@) {
                Some(Item::Value(g)) => if service.slug@.len() == 0 {
                    r == Err::<Okay, MutationError>(MutationError::EmptySlug(service.slug))
                        && *final(schedule) == *old(schedule)
                } else {
                    &&& r matches Ok(o) && o.ok
                    &&& final(schedule).projects@.remove(project@) == old(schedule).projects@.remove(project@)
                    &&& final(schedule).projects@.contains_key(project@)
                    &&& final(schedule).projects@[project@] is Value
                    &&& service_added(p, g, final(schedule).projects@[project@]->Value_0, group, service, now)
                },
                _ => r == Err::<Okay, MutationError>(MutationError::NoGroup(group))
                    && *final(schedule) == *old(schedule),
            },
            _ => r == Err::<Okay, MutationError>(MutationError::NoProject(project))
                && *final(schedule) == *old(schedule),
        },
{
    let ghost projects0 = schedule.projects@;
    match schedule.projects.get(project.as_str()) {
        None => {
            return Err(MutationError::NoProject(project));
        },
        Some(p) => {
            if p.groups.get(group.as_str()).is_none() {
                return Err(MutationError::NoGroup(group));
            }
        },
    }
    if service.slug.as_str().is_empty() {
        return Err(MutationError::EmptySlug(service.slug));
    }
    let mut proj = match schedule.projects.take(project.as_str()) {
        Some(p) => p,
        None => unreached(),
    };
    let ghost p0 = proj;
    let mut grp = match proj.groups.take(group.as_str()) {
        Some(g) => g,
        None => unreached(),
    };
    let ghost g0 = grp;
    let NewService { slug, source, config, version, branch, instances, variables: _ } = service;
    let ghost slug_v = slug@;
    grp.services.insert(
        slug,
        Service {
            timestamp: now,
            source,
            config,
            version,
            branch,
            instances: #[verifier::truncate] (instances as u32),
            variables: StrMap::new(),
        },
    );
    proof {
        assert(grp.services@.remove(slug_v) =~= g0.services@.remove(slug_v));
    }
    proj.groups.insert(group, grp);
    proof {
        assert(proj.groups@.remove(group@) =~= p0.groups@.remove(group@));
    }
    schedule.projects.insert(project, proj);
    proof {
        assert(final(schedule).projects@.remove(project@) =~= projects0.remove(project@));
    }
    Ok(Okay { ok: true })
}

} // verus!
