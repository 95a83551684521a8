//! Projects and their groups.
use vstd::prelude::*;
use crate::lwwset::{LwwMap, Mergeable, Item, merged_view, max_stamp, lemma_merge_keys, lemma_merge_one_side, lemma_merge_values};
use crate::scheduler::services::lemma_services_newer_wins;
use crate::scheduler::graph::{Okay, MutationError};
use crate::scheduler::schedule::Schedule;
use crate::scheduler::services::Service;

verus! {

/// A project: a named collection of groups.
#[derive(Debug)]
pub struct Project {
    pub timestamp: u64,
    pub slug: String,
    pub title: String,
    pub groups: LwwMap<Group>,
}

/// A group of services within a project.
#[derive(Debug)]
pub struct Group {
    pub timestamp: u64,
    pub slug: String,
    pub title: String,
    pub services: LwwMap<Service>,
}

impl Mergeable for Project {
    open spec fn stamp(&self) -> u64 {
        self.timestamp
    }

    /// The newer replica gives the timestamp, slug and title; the groups of
    /// both are merged.
    open spec fn merges_into(&self, other: &Self, result: &Self) -> bool {
        &&& if other.timestamp > self.timestamp {
            &&& result.timestamp == other.timestamp
            &&& result.slug == other.slug
            &&& result.title == other.title
        } else {
            &&& result.timestamp == self.timestamp
            &&& result.slug == self.slug
            &&& result.title == self.title
        }
        &&& merged_view(self.groups@, other.groups@, result.groups@)
    }

    fn timestamp(&self) -> (t: u64) {
        self.timestamp
    }

    fn merge(&mut self, other: Project) {
        let Project { timestamp, slug, title, groups } = other;
        if timestamp > self.timestamp {
            self.timestamp = timestamp;
            self.slug = slug;
            self.title = title;
        }
        self.groups.merge(groups);
    }
}

impl Mergeable for Group {
    open spec fn stamp(&self) -> u64 {
        self.timestamp
    }

    /// The newer replica gives the timestamp, slug and title; the services
    /// of both are merged.
    open spec fn merges_into(&self, other: &Self, result: &Self) -> bool {
        &&& if other.timestamp > self.timestamp {
            &&& result.timestamp == other.timestamp
            &&& result.slug == other.slug
            &&& result.title == other.title
        } else {
            &&& result.timestamp == self.timestamp
            &&& result.slug == self.slug
            &&& result.title == self.title
        }
        &&& merged_view(self.services@, other.services@, result.services@)
    }

    fn timestamp(&self) -> (t: u64) {
        self.timestamp
    }

    fn merge(&mut self, other: Group) {
        let Group { timestamp, slug, title, services } = other;
        if timestamp > self.timestamp {
            self.timestamp = timestamp;
            self.slug = slug;
            self.title = title;
        }
        self.services.merge(services);
    }
}

/// Merging two replicas of a group: the newer one gives the timestamp, slug
/// and title (the group's own on a tie); every service of either replica is
/// kept (but unreadable data of the incoming one); a service that only the
/// incoming replica holds comes over as it is, and a service that both hold
/// is the newer of the two.
pub proof fn lemma_group_merge(a: Group, b: Group, r: Group)
    requires
        a.merges_into(&b, &r),
    ensures
        r.timestamp == max_stamp(a.timestamp, b.timestamp),
        b.timestamp > a.timestamp ==> r.slug == b.slug && r.title == b.title,
        b.timestamp <= a.timestamp ==> r.slug == a.slug && r.title == a.title,
        forall|k: Seq<char>|
            #[trigger] r.services@.contains_key(k) <==> a.services@.contains_key(k) || (b.services@.contains_key(k)
                && !(b.services@[k] is BadData)),
        forall|k: Seq<char>|
            !a.services@.contains_key(k) && b.services@.contains_key(k) && !(b.services@[k] is BadData)
                ==> #[trigger] r.services@[k] == b.services@[k],
        forall|k: Seq<char>|
            a.services@.contains_key(k) && a.services@[k] is Value && b.services@.contains_key(k)
                && b.services@[k] is Value ==> #[trigger] r.services@[k] == if b.services@[k]->Value_0.timestamp
                > a.services@[k]->Value_0.timestamp {
                b.services@[k]
            } else {
                a.services@[k]
            },
{
    lemma_merge_keys(a.services@, b.services@, r.services@);
    assert forall|k: Seq<char>|
        !a.services@.contains_key(k) && b.services@.contains_key(k) && !(b.services@[k] is BadData)
            implies #[trigger] r.services@[k] == b.services@[k] by {
        lemma_merge_one_side(a.services@, b.services@, r.services@, k);
    }
    assert forall|k: Seq<char>|
        a.services@.contains_key(k) && a.services@[k] is Value && b.services@.contains_key(k)
            && b.services@[k] is Value implies #[trigger] r.services@[k] == if b.services@[k]->Value_0.timestamp
            > a.services@[k]->Value_0.timestamp {
            b.services@[k]
        } else {
            a.services@[k]
        } by {
        lemma_services_newer_wins(a.services@, b.services@, r.services@, k);
    }
}

/// Merging two replicas of a project: the newer one gives the timestamp,
/// slug and title (the project's own on a tie); every group of either
/// replica is kept (but unreadable data of the incoming one); a group that
/// only the incoming replica holds comes over as it is, and a group that
/// both hold is the merge of the two.
pub proof fn lemma_project_merge(a: Project, b: Project, r: Project)
    requires
        a.merges_into(&b, &r),
    ensures
        r.timestamp == max_stamp(a.timestamp, b.timestamp),
        b.timestamp > a.timestamp ==> r.slug == b.slug && r.title == b.title,
        b.timestamp <= a.timestamp ==> r.slug == a.slug && r.title == a.title,
        forall|k: Seq<char>|
            #[trigger] r.groups@.contains_key(k) <==> a.groups@.contains_key(k) || (b.groups@.contains_key(k)
                && !(b.groups@[k] is BadData)),
        forall|k: Seq<char>|
            !a.groups@.contains_key(k) && b.groups@.contains_key(k) && !(b.groups@[k] is BadData)
                ==> #[trigger] r.groups@[k] == b.groups@[k],
        forall|k: Seq<char>|
            a.groups@.contains_key(k) && a.groups@[k] is Value && b.groups@.contains_key(k) && b.groups@[k] is Value
                ==> #[trigger] r.groups@[k] is Value && a.groups@[k]->Value_0.merges_into(
                &b.groups@[k]->Value_0,
                &r.groups@[k]->Value_0,
            ),
{
    lemma_merge_keys(a.groups@, b.groups@, r.groups@);
    assert forall|k: Seq<char>|
        !a.groups@.contains_key(k) && b.groups@.contains_key(k) && !(b.groups@[k] is BadData)
            implies #[trigger] r.groups@[k] == b.groups@[k] by {
        lemma_merge_one_side(a.groups@, b.groups@, r.groups@, k);
    }
    assert forall|k: Seq<char>|
        a.groups@.contains_key(k) && a.groups@[k] is Value && b.groups@.contains_key(k) && b.groups@[k] is Value
            implies #[trigger] r.groups@[k] is Value && a.groups@[k]->Value_0.merges_into(
            &b.groups@[k]->Value_0,
            &r.groups@[k]->Value_0,
        ) by {
        lemma_merge_values(a.groups@, b.groups@, r.groups@, k);
    }
}

/// Creates project `slug` at time `now`, replacing any project of that slug.
pub fn create_project(schedule: &mut Schedule, slug: String, title: String, now: u64) -> (r: Result<
    Okay,
    MutationError,
>)
    ensures
        r matches Ok(o) && o.ok,
        final(schedule).sources == old(schedule).sources,
        final(schedule).nodes == old(schedule).nodes,
        final(schedule).projects@.remove(slug@) == old(schedule).projects@.remove(slug@),
        final(schedule).projects@.contains_key(slug@),
        final(schedule).projects@[slug@] is Value,
        final(schedule).projects@[slug@]->Value_0.timestamp == now,
        final(schedule).projects@[slug@]->Value_0.slug == slug,
        final(schedule).projects@[slug@]->Value_0.title == title,
        final(schedule).projects@[slug@]->Value_0.groups@ == vstd::map::Map::<Seq<char>, Item<Group>>::empty(),
{
    let key = slug.clone();
    schedule.projects.insert(key, Project { timestamp: now, groups: LwwMap::new(), slug, title });
    proof {
        assert(final(schedule).projects@.remove(slug@) =~= old(schedule).projects@.remove(slug@));
    }
    Ok(Okay { ok: true })
}

/// `q` has the timestamp, slug and title of `p`.
pub open spec fn same_project_but_groups(p: Project, q: Project) -> bool {
    q.timestamp == p.timestamp && q.slug == p.slug && q.title == p.title
}

/// `m` holds, under `slug`, a fresh group created at `now`.
pub open spec fn new_group_at(m: vstd::map::Map<Seq<char>, Item<Group>>, slug: String, title: String, now: u64) -> bool {
    &&& m.contains_key(slug@)
    &&& m[slug@] is Value
    &&& m[slug@]->Value_0.timestamp == now
    &&& m[slug@]->Value_0.slug == slug
    &&& m[slug@]->Value_0.title == title
    &&& m[slug@]->Value_0.services@ == vstd::map::Map::<Seq<char>, Item<Service>>::empty()
}

/// `q` has the timestamp, slug and title of `p`.
pub open spec fn same_group_but_services(p: Group, q: Group) -> bool {
    q.timestamp == p.timestamp && q.slug == p.slug && q.title == p.title
}

/// Creates group `slug` in project `project` at time `now`, replacing any
/// group of that slug; refused when the project does not hold a value.
pub fn create_group(
    schedule: &mut Schedule,
    project: String,
    slug: String,
    title: String,
    now: u64,
) -> (r: Result<Okay, MutationError>)
    ensures
        final(schedule).sources == old(schedule).sources,
        final(schedule).nodes == old(schedule).nodes,
        match old(schedule).projects@.get(project@) {
            Some(Item::Value(p)) => {
                &&& r matches Ok(o) && o.ok
                &&& final(schedule).projects@.remove(project@) == old(schedule).projects@.remove(project@)
                &&& final(schedule).projects@.contains_key(project@)
                &&& final(schedule).projects@[project@] is Value
                &&& same_project_but_groups(p, final(schedule).projects@[project@]->Value_0)
                &&& final(schedule).projects@[project@]->Value_0.groups@.remove(slug@) == p.groups@.remove(slug@)
                &&& new_group_at(final(schedule).projects@[project@]->Value_0.groups@, slug, title, now)
            },
            _ => r == Err::<Okay, MutationError>(MutationError::NoProject(slug))
                && *final(schedule) == *old(schedule),
        },
{
    let mut proj = match schedule.projects.take(project.as_str()) {
        Some(p) => p,
        None => {
            return Err(MutationError::NoProject(slug));
        },
    };
    let ghost p0 = proj;
    let key = slug.clone();
    proj.groups.insert(key, Group { timestamp: now, services: LwwMap::new(), slug, title });
    proof {
        assert(proj.groups@.remove(slug@) =~= p0.groups@.remove(slug@));
    }
    schedule.projects.insert(project, proj);
    proof {
        assert(final(schedule).projects@.remove(project@) =~= old(schedule).projects@.remove(project@));
    }
    Ok(Okay { ok: true })
}

} // verus!
