//! Distribution of service instances over the hosts of the cluster.
use vstd::prelude::*;
use crate::text::{sep_at, has_sep, first_sep, split_role_spec, lemma_first_sep_unique};
use crate::lwwset::{LwwMap, Item, live_items};
use crate::scheduler::projects::{Project, Group};
use crate::scheduler::services::Service;
use crate::scheduler::sources::{Source, Container};
use crate::strmap::StrMap;
use crate::shield::{Shield, ShieldExt};
use crate::text::role_name_spec;
use crate::random::is_sample;
use crate::input::holds_text;
use crate::scheduler::schedule::{Schedule, Node, NodeRole, NodeService};
use crate::scheduler::running::{
    Running, RunningTable, run_view, total_of, servers_of, count_of, picked, add_rounds,
    counts_within, add_services, drop_services, copy_running, collect_running, nodes_counted,
    lemma_add_rounds_keeps,
    contribution, bumped,
};
use rand::XorShiftRng;

verus! {

/// Finds the first separator at or after `from`.
pub(crate) fn find_sep(s: &str, len: usize, from: usize) -> (r: Option<usize>)
    requires
        len == s@.len(),
        from <= len,
    ensures
        match r {
            Some(i) => from <= i && sep_at(s@, i as int) && forall|j: int|
                from <= j < i ==> !sep_at(s@, j),
            None => forall|j: int| from <= j ==> !sep_at(s@, j),
        },
{
    let mut i = from;
    while len - i >= 2
        invariant
            len == s@.len(),
            from <= i <= len,
            forall|j: int| from <= j < i ==> !sep_at(s@, j),
        decreases len - i,
    {
        if s.get_char(i) == '-' && s.get_char(i + 1) == '-' {
            return Some(i);
        }
        i = i + 1;
    }
    None
}

/// Splits a role name `project--group` into its project and group slugs;
/// `None` unless splitting at `--` gives exactly two pieces.
pub fn split_role_name<'a>(rname: &'a str) -> (r: Option<(&'a str, &'a str)>)
    ensures
        match r {
            Some((p, g)) => split_role_spec(rname@) == Some((p@, g@)),
            None => split_role_spec(rname@) is None,
        },
{
    let len = rname.unicode_len();
    match find_sep(rname, len, 0) {
        None => {
            proof {
                if has_sep(rname@) {
                    let k = choose|k: int| sep_at(rname@, k);
                    assert(!sep_at(rname@, k));
                }
            }
            None
        },
        Some(i) => {
            let ghost s = rname@;
            proof {
                assert(first_sep(s, i as int));
                let k = choose|k: int| first_sep(s, k);
                lemma_first_sep_unique(s, i as int, k);
            }
            let rest = rname.substring_char(i + 2, len);
            match find_sep(rname, len, i + 2) {
                Some(j) => {
                    proof {
                        assert(sep_at(rest@, j - i - 2));
                    }
                    None
                },
                None => {
                    proof {
                        if has_sep(rest@) {
                            let k = choose|k: int| sep_at(rest@, k);
                            assert(sep_at(s, k + i + 2));
                        }
                    }
                    let proj = rname.substring_char(0, i);
                    Some((proj, rest))
                },
            }
        },
    }
}

/// A service of the schedule: project slug, group slug, service name, service.
pub type Slot = (Seq<char>, Seq<char>, Seq<char>, Service);

/// The services `ss` of group `g` of project `p`, in order.
pub open spec fn group_slots(p: Seq<char>, g: Seq<char>, ss: Seq<(String, Service)>) -> Seq<Slot>
    decreases ss.len(),
{
    if ss.len() == 0 {
        Seq::empty()
    } else {
        group_slots(p, g, ss.drop_last()).push((p, g, ss.last().0@, ss.last().1))
    }
}

/// The services of the groups `gs` of project `p`, group by group.
pub open spec fn project_slots(p: Seq<char>, gs: Seq<(String, Group)>) -> Seq<Slot>
    decreases gs.len(),
{
    if gs.len() == 0 {
        Seq::empty()
    } else {
        project_slots(p, gs.drop_last()) + group_slots(
            p,
            gs.last().0@,
            live_items(gs.last().1.services.entries()),
        )
    }
}

/// The services of the projects `ps`, project by project.
pub open spec fn all_slots(ps: Seq<(String, Project)>) -> Seq<Slot>
    decreases ps.len(),
{
    if ps.len() == 0 {
        Seq::empty()
    } else {
        all_slots(ps.drop_last()) + project_slots(ps.last().0@, live_items(ps.last().1.groups.entries()))
    }
}

/// The services of a schedule's projects, in the order the scheduler
/// visits them: projects, groups and services that hold values, in key order.
pub open spec fn schedule_slots(projects: LwwMap<Project>) -> Seq<Slot> {
    all_slots(live_items(projects.entries()))
}

/// What a slot reference stands for.
pub open spec fn slot_of(t: (&String, &String, &String, &Service)) -> Slot {
    ((*t.0)@, (*t.1)@, (*t.2)@, *t.3)
}

/// The services of the schedule's projects, in visiting order.
pub(crate) fn list_slots<'a>(projects: &'a LwwMap<Project>) -> (r: Vec<(&'a String, &'a String, &'a String, &'a Service)>)
    ensures
        r@.len() == schedule_slots(*projects).len(),
        forall|i: int| 0 <= i < r@.len() ==> slot_of(#[trigger] r@[i]) == schedule_slots(*projects)[i],
{
    let ps = projects.iter();
    let ghost lp = live_items(projects.entries());
    let mut out: Vec<(&'a String, &'a String, &'a String, &'a Service)> = Vec::new();
    let mut i: usize = 0;
    while i < ps.len()
        invariant
            ps@.len() == lp.len(),
            forall|j: int| 0 <= j < ps@.len() ==> *(#[trigger] ps@[j]).0 == lp[j].0 && *ps@[j].1 == lp[j].1,
            i <= ps@.len(),
            out@.len() == all_slots(lp.take(i as int)).len(),
            forall|j: int| 0 <= j < out@.len() ==> slot_of(#[trigger] out@[j]) == all_slots(lp.take(i as int))[j],
        decreases ps@.len() - i,
    {
        let (pname, proj) = ps[i];
        let gs = proj.groups.iter();
        let ghost lg = live_items(proj.groups.entries());
        let ghost base = out@;
        let mut a: usize = 0;
        while a < gs.len()
            invariant
                gs@.len() == lg.len(),
                forall|j: int| 0 <= j < gs@.len() ==> *(#[trigger] gs@[j]).0 == lg[j].0 && *gs@[j].1 == lg[j].1,
                a <= gs@.len(),
                out@.len() == base.len() + project_slots(pname@, lg.take(a as int)).len(),
                forall|j: int| 0 <= j < base.len() ==> #[trigger] out@[j] == base[j],
                forall|j: int|
                    0 <= j < project_slots(pname@, lg.take(a as int)).len() ==> slot_of(#[trigger] out@[base.len() + j])
                        == project_slots(pname@, lg.take(a as int))[j],
            decreases gs@.len() - a,
        {
            let (gname, grp) = gs[a];
            let ss = grp.services.iter();
            let ghost ls = live_items(grp.services.entries());
            let ghost mid = out@;
            let mut b: usize = 0;
            while b < ss.len()
                invariant
                    ss@.len() == ls.len(),
                    forall|j: int| 0 <= j < ss@.len() ==> *(#[trigger] ss@[j]).0 == ls[j].0 && *ss@[j].1 == ls[j].1,
                    b <= ss@.len(),
                    out@.len() == mid.len() + b,
                    forall|j: int| 0 <= j < mid.len() ==> #[trigger] out@[j] == mid[j],
                    forall|j: int|
                        0 <= j < b ==> slot_of(#[trigger] out@[mid.len() + j]) == group_slots(pname@, gname@, ls.take(b as int))[j],
                    group_slots(pname@, gname@, ls.take(b as int)).len() == b,
                decreases ss@.len() - b,
            {
                let (sname, svc) = ss[b];
                out.push((pname, gname, sname, svc));
                proof {
                    assert(ls.take(b + 1).drop_last() =~= ls.take(b as int));
                    assert(ls.take(b + 1).last() == ls[b as int]);
                    assert(slot_of(out@[mid.len() + b]) == (pname@, gname@, sname@, *svc));
                }
                b = b + 1;
            }
            proof {
                assert(ls.take(b as int) =~= ls);
                assert(lg.take(a + 1).drop_last() =~= lg.take(a as int));
                assert(lg.take(a + 1).last() == lg[a as int]);
                let prev = project_slots(pname@, lg.take(a as int));
                let gsl = group_slots(pname@, gname@, ls);
                assert(project_slots(pname@, lg.take(a + 1)) == prev + gsl);
                assert forall|j: int| 0 <= j < prev.len() + gsl.len() implies slot_of(#[trigger] out@[base.len() + j])
                    == (prev + gsl)[j] by {
                    if j >= prev.len() {
                        assert(out@[base.len() + j] == out@[mid.len() + (j - prev.len())]);
                    } else {
                        assert(out@[base.len() + j] == mid[base.len() + j]);
                    }
                }
            }
            a = a + 1;
        }
        proof {
            assert(lg.take(a as int) =~= lg);
            assert(lp.take(i + 1).drop_last() =~= lp.take(i as int));
            assert(lp.take(i + 1).last() == lp[i as int]);
            let prev = all_slots(lp.take(i as int));
            let psl = project_slots(pname@, lg);
            assert(all_slots(lp.take(i + 1)) == prev + psl);
            assert forall|j: int| 0 <= j < out@.len() implies slot_of(#[trigger] out@[j]) == all_slots(lp.take(i + 1))[j] by {
                if j >= prev.len() {
                    assert(out@[j] == out@[base.len() + (j - prev.len())]);
                }
            }
        }
        i = i + 1;
    }
    proof {
        assert(lp.take(i as int) =~= lp);
    }
    out
}

/// The first of the containers `cs` whose image runs a daemon `config`.
pub open spec fn first_image(cs: Seq<(String, ())>, images: Map<Seq<char>, Container>, config: Seq<char>) -> Option<
    Seq<char>,
>
    decreases cs.len(),
{
    if cs.len() == 0 {
        None
    } else if images.contains_key(cs[0].0@) && images[cs[0].0@].daemons@.contains_key(config) {
        Some(cs[0].0@)
    } else {
        first_image(cs.drop_first(), images, config)
    }
}

/// The container that runs service `svc`: of the deployment of its version
/// in its source, the first container, in name order, whose image runs a
/// daemon of the service's config.
pub open spec fn image_of(sources: Map<Seq<char>, Item<Source>>, svc: Service) -> Option<Seq<char>> {
    if sources.contains_key(svc.source@) && sources[svc.source@] is Value {
        let src = sources[svc.source@]->Value_0;
        if src.deployments@.contains_key(svc.version@) {
            first_image(src.deployments@[svc.version@].containers.items(), src.images@, svc.config@)
        } else {
            None
        }
    } else {
        None
    }
}

/// Whether the image of container `c` runs a daemon of config `config`.
pub open spec fn runs_config(images: Map<Seq<char>, Container>, c: Seq<char>, config: Seq<char>) -> bool {
    images.contains_key(c) && images[c].daemons@.contains_key(config)
}

/// The first container of `cs` whose image runs `config`, with what comes
/// before it, and none when no container of `cs` runs it.
proof fn lemma_first_image(cs: Seq<(String, ())>, images: Map<Seq<char>, Container>, config: Seq<char>)
    ensures
        first_image(cs, images, config) matches Some(c) ==> exists|i: int|
            0 <= i < cs.len() && cs[i].0@ == c && runs_config(images, c, config) && forall|j: int|
                0 <= j < i ==> !runs_config(images, #[trigger] cs[j].0@, config),
        first_image(cs, images, config) is None ==> forall|i: int|
            0 <= i < cs.len() ==> !runs_config(images, #[trigger] cs[i].0@, config),
    decreases cs.len(),
{
    if cs.len() > 0 {
        let t = cs.drop_first();
        lemma_first_image(t, images, config);
        if !runs_config(images, cs[0].0@, config) {
            if first_image(t, images, config) is Some {
                let c = first_image(t, images, config)->0;
                let i = choose|i: int|
                    0 <= i < t.len() && t[i].0@ == c && runs_config(images, c, config) && forall|j: int|
                        0 <= j < i ==> !runs_config(images, #[trigger] t[j].0@, config);
                assert(cs[i + 1] == t[i]);
                assert forall|j: int| 0 <= j < i + 1 implies !runs_config(images, #[trigger] cs[j].0@, config) by {
                    if j > 0 {
                        assert(cs[j] == t[j - 1]);
                    }
                }
            } else {
                assert forall|i: int| 0 <= i < cs.len() implies !runs_config(images, #[trigger] cs[i].0@, config) by {
                    if i > 0 {
                        assert(cs[i] == t[i - 1]);
                    }
                }
            }
        }
    }
}

/// The image that a service runs is a container of the deployment of the
/// service's own version, in the service's own source, and that
/// container's image runs a daemon of the service's config; no container
/// listed before it does. A service has no image exactly when its source
/// holds no such deployment, or no container of it runs the config.
pub proof fn lemma_image_of_own_deployment(sources: Map<Seq<char>, Item<Source>>, svc: Service)
    ensures
        image_of(sources, svc) matches Some(c) ==> {
            &&& sources.contains_key(svc.source@)
            &&& sources[svc.source@] is Value
            &&& sources[svc.source@]->Value_0.deployments@.contains_key(svc.version@)
            &&& sources[svc.source@]->Value_0.deployments@[svc.version@].containers@.contains_key(c)
            &&& runs_config(sources[svc.source@]->Value_0.images@, c, svc.config@)
            &&& exists|i: int|
                0 <= i < sources[svc.source@]->Value_0.deployments@[svc.version@].containers.items().len()
                    && sources[svc.source@]->Value_0.deployments@[svc.version@].containers.items()[i].0@ == c
                    && forall|j: int|
                    0 <= j < i ==> !runs_config(
                        sources[svc.source@]->Value_0.images@,
                        #[trigger] sources[svc.source@]->Value_0.deployments@[svc.version@].containers.items()[j].0@,
                        svc.config@,
                    )
        },
        image_of(sources, svc) is None ==> !(sources.contains_key(svc.source@) && sources[svc.source@] is Value
            && sources[svc.source@]->Value_0.deployments@.contains_key(svc.version@) && exists|c: Seq<char>|
            sources[svc.source@]->Value_0.deployments@[svc.version@].containers@.contains_key(c)
                && #[trigger] runs_config(sources[svc.source@]->Value_0.images@, c, svc.config@)),
{
    if sources.contains_key(svc.source@) && sources[svc.source@] is Value {
        let src = sources[svc.source@]->Value_0;
        if src.deployments@.contains_key(svc.version@) {
            let cs = src.deployments@[svc.version@].containers.items();
            lemma_first_image(cs, src.images@, svc.config@);
            crate::strmap::lemma_items_map_keys(cs);
            if image_of(sources, svc) is None {
                assert forall|c: Seq<char>|
                    src.deployments@[svc.version@].containers@.contains_key(c) implies !#[trigger] runs_config(
                    src.images@,
                    c,
                    svc.config@,
                ) by {
                    let i = choose|i: int| 0 <= i < cs.len() && cs[i].0@ == c;
                }
            }
        }
    }
}

/// Finds the container that runs service `svc` (see `image_of`).
fn find_image<'a>(sources: &'a LwwMap<Source>, svc: &Service) -> (r: Option<&'a String>)
    ensures
        match r {
            Some(c) => image_of(sources@, *svc) == Some(c@),
            None => image_of(sources@, *svc) is None,
        },
{
    let src = match sources.get(svc.source.as_str()) {
        Some(x) => x,
        None => {
            return None;
        },
    };
    let ver = match src.deployments.get(svc.version.as_str()) {
        Some(d) => d,
        None => {
            return None;
        },
    };
    let ghost cs = ver.containers.items();
    let n = ver.containers.len();
    let mut i: usize = 0;
    assert(cs.skip(0) =~= cs);
    assert(image_of(sources@, *svc) == first_image(cs, src.images@, svc.config@));
    while i < n
        invariant
            n == cs.len(),
            cs == ver.containers.items(),
            image_of(sources@, *svc) == first_image(cs, src.images@, svc.config@),
            i <= n,
            first_image(cs, src.images@, svc.config@) == first_image(cs.skip(i as int), src.images@, svc.config@),
        decreases n - i,
    {
        let (c, _) = ver.containers.entry_at(i);
        proof {
            assert(cs.skip(i as int)[0] == cs[i as int]);
            assert(cs.skip(i as int).drop_first() =~= cs.skip(i + 1));
        }
        match src.images.get(c.as_str()) {
            Some(img) => {
                if img.daemons.contains_key(svc.config.as_str()) {
                    proof {
                        assert(first_image(cs.skip(i as int), src.images@, svc.config@) == Some(c@));
                    }
                    return Some(c);
                }
            },
            None => {},
        }
        i = i + 1;
    }
    proof {
        assert(cs.skip(n as int).len() == 0);
    }
    None
}

/// Whether position `i` holds the first `.` of `c`.
pub open spec fn first_dot(c: Seq<char>, i: int) -> bool {
    0 <= i < c.len() && c[i] == '.' && forall|j: int| 0 <= j < i ==> c[j] != '.'
}

/// The text of `c` before its first `.`; all of `c` when it has none.
pub open spec fn before_dot(c: Seq<char>) -> Seq<char> {
    if exists|i: int| first_dot(c, i) {
        c.take(choose|i: int| first_dot(c, i))
    } else {
        c
    }
}

/// The image that a service runs: its source, the container's name up to
/// its first `.`, and the container's name, joined by `/`.
pub open spec fn image_text(source: Seq<char>, c: Seq<char>) -> Seq<char> {
    source + seq!['/'] + before_dot(c) + seq!['/'] + c
}

/// Builds the image name of container `c` of source `source` (see `image_text`).
fn image_name(source: &String, c: &String) -> (r: String)
    ensures
        r@ == image_text(source@, c@),
{
    let len = c.as_str().unicode_len();
    let mut i: usize = 0;
    while i < len && c.as_str().get_char(i) != '.'
        invariant
            len == c@.len(),
            i <= len,
            forall|j: int| 0 <= j < i ==> c@[j] != '.',
        decreases len - i,
    {
        i = i + 1;
    }
    proof {
        if i < len {
            assert(first_dot(c@, i as int));
            let k = choose|k: int| first_dot(c@, k);
            if k < i {
                assert(c@[k] != '.');
            }
            if i < k {
                assert(c@[i as int] != '.');
            }
        } else {
            assert(c@.take(len as int) =~= c@);
            if exists|k: int| first_dot(c@, k) {
                let k = choose|k: int| first_dot(c@, k);
                assert(c@[k] != '.');
            }
        }
    }
    let head = c.as_str().substring_char(0, i);
    let mut r = source.clone();
    r.append("/");
    r.append(head);
    r.append("/");
    r.append(c.as_str());
    proof {
        reveal_strlit("/");
        assert(r@ =~= image_text(source@, c@));
    }
    r
}

/// A service as placed on a node: image, config, instances.
pub type ServiceV = (Seq<char>, Seq<char>, u32);

/// A role as placed on a node: version, and services by name.
pub type RoleV = (Seq<char>, Map<Seq<char>, ServiceV>);

/// Placed roles by host and role name.
pub type NodesV = Map<Seq<char>, Map<Seq<char>, RoleV>>;

/// `v` once service `sn` of role `rn` is placed on host `h` with `n` instances.
pub open spec fn place(
    v: NodesV,
    h: Seq<char>,
    rn: Seq<char>,
    version: Seq<char>,
    sn: Seq<char>,
    image: Seq<char>,
    config: Seq<char>,
    n: u32,
) -> NodesV {
    let roles = if v.contains_key(h) {
        v[h]
    } else {
        Map::empty()
    };
    let svcs = if roles.contains_key(rn) {
        roles[rn].1
    } else {
        Map::empty()
    };
    v.insert(h, roles.insert(rn, (version, svcs.insert(sn, (image, config, n)))))
}

/// `v` once a service is placed on each of `hosts`, in order, that `counts`
/// gives instances.
pub open spec fn place_hosts(
    v: NodesV,
    hosts: Seq<String>,
    counts: Map<Seq<char>, u32>,
    rn: Seq<char>,
    version: Seq<char>,
    sn: Seq<char>,
    image: Seq<char>,
    config: Seq<char>,
) -> NodesV
    decreases hosts.len(),
{
    if hosts.len() == 0 {
        v
    } else {
        let before = place_hosts(v, hosts.drop_last(), counts, rn, version, sn, image, config);
        let h = hosts.last()@;
        if count_of(counts, h) != 0 {
            place(before, h, rn, version, sn, image, config, counts[h])
        } else {
            before
        }
    }
}

/// The instances by host of a service once those that run, `run`, are
/// brought up to `instances` with the random sample `sample` of `hosts`.
pub open spec fn adjusted(run: (int, Map<Seq<char>, u32>), instances: u32, hosts: Seq<String>, sample: Seq<usize>) -> Map<
    Seq<char>,
    u32,
> {
    if run.0 < instances && hosts.len() > 0 {
        add_rounds(run.1, picked(sample, hosts), (instances - run.0) as nat)
    } else {
        run.1
    }
}

/// Bringing a service up to the instances it asks for takes no instance
/// away from a host that runs some, gives no host more than the shortfall,
/// and leaves a host that the sample does not pick as it was.
pub proof fn lemma_adjusted_keeps_running(
    run: (int, Map<Seq<char>, u32>),
    instances: u32,
    hosts: Seq<String>,
    sample: Seq<usize>,
    h: Seq<char>,
)
    requires
        0 <= run.0,
        counts_within(run.0, run.1),
    ensures
        count_of(run.1, h) <= count_of(adjusted(run, instances, hosts, sample), h) <= count_of(run.1, h)
            + sample_amount(run.0, instances),
        !picked(sample, hosts).contains(h) ==> count_of(adjusted(run, instances, hosts, sample), h)
            == count_of(run.1, h),
{
    if run.0 < instances && hosts.len() > 0 {
        let n = (instances - run.0) as nat;
        assert forall|k: Seq<char>| #[trigger] count_of(run.1, k) + n <= u32::MAX by {
            if run.1.contains_key(k) {
                assert(run.1[k] <= run.0);
            }
        }
        lemma_add_rounds_keeps(run.1, picked(sample, hosts), n, h);
    }
}

/// How many hosts are sampled for a service: the instances to add or to
/// take away.
pub open spec fn sample_amount(total: int, instances: u32) -> nat {
    if total < instances {
        (instances - total) as nat
    } else {
        (total - instances) as nat
    }
}

/// The roles that the scheduler places, service by service, given the
/// nodes `ns` that run services already and the samples drawn.
pub open spec fn distribute_spec(
    slots: Seq<Slot>,
    ns: Seq<(String, Shield<Node>)>,
    hosts: Seq<String>,
    sources: Map<Seq<char>, Item<Source>>,
    samples: Seq<Seq<usize>>,
) -> NodesV
    decreases slots.len(),
{
    if slots.len() == 0 {
        Map::empty()
    } else {
        let before = distribute_spec(slots.drop_last(), ns, hosts, sources, samples);
        let (p, g, s, svc) = slots.last();
        let run = (total_of(ns, p, g, s), servers_of(ns, p, g, s));
        let counts = adjusted(run, svc.instances, hosts, samples[slots.len() - 1]);
        if svc.instances > 0 && image_of(sources, svc) is Some {
            place_hosts(
                before,
                hosts,
                counts,
                role_name_spec(p, g),
                svc.version@,
                s,
                image_text(svc.source@, image_of(sources, svc)->0),
                svc.config@,
            )
        } else {
            before
        }
    }
}

/// A placed service.
pub open spec fn service_real(sh: Shield<NodeService>, x: ServiceV) -> bool {
    &&& sh is Valid
    &&& sh->Valid_0.image@ == x.0
    &&& sh->Valid_0.config@ == x.1
    &&& sh->Valid_0.instances == x.2
}

/// A placed role: template `service`, with the version and the services.
pub open spec fn role_real(sh: Shield<NodeRole>, x: RoleV) -> bool {
    &&& sh is Valid
    &&& sh->Valid_0.template is Some
    &&& sh->Valid_0.template->0@ == "service"@
    &&& sh->Valid_0.version@ == x.0
    &&& forall|s: Seq<char>| #[trigger] sh->Valid_0.services@.contains_key(s) == x.1.contains_key(s)
    &&& forall|s: Seq<char>| #[trigger] x.1.contains_key(s) ==> service_real(sh->Valid_0.services@[s], x.1[s])
}

/// A node with placed roles.
pub open spec fn node_real(sh: Shield<Node>, x: Map<Seq<char>, RoleV>) -> bool {
    &&& sh is Valid
    &&& forall|k: Seq<char>| #[trigger] sh->Valid_0.roles@.contains_key(k) == x.contains_key(k)
    &&& forall|k: Seq<char>| #[trigger] x.contains_key(k) ==> role_real(sh->Valid_0.roles@[k], x[k])
}

/// The nodes `m` hold exactly the placed roles `v`.
pub open spec fn nodes_real(m: Map<Seq<char>, Shield<Node>>, v: NodesV) -> bool {
    &&& forall|h: Seq<char>| #[trigger] m.contains_key(h) == v.contains_key(h)
    &&& forall|h: Seq<char>| #[trigger] v.contains_key(h) ==> node_real(m[h], v[h])
}

/// Places `n` instances of service `sname` of role `rname` on host `h`.
fn place_one(
    nodes: &mut StrMap<Shield<Node>>,
    h: &String,
    rname: &String,
    version: &String,
    sname: &String,
    image: &String,
    config: &String,
    n: u32,
)
    ensures
        forall|v: NodesV| #[trigger] nodes_real(old(nodes)@, v) ==> nodes_real(
            final(nodes)@,
            place(v, h@, rname@, version@, sname@, image@, config@, n),
        ),
{
    let ghost m0 = nodes@;
    let mut node = nodes.take_valid(h.as_str());
    let ghost nd0 = node;
    let mut role = node.roles.take_valid(rname.as_str());
    let ghost r0 = role;
    role.version = version.clone();
    role.template = Some(String::from_str("service"));
    role.services.insert(
        sname.clone(),
        Shield::Valid(NodeService { image: image.clone(), config: config.clone(), instances: n }),
    );
    node.roles.insert(rname.clone(), Shield::Valid(role));
    nodes.insert(h.clone(), Shield::Valid(node));
    proof {
        assert forall|v: NodesV| #[trigger] nodes_real(m0, v) implies nodes_real(
            nodes@,
            place(v, h@, rname@, version@, sname@, image@, config@, n),
        ) by {
            let w = place(v, h@, rname@, version@, sname@, image@, config@, n);
            let roles = if v.contains_key(h@) { v[h@] } else { Map::empty() };
            let svcs = if roles.contains_key(rname@) { roles[rname@].1 } else { Map::empty() };
            assert(node_real(Shield::Valid(nd0), roles)) by {
                if !v.contains_key(h@) {
                    assert(!m0.contains_key(h@));
                    assert(nd0.roles@ == Map::<Seq<char>, Shield<NodeRole>>::empty());
                }
            }
            assert(forall|s: Seq<char>| #[trigger] r0.services@.contains_key(s) == svcs.contains_key(s)
                && (svcs.contains_key(s) ==> service_real(r0.services@[s], svcs[s]))) by {
                if !roles.contains_key(rname@) {
                    assert(!nd0.roles@.contains_key(rname@));
                    assert(r0.services@ == Map::<Seq<char>, Shield<NodeService>>::empty());
                }
            }
            assert(role_real(node.roles@[rname@], w[h@][rname@]));
            assert(node_real(nodes@[h@], w[h@]));
            assert forall|k: Seq<char>| #[trigger] w.contains_key(k) implies node_real(nodes@[k], w[k]) by {
                if k != h@ {
                    assert(m0.contains_key(k));
                }
            }
        }
    }
}

/// Places a service on each host that `counts` gives instances.
fn place_on_hosts(
    nodes: &mut StrMap<Shield<Node>>,
    hosts: &Vec<String>,
    counts: &StrMap<u32>,
    rname: &String,
    version: &String,
    sname: &String,
    image: &String,
    config: &String,
)
    ensures
        forall|v: NodesV| #[trigger] nodes_real(old(nodes)@, v) ==> nodes_real(
            final(nodes)@,
            place_hosts(v, hosts@, counts@, rname@, version@, sname@, image@, config@),
        ),
{
    let ghost m0 = nodes@;
    let n = hosts.len();
    let mut i: usize = 0;
    while i < n
        invariant
            n == hosts@.len(),
            i <= n,
            forall|v: NodesV| #[trigger] nodes_real(m0, v) ==> nodes_real(
                nodes@,
                place_hosts(v, hosts@.take(i as int), counts@, rname@, version@, sname@, image@, config@),
            ),
        decreases n - i,
    {
        let h = &hosts[i];
        let c = match counts.get(h.as_str()) {
            Some(x) => *x,
            None => 0,
        };
        let ghost before = nodes@;
        if c != 0 {
            place_one(nodes, h, rname, version, sname, image, config, c);
        }
        proof {
            let t = hosts@.take(i + 1);
            assert(t.drop_last() =~= hosts@.take(i as int));
            assert(t.last() == hosts@[i as int]);
            assert forall|v: NodesV| #[trigger] nodes_real(m0, v) implies nodes_real(
                nodes@,
                place_hosts(v, t, counts@, rname@, version@, sname@, image@, config@),
            ) by {
                let w = place_hosts(v, hosts@.take(i as int), counts@, rname@, version@, sname@, image@, config@);
                assert(nodes_real(before, w));
            }
        }
        i = i + 1;
    }
    proof {
        assert(hosts@.take(n as int) =~= hosts@);
    }
}

/// The role name of group `g` of project `p` (see `role_name_spec`).
fn role_name(p: &String, g: &String) -> (r: String)
    ensures
        r@ == role_name_spec(p@, g@),
{
    let mut r = p.clone();
    r.append("--");
    r.append(g.as_str());
    proof {
        reveal_strlit("--");
        assert(r@ =~= role_name_spec(p@, g@));
    }
    r
}

/// What the table holds for a service, if anything.
fn table_get<'a>(table: &'a RunningTable, p: &String, g: &String, s: &String) -> (r: Option<&'a Running>)
    ensures
        match r {
            Some(x) => run_view(*table, p@, g@, s@) == (x.total as int, x.servers@),
            None => run_view(*table, p@, g@, s@) == (0int, Map::<Seq<char>, u32>::empty()),
        },
{
    match table.get(p.as_str()) {
        None => None,
        Some(pt) => match pt.get(g.as_str()) {
            None => None,
            Some(gt) => gt.get(s.as_str()),
        },
    }
}

/// No node runs more instances of a service than all nodes together.
proof fn lemma_servers_within(ns: Seq<(String, Shield<Node>)>, p: Seq<char>, g: Seq<char>, s: Seq<char>)
    ensures
        counts_within(total_of(ns, p, g, s), servers_of(ns, p, g, s)),
        total_of(ns, p, g, s) >= 0,
    decreases ns.len(),
{
    if ns.len() > 0 {
        lemma_servers_within(ns.drop_last(), p, g, s);
    }
}

/// `samples` are samples of the hosts, one per service, of the instances
/// to add to the service or to take away from it.
pub open spec fn samples_drawn(
    samples: Seq<Seq<usize>>,
    slots: Seq<Slot>,
    ns: Seq<(String, Shield<Node>)>,
    hosts: Seq<String>,
) -> bool {
    &&& samples.len() == slots.len()
    &&& forall|i: int|
        0 <= i < slots.len() ==> is_sample(
            #[trigger] samples[i],
            hosts.len(),
            sample_amount(total_of(ns, slots[i].0, slots[i].1, slots[i].2), slots[i].3.instances),
        )
}

/// The placed roles depend only on the samples drawn for the services placed.
proof fn lemma_spec_samples(
    slots: Seq<Slot>,
    ns: Seq<(String, Shield<Node>)>,
    hosts: Seq<String>,
    sources: Map<Seq<char>, Item<Source>>,
    s1: Seq<Seq<usize>>,
    s2: Seq<Seq<usize>>,
)
    requires
        s1.len() >= slots.len(),
        s2.len() >= slots.len(),
        forall|j: int| 0 <= j < slots.len() ==> s1[j] == s2[j],
    ensures
        distribute_spec(slots, ns, hosts, sources, s1) == distribute_spec(slots, ns, hosts, sources, s2),
    decreases slots.len(),
{
    if slots.len() > 0 {
        lemma_spec_samples(slots.drop_last(), ns, hosts, sources, s1, s2);
        assert(s1[slots.len() - 1] == s2[slots.len() - 1]);
    }
}

/// Distributes the instances of the services of the schedule's projects
/// over the hosts, and gives the nodes that run them.
///
/// Every node of the schedule is made valid first (see `collect_running`),
/// and the instances that the nodes run already are counted by service.
/// Then, service by service, in the order of `schedule_slots`: when fewer
/// instances run than the service asks for, the missing ones are placed
/// round-robin on a random sample of the hosts; when the service asks for
/// instances and its image is found (see `image_of`), each host that runs
/// some gets the service under the role of its group, with that count.
///
/// Taking instances away never finishes in this scheduler, so `requires`
/// leaves out the schedules that run more instances of a service than it
/// asks for, unless there are no hosts; no total may exceed a `u32`.
pub fn distribute(schedule: &mut Schedule, hosts: &Vec<String>, rng: &mut XorShiftRng) -> (r: StrMap<Shield<Node>>)
    requires
        forall|p: Seq<char>, g: Seq<char>, s: Seq<char>|
            #[trigger] total_of(old(schedule).nodes.items(), p, g, s) <= u32::MAX,
        hosts@.len() == 0 || forall|i: int|
            0 <= i < schedule_slots(old(schedule).projects).len() ==> total_of(
                old(schedule).nodes.items(),
                (#[trigger] schedule_slots(old(schedule).projects)[i]).0,
                schedule_slots(old(schedule).projects)[i].1,
                schedule_slots(old(schedule).projects)[i].2,
            ) <= schedule_slots(old(schedule).projects)[i].3.instances,
    ensures
        final(schedule).sources == old(schedule).sources,
        final(schedule).projects == old(schedule).projects,
        nodes_counted(old(schedule).nodes@, final(schedule).nodes@),
        exists|samples: Seq<Seq<usize>>|
            #[trigger] samples_drawn(
                samples,
                schedule_slots(old(schedule).projects),
                old(schedule).nodes.items(),
                hosts@,
            ) && nodes_real(
                r@,
                distribute_spec(
                    schedule_slots(old(schedule).projects),
                    old(schedule).nodes.items(),
                    hosts@,
                    old(schedule).sources@,
                    samples,
                ),
            ),
{
    let ghost ns = schedule.nodes.items();
    let ghost slots_v = schedule_slots(schedule.projects);
    let mut nodes: StrMap<Shield<Node>> = StrMap::new();
    std::mem::swap(&mut nodes, &mut schedule.nodes);
    let (counted, table) = collect_running(nodes);
    schedule.nodes = counted;
    let slots = list_slots(&schedule.projects);
    let mut new_nodes: StrMap<Shield<Node>> = StrMap::new();
    let ghost mut samples: Seq<Seq<usize>> = Seq::empty();
    proof {
        assert(nodes_real(new_nodes@, distribute_spec(slots_v.take(0), ns, hosts@, schedule.sources@, samples))) by {
            assert(new_nodes@ =~= Map::<Seq<char>, Shield<Node>>::empty());
        }
    }
    let n = slots.len();
    let mut i: usize = 0;
    while i < n
        invariant
            n == slots@.len(),
            n == slots_v.len(),
            forall|j: int| 0 <= j < n ==> slot_of(#[trigger] slots@[j]) == slots_v[j],
            i <= n,
            forall|p: Seq<char>, g: Seq<char>, s: Seq<char>|
                #[trigger] run_view(table, p, g, s) == (total_of(ns, p, g, s), servers_of(ns, p, g, s)),
            forall|p: Seq<char>, g: Seq<char>, s: Seq<char>| #[trigger] total_of(ns, p, g, s) <= u32::MAX,
            hosts@.len() == 0 || forall|j: int|
                0 <= j < slots_v.len() ==> total_of(
                    ns,
                    (#[trigger] slots_v[j]).0,
                    slots_v[j].1,
                    slots_v[j].2,
                ) <= slots_v[j].3.instances,
            samples.len() == i,
            forall|j: int|
                0 <= j < i ==> is_sample(
                    #[trigger] samples[j],
                    hosts@.len(),
                    sample_amount(total_of(ns, slots_v[j].0, slots_v[j].1, slots_v[j].2), slots_v[j].3.instances),
                ),
            nodes_real(new_nodes@, distribute_spec(slots_v.take(i as int), ns, hosts@, schedule.sources@, samples)),
        decreases n - i,
    {
        let (pname, gname, sname, svc) = slots[i];
        let ghost sl = slots_v[i as int];
        proof {
            assert(slot_of(slots@[i as int]) == sl);
        }
        let mut rentry = match table_get(&table, pname, gname, sname) {
            Some(x) => copy_running(x),
            None => Running { total: 0, servers: StrMap::new() },
        };
        let ghost run0 = (rentry.total as int, rentry.servers@);
        proof {
            assert(run0 == (total_of(ns, sl.0, sl.1, sl.2), servers_of(ns, sl.0, sl.1, sl.2)));
            lemma_servers_within(ns, sl.0, sl.1, sl.2);
        }
        if rentry.total < svc.instances {
            let more = svc.instances - rentry.total;
            proof {
                assert forall|h: Seq<char>| #[trigger] count_of(rentry.servers@, h) + more <= u32::MAX by {
                    if rentry.servers@.contains_key(h) {
                        assert(rentry.servers@[h] <= run0.0);
                    }
                }
            }
            add_services(&mut rentry, hosts, more, rng);
            proof {
                let w = choose|sample: Seq<usize>|
                    #[trigger] is_sample(sample, hosts@.len(), more as nat) && if hosts@.len() == 0 {
                        rentry.total == run0.0 && rentry.servers@ == run0.1
                    } else {
                        rentry.total == run0.0 + more && rentry.servers@ == add_rounds(
                            run0.1,
                            picked(sample, hosts@),
                            more as nat,
                        )
                    };
                assert(sample_amount(run0.0, svc.instances) == more as nat);
                assert(is_sample(w, hosts@.len(), sample_amount(run0.0, svc.instances))
                    && rentry.servers@ == adjusted(run0, svc.instances, hosts@, w));
            }
        } else {
            let fewer = rentry.total - svc.instances;
            proof {
                if hosts@.len() != 0 {
                    assert(total_of(ns, slots_v[i as int].0, slots_v[i as int].1, slots_v[i as int].2)
                        <= slots_v[i as int].3.instances);
                }
            }
            drop_services(&mut rentry, hosts, fewer, rng);
            proof {
                let w = choose|sample: Seq<usize>| #[trigger] is_sample(sample, hosts@.len(), fewer as nat);
                assert(sample_amount(run0.0, svc.instances) == fewer as nat);
                assert(is_sample(w, hosts@.len(), sample_amount(run0.0, svc.instances))
                    && rentry.servers@ == adjusted(run0, svc.instances, hosts@, w));
            }
        }
        let ghost smp = choose|smp: Seq<usize>|
            #[trigger] is_sample(smp, hosts@.len(), sample_amount(run0.0, svc.instances)) && rentry.servers@
                == adjusted(run0, svc.instances, hosts@, smp);
        let ghost before = new_nodes@;
        let ghost samples0 = samples;
        proof {
            samples = samples.push(smp);
            lemma_spec_samples(slots_v.take(i as int), ns, hosts@, schedule.sources@, samples0, samples);
            assert(slots_v.take(i + 1).drop_last() =~= slots_v.take(i as int));
            assert(slots_v.take(i + 1).last() == sl);
        }
        if svc.instances > 0 {
            match find_image(&schedule.sources, svc) {
                Some(c) => {
                    let img = image_name(&svc.source, c);
                    let rname = role_name(pname, gname);
                    place_on_hosts(
                        &mut new_nodes,
                        hosts,
                        &rentry.servers,
                        &rname,
                        &svc.version,
                        sname,
                        &img,
                        &svc.config,
                    );
                },
                None => {},
            }
        }
        i = i + 1;
    }
    proof {
        assert(slots_v.take(n as int) =~= slots_v);
        assert(samples_drawn(samples, slots_v, ns, hosts@));
    }
    new_nodes
}

/// Every placed role stands on one of `hosts`, and every placed service
/// runs at least one instance.
pub open spec fn placed_within(v: NodesV, hosts: Seq<String>) -> bool {
    forall|h: Seq<char>|
        #[trigger] v.contains_key(h) ==> holds_text(hosts, h) && forall|rn: Seq<char>, sn: Seq<char>|
            #[trigger] v[h].contains_key(rn) && #[trigger] v[h][rn].1.contains_key(sn) ==> v[h][rn].1[sn].2 > 0
}

proof fn lemma_place_hosts_within(
    v: NodesV,
    hs: Seq<String>,
    hosts: Seq<String>,
    counts: Map<Seq<char>, u32>,
    rn: Seq<char>,
    version: Seq<char>,
    sn: Seq<char>,
    image: Seq<char>,
    config: Seq<char>,
)
    requires
        placed_within(v, hosts),
        forall|i: int| 0 <= i < hs.len() ==> holds_text(hosts, (#[trigger] hs[i])@),
    ensures
        placed_within(place_hosts(v, hs, counts, rn, version, sn, image, config), hosts),
    decreases hs.len(),
{
    if hs.len() > 0 {
        lemma_place_hosts_within(v, hs.drop_last(), hosts, counts, rn, version, sn, image, config);
        let before = place_hosts(v, hs.drop_last(), counts, rn, version, sn, image, config);
        let h = hs.last()@;
        assert(holds_text(hosts, hs[hs.len() - 1]@));
        if count_of(counts, h) != 0 {
            let w = place(before, h, rn, version, sn, image, config, counts[h]);
            assert forall|k: Seq<char>| #[trigger] w.contains_key(k) implies holds_text(hosts, k) && forall|r: Seq<char>, q: Seq<char>|
                #[trigger] w[k].contains_key(r) && #[trigger] w[k][r].1.contains_key(q) ==> w[k][r].1[q].2 > 0 by {
                if k != h {
                    assert(before.contains_key(k));
                }
            }
        }
    }
}

/// The scheduler places services only on the hosts of the cluster, and
/// each placed service runs at least one instance there.
pub proof fn lemma_distribute_within(
    slots: Seq<Slot>,
    ns: Seq<(String, Shield<Node>)>,
    hosts: Seq<String>,
    sources: Map<Seq<char>, Item<Source>>,
    samples: Seq<Seq<usize>>,
)
    ensures
        placed_within(distribute_spec(slots, ns, hosts, sources, samples), hosts),
    decreases slots.len(),
{
    if slots.len() == 0 {
        assert(placed_within(Map::empty(), hosts));
    } else {
        lemma_distribute_within(slots.drop_last(), ns, hosts, sources, samples);
        let (p, g, s, svc) = slots.last();
        let before = distribute_spec(slots.drop_last(), ns, hosts, sources, samples);
        let run = (total_of(ns, p, g, s), servers_of(ns, p, g, s));
        let counts = adjusted(run, svc.instances, hosts, samples[slots.len() - 1]);
        if svc.instances > 0 && image_of(sources, svc) is Some {
            assert forall|i: int| 0 <= i < hosts.len() implies holds_text(hosts, (#[trigger] hosts[i])@) by {}
            lemma_place_hosts_within(
                before,
                hosts,
                hosts,
                counts,
                role_name_spec(p, g),
                svc.version@,
                s,
                image_text(svc.source@, image_of(sources, svc)->0),
                svc.config@,
            );
        }
    }
}

/// The service `s` of role `r` that `v` places on host `h`, if any.
pub open spec fn placed_service(v: NodesV, h: Seq<char>, r: Seq<char>, s: Seq<char>) -> Option<ServiceV> {
    if v.contains_key(h) && v[h].contains_key(r) && v[h][r].1.contains_key(s) {
        Some(v[h][r].1[s])
    } else {
        None
    }
}

/// The version of role `r` that `v` places on host `h`, if any.
pub open spec fn placed_version(v: NodesV, h: Seq<char>, r: Seq<char>) -> Option<Seq<char>> {
    if v.contains_key(h) && v[h].contains_key(r) {
        Some(v[h][r].0)
    } else {
        None
    }
}

/// Placing service `sn` of role `rn` on host `h` sets that one service and
/// the role's version, and keeps everything else placed: the other hosts,
/// the other roles of `h`, and the other services of the role.
pub proof fn lemma_place_keeps_others(
    v: NodesV,
    h: Seq<char>,
    rn: Seq<char>,
    version: Seq<char>,
    sn: Seq<char>,
    image: Seq<char>,
    config: Seq<char>,
    n: u32,
)
    ensures
        forall|h2: Seq<char>, r2: Seq<char>, s2: Seq<char>|
            #[trigger] placed_service(place(v, h, rn, version, sn, image, config, n), h2, r2, s2) == if h2 == h
                && r2 == rn && s2 == sn {
                Some((image, config, n))
            } else {
                placed_service(v, h2, r2, s2)
            },
        forall|h2: Seq<char>, r2: Seq<char>|
            #[trigger] placed_version(place(v, h, rn, version, sn, image, config, n), h2, r2) == if h2 == h
                && r2 == rn {
                Some(version)
            } else {
                placed_version(v, h2, r2)
            },
        forall|h2: Seq<char>|
            #[trigger] place(v, h, rn, version, sn, image, config, n).contains_key(h2) == (h2 == h
                || v.contains_key(h2)),
{
}

/// Placing a service over hosts places it, with the count that `counts`
/// gives, on each host with a count that is not zero, and keeps every other
/// placed service as it was.
pub proof fn lemma_place_hosts_places(
    v: NodesV,
    hs: Seq<String>,
    counts: Map<Seq<char>, u32>,
    rn: Seq<char>,
    version: Seq<char>,
    sn: Seq<char>,
    image: Seq<char>,
    config: Seq<char>,
)
    ensures
        forall|h2: Seq<char>, r2: Seq<char>, s2: Seq<char>|
            #[trigger] placed_service(place_hosts(v, hs, counts, rn, version, sn, image, config), h2, r2, s2)
                == if r2 == rn && s2 == sn && holds_text(hs, h2) && count_of(counts, h2) != 0 {
                Some((image, config, counts[h2]))
            } else {
                placed_service(v, h2, r2, s2)
            },
    decreases hs.len(),
{
    if hs.len() > 0 {
        let t = hs.drop_last();
        lemma_place_hosts_places(v, t, counts, rn, version, sn, image, config);
        let before = place_hosts(v, t, counts, rn, version, sn, image, config);
        let h = hs.last()@;
        lemma_place_keeps_others(before, h, rn, version, sn, image, config, counts[h]);
        assert forall|h2: Seq<char>| #[trigger] holds_text(hs, h2) == (holds_text(t, h2) || h2 == h) by {
            if holds_text(hs, h2) {
                let i = choose|i: int| 0 <= i < hs.len() && (#[trigger] hs[i])@ == h2;
                if i < t.len() {
                    assert(t[i] == hs[i]);
                }
            }
            if holds_text(t, h2) {
                let i = choose|i: int| 0 <= i < t.len() && (#[trigger] t[i])@ == h2;
                assert(hs[i] == t[i]);
            }
            if h2 == h {
                assert(hs[hs.len() - 1]@ == h2);
            }
        }
    }
}

/// In the roles that the scheduler places, every service that asks for
/// instances and whose version has an image is placed on each host that
/// its adjusted counts give instances, under the role that joins its
/// project and group slugs; when no later service lands on the same role
/// and name, it is placed there with its image, config and count.
pub proof fn lemma_distribute_places(
    slots: Seq<Slot>,
    ns: Seq<(String, Shield<Node>)>,
    hosts: Seq<String>,
    sources: Map<Seq<char>, Item<Source>>,
    samples: Seq<Seq<usize>>,
    i: int,
    h: Seq<char>,
)
    requires
        0 <= i < slots.len(),
        slots[i].3.instances > 0,
        image_of(sources, slots[i].3) is Some,
        holds_text(hosts, h),
        count_of(
            adjusted(
                (total_of(ns, slots[i].0, slots[i].1, slots[i].2), servers_of(ns, slots[i].0, slots[i].1, slots[i].2)),
                slots[i].3.instances,
                hosts,
                samples[i],
            ),
            h,
        ) != 0,
    ensures
        placed_service(
            distribute_spec(slots, ns, hosts, sources, samples),
            h,
            role_name_spec(slots[i].0, slots[i].1),
            slots[i].2,
        ) is Some,
        (forall|j: int|
            i < j < slots.len() ==> !(role_name_spec(slots[j].0, slots[j].1) == role_name_spec(slots[i].0, slots[i].1)
                && slots[j].2 == slots[i].2)) ==> placed_service(
            distribute_spec(slots, ns, hosts, sources, samples),
            h,
            role_name_spec(slots[i].0, slots[i].1),
            slots[i].2,
        ) == Some(
            (
                image_text(slots[i].3.source@, image_of(sources, slots[i].3)->0),
                slots[i].3.config@,
                adjusted(
                    (total_of(ns, slots[i].0, slots[i].1, slots[i].2), servers_of(ns, slots[i].0, slots[i].1, slots[i].2)),
                    slots[i].3.instances,
                    hosts,
                    samples[i],
                )[h],
            ),
        ),
    decreases slots.len(),
{
    let last = slots.len() - 1;
    let t = slots.drop_last();
    let before = distribute_spec(t, ns, hosts, sources, samples);
    let (p, g, s, svc) = slots[last];
    let run = (total_of(ns, p, g, s), servers_of(ns, p, g, s));
    let counts = adjusted(run, svc.instances, hosts, samples[last]);
    let rn = role_name_spec(slots[i].0, slots[i].1);
    if svc.instances > 0 && image_of(sources, svc) is Some {
        lemma_place_hosts_places(
            before,
            hosts,
            counts,
            role_name_spec(p, g),
            svc.version@,
            s,
            image_text(svc.source@, image_of(sources, svc)->0),
            svc.config@,
        );
    }
    if i < last {
        assert(t[i] == slots[i]);
        lemma_distribute_places(t, ns, hosts, sources, samples, i, h);
        assert(placed_service(distribute_spec(slots, ns, hosts, sources, samples), h, rn, slots[i].2) is Some);
        if forall|j: int|
            i < j < slots.len() ==> !(role_name_spec(slots[j].0, slots[j].1) == rn && slots[j].2 == slots[i].2) {
            assert(!(role_name_spec(slots[last].0, slots[last].1) == rn && slots[last].2 == slots[i].2));
            assert forall|j: int|
                i < j < t.len() implies !(role_name_spec(t[j].0, t[j].1) == rn && t[j].2 == t[i].2) by {
                assert(t[j] == slots[j]);
            }
        }
    }
}

} // verus!
