//! Sources: where images come from, the keys that sign them, and the
//! deployments of their versions.
use vstd::prelude::*;
use crate::strmap::{StrMap, reversed};
use crate::lwwset::{LwwMap, Mergeable, Item, merged_view, max_stamp, lemma_merge_keys};
use crate::scheduler::graph::{Okay, MutationError};
use crate::scheduler::schedule::Schedule;

verus! {

/// A source of images.
#[derive(Debug)]
pub struct Source {
    pub timestamp: u64,
    pub keys: LwwMap<KeyMeta>,
    pub deployments: StrMap<Deployment>,
    pub images: StrMap<Container>,
}

/// What is known of a public key of a source.
#[derive(Debug)]
pub struct KeyMeta {
    pub timestamp: u64,
    pub comment: String,
}

/// An image: the daemons and commands it can run, by name.
#[derive(Debug)]
pub struct Container {
    pub daemons: StrMap<Daemon>,
    pub commands: StrMap<Command>,
}

#[derive(Debug)]
pub struct Daemon {
    pub config: String,
}

#[derive(Debug)]
pub struct Command {
    pub config: String,
}

/// A daemon in a new deployment.
#[derive(Debug)]
pub struct NewDaemon {
    pub name: String,
    pub config: String,
    pub image: String,
    pub variables: Option<Vec<NewVariable>>,
}

/// A deployed version: the images it consists of.
#[derive(Debug)]
pub struct Deployment {
    pub timestamp: u64,
    pub branch: Option<String>,
    pub containers: StrMap<()>,
}

/// The type of a process variable.
#[derive(Debug)]
pub enum VariableType {
    TcpPort,
}

/// A process variable.
#[derive(Debug)]
pub struct NewVariable {
    pub name: String,
    pub kind: VariableType,
}

/// A command in a new deployment.
#[derive(Debug)]
pub struct NewCommand {
    pub name: String,
    pub config: String,
    pub image: String,
}

/// A new deployment, as a client describes it.
#[derive(Debug)]
pub struct NewDeployment {
    pub version: String,
    pub branch: Option<String>,
    pub daemons: Vec<NewDaemon>,
    pub commands: Vec<NewCommand>,
}

/// A public key of a source.
#[derive(Debug)]
pub struct Key {
    pub key: String,
    pub comment: String,
}

impl Mergeable for Source {
    open spec fn stamp(&self) -> u64 {
        self.timestamp
    }

    /// The later timestamp stays, the keys are merged, and the deployments
    /// and images of the replica are added, replacing those of a same name.
    open spec fn merges_into(&self, other: &Self, result: &Self) -> bool {
        &&& result.timestamp == max_stamp(self.timestamp, other.timestamp)
        &&& merged_view(self.keys@, other.keys@, result.keys@)
        &&& result.deployments@ == self.deployments@.union_prefer_right(other.deployments@)
        &&& result.images@ == self.images@.union_prefer_right(other.images@)
    }

    fn timestamp(&self) -> (t: u64) {
        self.timestamp
    }

    fn merge(&mut self, other: Source) {
        let Source { timestamp, keys, deployments, images } = other;
        if timestamp > self.timestamp {
            self.timestamp = timestamp;
        }
        self.keys.merge(keys);
        self.deployments.extend(deployments);
        self.images.extend(images);
    }
}

impl Mergeable for KeyMeta {
    open spec fn stamp(&self) -> u64 {
        self.timestamp
    }

    /// The newer replica replaces the key; on a tie the key stays.
    open spec fn merges_into(&self, other: &Self, result: &Self) -> bool {
        if other.timestamp > self.timestamp {
            *result == *other
        } else {
            *result == *self
        }
    }

    fn timestamp(&self) -> (t: u64) {
        self.timestamp
    }

    fn merge(&mut self, other: KeyMeta) {
        if other.timestamp > self.timestamp {
            *self = other;
        }
    }
}

/// Merging two replicas of a source keeps the later timestamp, every key of
/// either replica (but unreadable data of the incoming one), and every
/// deployment and image of either; of a deployment or image that both hold,
/// the incoming replica's stays.
pub proof fn lemma_source_merge(a: Source, b: Source, r: Source)
    requires
        a.merges_into(&b, &r),
    ensures
        r.timestamp == max_stamp(a.timestamp, b.timestamp),
        forall|k: Seq<char>|
            #[trigger] r.keys@.contains_key(k) <==> a.keys@.contains_key(k) || (b.keys@.contains_key(k)
                && !(b.keys@[k] is BadData)),
        forall|v: Seq<char>|
            #[trigger] r.deployments@.contains_key(v) <==> a.deployments@.contains_key(v)
                || b.deployments@.contains_key(v),
        forall|v: Seq<char>| #[trigger] b.deployments@.contains_key(v) ==> r.deployments@[v] == b.deployments@[v],
        forall|v: Seq<char>|
            a.deployments@.contains_key(v) && !b.deployments@.contains_key(v) ==> #[trigger] r.deployments@[v]
                == a.deployments@[v],
        forall|c: Seq<char>|
            #[trigger] r.images@.contains_key(c) <==> a.images@.contains_key(c) || b.images@.contains_key(c),
        forall|c: Seq<char>| #[trigger] b.images@.contains_key(c) ==> r.images@[c] == b.images@[c],
        forall|c: Seq<char>|
            a.images@.contains_key(c) && !b.images@.contains_key(c) ==> #[trigger] r.images@[c] == a.images@[c],
{
    lemma_merge_keys(a.keys@, b.keys@, r.keys@);
}

/// The key entries that `create_source` makes of `keys` at `now`: a key
/// named twice keeps its last comment.
pub open spec fn keys_made(keys: Seq<Key>, now: u64, m: vstd::map::Map<Seq<char>, Item<KeyMeta>>) -> bool {
    &&& forall|k: Seq<char>|
        #[trigger] m.contains_key(k) <==> exists|i: int| 0 <= i < keys.len() && keys[i].key@ == k
    &&& forall|i: int|
        0 <= i < keys.len() && (forall|j: int| i < j < keys.len() ==> keys[j].key@ != keys[i].key@)
            ==> m[(#[trigger] keys[i]).key@] == Item::Value(
            KeyMeta { timestamp: now, comment: keys[i].comment },
        )
}

/// Creates source `slug` at time `now` with the given keys, replacing any
/// source of that slug.
pub fn create_source(schedule: &mut Schedule, slug: String, keys: Vec<Key>, now: u64) -> (r: Result<
    Okay,
    MutationError,
>)
    ensures
        r matches Ok(o) && o.ok,
        final(schedule).projects == old(schedule).projects,
        final(schedule).nodes == old(schedule).nodes,
        final(schedule).sources@.remove(slug@) == old(schedule).sources@.remove(slug@),
        final(schedule).sources@.contains_key(slug@),
        final(schedule).sources@[slug@] is Value,
        final(schedule).sources@[slug@]->Value_0.timestamp == now,
        keys_made(keys@, now, final(schedule).sources@[slug@]->Value_0.keys@),
        final(schedule).sources@[slug@]->Value_0.deployments@ == vstd::map::Map::<Seq<char>, Deployment>::empty(),
        final(schedule).sources@[slug@]->Value_0.images@ == vstd::map::Map::<Seq<char>, Container>::empty(),
{
    let ghost ks = keys@;
    let mut rest = reversed(keys);
    let mut pairs: Vec<(String, KeyMeta)> = Vec::new();
    while rest.len() > 0
        invariant
            rest@.len() + pairs@.len() == ks.len(),
            forall|j: int| 0 <= j < rest@.len() ==> #[trigger] rest@[j] == ks[ks.len() - 1 - j],
            forall|j: int|
                0 <= j < pairs@.len() ==> #[trigger] pairs@[j] == (
                    ks[j].key,
                    KeyMeta { timestamp: now, comment: ks[j].comment },
                ),
        decreases rest@.len(),
    {
        let Key { key, comment } = rest.pop().unwrap();
        pairs.push((key, KeyMeta { timestamp: now, comment }));
    }
    let ghost ps = pairs@;
    let km = LwwMap::from_iter(pairs);
    proof {
        assert forall|k: Seq<char>| #[trigger] km@.contains_key(k) <==> exists|i: int| 0 <= i < ks.len() && ks[i].key@ == k by {
            if km@.contains_key(k) {
                let i = choose|i: int| 0 <= i < ps.len() && ps[i].0@ == k;
                assert(ks[i].key@ == k);
            }
            if exists|i: int| 0 <= i < ks.len() && ks[i].key@ == k {
                let i = choose|i: int| 0 <= i < ks.len() && ks[i].key@ == k;
                assert(ps[i].0@ == k);
            }
        }
        assert forall|i: int| 0 <= i < ks.len() && (forall|j: int| i < j < ks.len() ==> ks[j].key@ != ks[i].key@)
            implies km@[(#[trigger] ks[i]).key@] == Item::Value(KeyMeta { timestamp: now, comment: ks[i].comment }) by {
            assert(ps[i] == (ks[i].key, KeyMeta { timestamp: now, comment: ks[i].comment }));
            assert forall|j: int| i < j < ps.len() implies ps[j].0@ != ps[i].0@ by {
                assert(ps[j].0 == ks[j].key);
            }
        }
    }
    let key = slug.clone();
    schedule.sources.insert(
        key,
        Source { timestamp: now, keys: km, deployments: StrMap::new(), images: StrMap::new() },
    );
    proof {
        assert(final(schedule).sources@.remove(slug@) =~= old(schedule).sources@.remove(slug@));
    }
    Ok(Okay { ok: true })
}

/// The commands of image `image` once the commands `cmds` are added in
/// order to `m`.
pub open spec fn commands_for(
    m: vstd::map::Map<Seq<char>, Command>,
    cmds: Seq<NewCommand>,
    image: Seq<char>,
) -> vstd::map::Map<Seq<char>, Command>
    decreases cmds.len(),
{
    if cmds.len() == 0 {
        m
    } else {
        let before = commands_for(m, cmds.drop_last(), image);
        let c = cmds.last();
        if c.image@ == image {
            before.insert(c.name@, Command { config: c.config })
        } else {
            before
        }
    }
}

/// The daemons of image `image` once the daemons `ds` are added in order
/// to `m`.
pub open spec fn daemons_for(
    m: vstd::map::Map<Seq<char>, Daemon>,
    ds: Seq<NewDaemon>,
    image: Seq<char>,
) -> vstd::map::Map<Seq<char>, Daemon>
    decreases ds.len(),
{
    if ds.len() == 0 {
        m
    } else {
        let before = daemons_for(m, ds.drop_last(), image);
        let d = ds.last();
        if d.image@ == image {
            before.insert(d.name@, Daemon { config: d.config })
        } else {
            before
        }
    }
}

/// Whether some command of `cmds` uses image `image`.
pub open spec fn commands_use(cmds: Seq<NewCommand>, image: Seq<char>) -> bool {
    exists|i: int| 0 <= i < cmds.len() && (#[trigger] cmds[i]).image@ == image
}

/// Whether some daemon of `ds` uses image `image`.
pub open spec fn daemons_use(ds: Seq<NewDaemon>, image: Seq<char>) -> bool {
    exists|i: int| 0 <= i < ds.len() && (#[trigger] ds[i]).image@ == image
}

/// The commands an image had before, none for a new image.
pub open spec fn commands_before(old: vstd::map::Map<Seq<char>, Container>, image: Seq<char>) -> vstd::map::Map<Seq<char>, Command> {
    if old.contains_key(image) {
        old[image].commands@
    } else {
        vstd::map::Map::empty()
    }
}

/// The daemons an image had before, none for a new image.
pub open spec fn daemons_before(old: vstd::map::Map<Seq<char>, Container>, image: Seq<char>) -> vstd::map::Map<Seq<char>, Daemon> {
    if old.contains_key(image) {
        old[image].daemons@
    } else {
        vstd::map::Map::empty()
    }
}

/// `new` is the image table `old` once the commands `cmds` and then the
/// daemons `ds` are added to the images they name.
pub open spec fn images_added(
    old: vstd::map::Map<Seq<char>, Container>,
    cmds: Seq<NewCommand>,
    ds: Seq<NewDaemon>,
    new: vstd::map::Map<Seq<char>, Container>,
) -> bool {
    &&& forall|i: Seq<char>|
        #[trigger] new.contains_key(i) <==> old.contains_key(i) || commands_use(cmds, i) || daemons_use(ds, i)
    &&& forall|i: Seq<char>|
        #[trigger] new.contains_key(i) ==> new[i].commands@ == commands_for(commands_before(old, i), cmds, i)
            && new[i].daemons@ == daemons_for(daemons_before(old, i), ds, i)
}

/// `new` is source `old` once the deployment `config` is added at `now`.
pub open spec fn deployment_added(old: Source, config: NewDeployment, now: u64, new: Source) -> bool {
    &&& new.timestamp == old.timestamp
    &&& new.keys == old.keys
    &&& new.deployments@.remove(config.version@) == old.deployments@.remove(config.version@)
    &&& new.deployments@.contains_key(config.version@)
    &&& new.deployments@[config.version@].timestamp == now
    &&& new.deployments@[config.version@].branch == config.branch
    &&& forall|i: Seq<char>|
        #[trigger] new.deployments@[config.version@].containers@.contains_key(i) <==> commands_use(config.commands@, i)
            || daemons_use(config.daemons@, i)
    &&& images_added(old.images@, config.commands@, config.daemons@, new.images@)
}

/// The images that the commands and daemons of a deployment use.
fn deployment_images(cmds: &Vec<NewCommand>, ds: &Vec<NewDaemon>) -> (r: StrMap<()>)
    ensures
        forall|i: Seq<char>| #[trigger] r@.contains_key(i) <==> commands_use(cmds@, i) || daemons_use(ds@, i),
{
    let mut r: StrMap<()> = StrMap::new();
    let mut j: usize = 0;
    while j < cmds.len()
        invariant
            j <= cmds@.len(),
            forall|i: Seq<char>| #[trigger] r@.contains_key(i) <==> exists|k: int| 0 <= k < j && cmds@[k].image@ == i,
        decreases cmds@.len() - j,
    {
        let image = cmds[j].image.clone();
        r.insert(image, ());
        proof {
            assert forall|i: Seq<char>| #[trigger] r@.contains_key(i) implies exists|k: int| 0 <= k < j + 1 && cmds@[k].image@ == i by {
                if i == cmds@[j as int].image@ {
                    assert(cmds@[j as int].image@ == i);
                }
            }
        }
        j = j + 1;
    }
    let mut j: usize = 0;
    while j < ds.len()
        invariant
            j <= ds@.len(),
            forall|i: Seq<char>| #[trigger] r@.contains_key(i) <==> commands_use(cmds@, i) || exists|k: int| 0 <= k < j && ds@[k].image@ == i,
        decreases ds@.len() - j,
    {
        let image = ds[j].image.clone();
        r.insert(image, ());
        proof {
            assert forall|i: Seq<char>| #[trigger] r@.contains_key(i) implies commands_use(cmds@, i) || exists|k: int| 0 <= k < j + 1 && ds@[k].image@ == i by {
                if i == ds@[j as int].image@ {
                    assert(ds@[j as int].image@ == i);
                }
            }
        }
        j = j + 1;
    }
    r
}

/// Adds the commands `cmds`, in order, to the images they name.
fn add_commands(images: &mut StrMap<Container>, cmds: Vec<NewCommand>)
    ensures
        forall|i: Seq<char>|
            #[trigger] final(images)@.contains_key(i) <==> old(images)@.contains_key(i) || commands_use(cmds@, i),
        forall|i: Seq<char>|
            #[trigger] final(images)@.contains_key(i) ==> final(images)@[i].commands@ == commands_for(
                commands_before(old(images)@, i),
                cmds@,
                i,
            ) && final(images)@[i].daemons@ == daemons_before(old(images)@, i),
{
    let ghost cs = cmds@;
    let ghost im0 = images@;
    let n = cmds.len();
    let mut rest = reversed(cmds);
    let mut done: usize = 0;
    while rest.len() > 0
        invariant
            n == cs.len(),
            rest@.len() + done == cs.len(),
            forall|j: int| 0 <= j < rest@.len() ==> #[trigger] rest@[j] == cs[cs.len() - 1 - j],
            forall|i: Seq<char>|
                #[trigger] images@.contains_key(i) <==> im0.contains_key(i) || commands_use(cs.take(done as int), i),
            forall|i: Seq<char>|
                #[trigger] images@.contains_key(i) ==> images@[i].commands@ == commands_for(
                    commands_before(im0, i),
                    cs.take(done as int),
                    i,
                ) && images@[i].daemons@ == daemons_before(im0, i),
        decreases rest@.len(),
    {
        let ghost before = images@;
        let NewCommand { name, config, image } = rest.pop().unwrap();
        let ghost c = cs[done as int];
        proof {
            assert(c == NewCommand { name, config, image });
            assert(cs.take(done + 1).drop_last() =~= cs.take(done as int));
            assert(cs.take(done + 1).last() == c);
        }
        let ghost image_v = image@;
        let mut cont = match images.remove(image.as_str()) {
            Some(c) => c,
            None => Container { daemons: StrMap::new(), commands: StrMap::new() },
        };
        cont.commands.insert(name, Command { config });
        images.insert(image, cont);
        proof {
            let t = cs.take(done + 1);
            assert forall|i: Seq<char>| #[trigger] images@.contains_key(i) <==> im0.contains_key(i) || commands_use(t, i) by {
                if i == image_v {
                    assert(t[done as int].image@ == i);
                } else {
                    if commands_use(t, i) {
                        let k = choose|k: int| 0 <= k < t.len() && (#[trigger] t[k]).image@ == i;
                        assert(cs.take(done as int)[k] == t[k]);
                    }
                    if commands_use(cs.take(done as int), i) {
                        let k = choose|k: int| 0 <= k < done && (#[trigger] cs.take(done as int)[k]).image@ == i;
                        assert(t[k] == cs.take(done as int)[k]);
                    }
                }
            }
            assert forall|i: Seq<char>| #[trigger] images@.contains_key(i) implies images@[i].commands@ == commands_for(
                commands_before(im0, i),
                t,
                i,
            ) && images@[i].daemons@ == daemons_before(im0, i) by {
                if i == image_v {
                    if !before.contains_key(i) {
                        if im0.contains_key(i) {
                            assert(before.contains_key(i));
                        }
                        if commands_use(cs.take(done as int), i) {
                            assert(before.contains_key(i));
                        }
                        assert(commands_for(commands_before(im0, i), cs.take(done as int), i) == commands_before(im0, i)) by {
                            lemma_commands_for_unused(commands_before(im0, i), cs.take(done as int), i);
                        }
                        assert(commands_before(im0, i) =~= vstd::map::Map::<Seq<char>, Command>::empty());
                        assert(daemons_before(im0, i) =~= vstd::map::Map::<Seq<char>, Daemon>::empty());
                    }
                } else {
                    assert(before.contains_key(i));
                }
            }
        }
        done = done + 1;
    }
    proof {
        assert(cs.take(cs.len() as int) =~= cs);
    }
}

/// Adds the daemons `ds`, in order, to the images they name.
fn add_daemons(images: &mut StrMap<Container>, ds: Vec<NewDaemon>)
    ensures
        forall|i: Seq<char>|
            #[trigger] final(images)@.contains_key(i) <==> old(images)@.contains_key(i) || daemons_use(ds@, i),
        forall|i: Seq<char>|
            #[trigger] final(images)@.contains_key(i) ==> final(images)@[i].daemons@ == daemons_for(
                daemons_before(old(images)@, i),
                ds@,
                i,
            ) && final(images)@[i].commands@ == commands_before(old(images)@, i),
{
    let ghost cs = ds@;
    let ghost im0 = images@;
    let n = ds.len();
    let mut rest = reversed(ds);
    let mut done: usize = 0;
    while rest.len() > 0
        invariant
            n == cs.len(),
            rest@.len() + done == cs.len(),
            forall|j: int| 0 <= j < rest@.len() ==> #[trigger] rest@[j] == cs[cs.len() - 1 - j],
            forall|i: Seq<char>|
                #[trigger] images@.contains_key(i) <==> im0.contains_key(i) || daemons_use(cs.take(done as int), i),
            forall|i: Seq<char>|
                #[trigger] images@.contains_key(i) ==> images@[i].daemons@ == daemons_for(
                    daemons_before(im0, i),
                    cs.take(done as int),
                    i,
                ) && images@[i].commands@ == commands_before(im0, i),
        decreases rest@.len(),
    {
        let ghost before = images@;
        let NewDaemon { name, config, image, variables } = rest.pop().unwrap();
        let ghost c = cs[done as int];
        proof {
            assert(c == NewDaemon { name, config, image, variables });
            assert(cs.take(done + 1).drop_last() =~= cs.take(done as int));
            assert(cs.take(done + 1).last() == c);
        }
        let ghost image_v = image@;
        let mut cont = match images.remove(image.as_str()) {
            Some(c) => c,
            None => Container { daemons: StrMap::new(), commands: StrMap::new() },
        };
        cont.daemons.insert(name, Daemon { config });
        images.insert(image, cont);
        proof {
            let t = cs.take(done + 1);
            assert forall|i: Seq<char>| #[trigger] images@.contains_key(i) <==> im0.contains_key(i) || daemons_use(t, i) by {
                if i == image_v {
                    assert(t[done as int].image@ == i);
                } else {
                    if daemons_use(t, i) {
                        let k = choose|k: int| 0 <= k < t.len() && (#[trigger] t[k]).image@ == i;
                        assert(cs.take(done as int)[k] == t[k]);
                    }
                    if daemons_use(cs.take(done as int), i) {
                        let k = choose|k: int| 0 <= k < done && (#[trigger] cs.take(done as int)[k]).image@ == i;
                        assert(t[k] == cs.take(done as int)[k]);
                    }
                }
            }
            assert forall|i: Seq<char>| #[trigger] images@.contains_key(i) implies images@[i].daemons@ == daemons_for(
                daemons_before(im0, i),
                t,
                i,
            ) && images@[i].commands@ == commands_before(im0, i) by {
                if i == image_v {
                    if !before.contains_key(i) {
                        if im0.contains_key(i) {
                            assert(before.contains_key(i));
                        }
                        if daemons_use(cs.take(done as int), i) {
                            assert(before.contains_key(i));
                        }
                        assert(daemons_for(daemons_before(im0, i), cs.take(done as int), i) == daemons_before(im0, i)) by {
                            lemma_daemons_for_unused(daemons_before(im0, i), cs.take(done as int), i);
                        }
                        assert(commands_before(im0, i) =~= vstd::map::Map::<Seq<char>, Command>::empty());
                        assert(daemons_before(im0, i) =~= vstd::map::Map::<Seq<char>, Daemon>::empty());
                    }
                } else {
                    assert(before.contains_key(i));
                }
            }
        }
        done = done + 1;
    }
    proof {
        assert(cs.take(cs.len() as int) =~= cs);
    }
}

proof fn lemma_commands_for_unused(m: vstd::map::Map<Seq<char>, Command>, cmds: Seq<NewCommand>, image: Seq<char>)
    requires
        !commands_use(cmds, image),
    ensures
        commands_for(m, cmds, image) == m,
    decreases cmds.len(),
{
    if cmds.len() > 0 {
        if commands_use(cmds.drop_last(), image) {
            let k = choose|k: int| 0 <= k < cmds.len() - 1 && (#[trigger] cmds.drop_last()[k]).image@ == image;
            assert(cmds[k] == cmds.drop_last()[k]);
        }
        lemma_commands_for_unused(m, cmds.drop_last(), image);
        assert(cmds.last() == cmds[cmds.len() - 1]);
    }
}

proof fn lemma_daemons_for_unused(m: vstd::map::Map<Seq<char>, Daemon>, ds: Seq<NewDaemon>, image: Seq<char>)
    requires
        !daemons_use(ds, image),
    ensures
        daemons_for(m, ds, image) == m,
    decreases ds.len(),
{
    if ds.len() > 0 {
        if daemons_use(ds.drop_last(), image) {
            let k = choose|k: int| 0 <= k < ds.len() - 1 && (#[trigger] ds.drop_last()[k]).image@ == image;
            assert(ds[k] == ds.drop_last()[k]);
        }
        lemma_daemons_for_unused(m, ds.drop_last(), image);
        assert(ds.last() == ds[ds.len() - 1]);
    }
}

/// Adds a deployment of version `config.version` to source `slug` at time
/// `now`, replacing any deployment of that version, and records the daemons
/// and commands of the deployment under the images that run them; refused
/// when the source does not hold a value.
pub fn add_deployment(schedule: &mut Schedule, slug: String, config: NewDeployment, now: u64) -> (r:
    Result<Okay, MutationError>)
    ensures
        match old(schedule).sources@.get(slug@) {
            Some(Item::Value(src)) => {
                &&& r matches Ok(o) && o.ok
                &&& final(schedule).projects == old(schedule).projects
                &&& final(schedule).nodes == old(schedule).nodes
                &&& final(schedule).sources@.remove(slug@) == old(schedule).sources@.remove(slug@)
                &&& final(schedule).sources@.contains_key(slug@)
                &&& final(schedule).sources@[slug@] is Value
                &&& deployment_added(src, config, now, final(schedule).sources@[slug@]->Value_0)
            },
            _ => r == Err::<Okay, MutationError>(MutationError::NoSource(slug)) && *final(schedule)
                == *old(schedule),
        },
{
    let mut source = match schedule.sources.take(slug.as_str()) {
        Some(s) => s,
        None => {
            return Err(MutationError::NoSource(slug));
        },
    };
    let ghost src0 = source;
    let ghost cfg = config;
    let containers = deployment_images(&config.commands, &config.daemons);
    let NewDeployment { version, branch, daemons, commands } = config;
    let ghost version_v = version@;
    source.deployments.insert(version, Deployment { timestamp: now, branch, containers });
    let ghost im0 = source.images@;
    add_commands(&mut source.images, commands);
    let ghost im1 = source.images@;
    add_daemons(&mut source.images, daemons);
    proof {
        assert(source.deployments@.remove(version_v) =~= src0.deployments@.remove(version_v));
        let im2 = source.images@;
        assert forall|i: Seq<char>| #[trigger] im2.contains_key(i) implies im2[i].commands@ == commands_for(
            commands_before(im0, i),
            cfg.commands@,
            i,
        ) && im2[i].daemons@ == daemons_for(daemons_before(im0, i), cfg.daemons@, i) by {
            if !im1.contains_key(i) {
                lemma_commands_for_unused(commands_before(im0, i), cfg.commands@, i);
                assert(commands_before(im1, i) =~= commands_before(im0, i));
                assert(daemons_before(im1, i) =~= daemons_before(im0, i));
            }
        }
        assert(images_added(im0, cfg.commands@, cfg.daemons@, im2));
    }
    schedule.sources.insert(slug, source);
    proof {
        assert(final(schedule).sources@.remove(slug@) =~= old(schedule).sources@.remove(slug@));
    }
    Ok(Okay { ok: true })
}

} // verus!
