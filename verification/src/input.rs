//! What the scheduler is given: the time, the hosts of the cluster, the
//! schedules of its parents and the actions requested of it.
use vstd::prelude::*;
use std::collections::BTreeMap;
use crate::strmap::StrMap;
use crate::text::{key_order, KeyOrder};

verus! {

/// Another host of the cluster, as its peer reports it.
#[derive(Debug)]
pub struct Peer {
    /// The address of the peer, as text, if known.
    pub addr: Option<String>,
    pub name: String,
    pub hostname: String,
    /// When the peer became known (milliseconds since the Unix epoch).
    pub known_since: u64,
    /// When the peer last reported directly (milliseconds since the Unix epoch).
    pub last_report_direct: Option<u64>,
}

/// The input of a scheduler run.
#[derive(Debug)]
pub struct GenericInput<A, S, R> {
    /// The time of the run (milliseconds since the Unix epoch).
    pub now: u64,
    pub current_host: String,
    pub current_id: String,
    pub parents: Vec<S>,
    pub actions: BTreeMap<u64, A>,
    pub runtime: R,
    /// The other hosts of the cluster, by id; the current host is not among them.
    pub peers: StrMap<Peer>,
}

/// An input that knows the time of the run.
pub trait Input {
    fn now(&self) -> u64;
}

impl<A, S, R> Input for GenericInput<A, S, R> {
    fn now(&self) -> (r: u64)
        ensures
            r == self.now,
    {
        self.now
    }
}

impl<A, S, R> GenericInput<A, S, R> {
    /// The hostnames of the cluster: the current host first, then those of
    /// the peers in the order of their ids.
    pub fn hosts(&self) -> (r: Vec<String>)
        ensures
            r@.len() == self.peers.items().len() + 1,
            r@[0]@ == self.current_host@,
            forall|i: int|
                0 <= i < self.peers.items().len() ==> (#[trigger] r@[i + 1])@
                    == self.peers.items()[i].1.hostname@,
    {
        let mut r: Vec<String> = Vec::new();
        r.push(self.current_host.clone());
        let n = self.peers.len();
        let mut i: usize = 0;
        while i < n
            invariant
                n == self.peers.items().len(),
                i <= n,
                r@.len() == i + 1,
                r@[0]@ == self.current_host@,
                forall|j: int|
                    0 <= j < i ==> (#[trigger] r@[j + 1])@ == self.peers.items()[j].1.hostname@,
            decreases n - i,
        {
            let (_, peer) = self.peers.entry_at(i);
            r.push(peer.hostname.clone());
            i = i + 1;
        }
        r
    }
}

/// Whether no two texts of `s` are equal.
pub open spec fn distinct_texts(s: Seq<String>) -> bool {
    forall|i: int, j: int| 0 <= i < s.len() && 0 <= j < s.len() && i != j ==> s[i]@ != s[j]@
}

/// Whether `s` holds the text `t`.
pub open spec fn holds_text(s: Seq<String>, t: Seq<char>) -> bool {
    exists|i: int| 0 <= i < s.len() && (#[trigger] s[i])@ == t
}

/// The set of the given hostnames: each text once, in the order in which
/// it first comes.
pub fn host_set(hosts: Vec<String>) -> (r: Vec<String>)
    ensures
        distinct_texts(r@),
        forall|t: Seq<char>| holds_text(r@, t) <==> holds_text(hosts@, t),
{
    let mut r: Vec<String> = Vec::new();
    let n = hosts.len();
    let mut i: usize = 0;
    while i < n
        invariant
            n == hosts@.len(),
            i <= n,
            distinct_texts(r@),
            forall|t: Seq<char>| holds_text(r@, t) <==> exists|j: int| 0 <= j < i && (#[trigger] hosts@[j])@ == t,
        decreases n - i,
    {
        let mut seen = false;
        let mut j: usize = 0;
        while j < r.len()
            invariant
                i < hosts@.len(),
                j <= r@.len(),
                seen <==> exists|k: int| 0 <= k < j && (#[trigger] r@[k])@ == hosts@[i as int]@,
            decreases r@.len() - j,
        {
            if key_order(r[j].as_str(), hosts[i].as_str()) == KeyOrder::Equal {
                seen = true;
            }
            j = j + 1;
        }
        let ghost r0 = r@;
        if !seen {
            r.push(hosts[i].clone());
        }
        proof {
            let h = hosts@[i as int]@;
            assert forall|t: Seq<char>| holds_text(r@, t) <==> exists|j: int| 0 <= j < i + 1 && (#[trigger] hosts@[j])@ == t by {
                if holds_text(r@, t) {
                    let k = choose|k: int| 0 <= k < r@.len() && (#[trigger] r@[k])@ == t;
                    if k < r0.len() {
                        assert(holds_text(r0, t));
                    }
                }
                if exists|j: int| 0 <= j < i + 1 && (#[trigger] hosts@[j])@ == t {
                    let j = choose|j: int| 0 <= j < i + 1 && (#[trigger] hosts@[j])@ == t;
                    if j < i {
                        assert(holds_text(r0, t));
                        let k = choose|k: int| 0 <= k < r0.len() && (#[trigger] r0[k])@ == t;
                        assert(r@[k] == r0[k]);
                    } else if seen {
                        let k = choose|k: int| 0 <= k < r0.len() && (#[trigger] r0[k])@ == h;
                        assert(r@[k] == r0[k]);
                    } else {
                        assert(r@[r0.len() as int]@ == t);
                    }
                }
            }
        }
        i = i + 1;
    }
    r
}

/// A schedule that replicas merge.
pub trait Schedule: Sized {
    /// Whether this is the schedule that `new` gives.
    spec fn is_fresh(&self) -> bool;

    /// Whether merging `other` into `self` may give `result`.
    spec fn merges_into(&self, other: &Self, result: &Self) -> bool;

    fn new() -> (r: Self)
        ensures
            r.is_fresh(),
    ;

    fn merge(&mut self, other: Self)
        ensures
            old(self).merges_into(&other, &*final(self)),
    ;
}

/// `r` is a fresh schedule with the schedules `parents` merged into it in order.
pub open spec fn merged_from<S: Schedule>(parents: Seq<S>, r: S) -> bool
    decreases parents.len(),
{
    if parents.len() == 0 {
        r.is_fresh()
    } else {
        exists|mid: S| merged_from(parents.drop_last(), mid) && #[trigger] mid.merges_into(&parents.last(), &r)
    }
}

/// A fresh schedule with the parents merged into it, in order.
pub fn from_parents<S: Schedule>(parents: Vec<S>) -> (r: S)
    ensures
        merged_from(parents@, r),
{
    let ghost ps = parents@;
    let mut rest = crate::strmap::reversed(parents);
    let mut s = S::new();
    let n = rest.len();
    let mut done: usize = 0;
    while rest.len() > 0
        invariant
            n == ps.len(),
            rest@.len() + done == n,
            forall|j: int| 0 <= j < rest@.len() ==> #[trigger] rest@[j] == ps[ps.len() - 1 - j],
            merged_from(ps.take(done as int), s),
        decreases rest@.len(),
    {
        let next = rest.pop().unwrap();
        let ghost before = s;
        s.merge(next);
        proof {
            let t = ps.take(done + 1);
            assert(t.drop_last() =~= ps.take(done as int));
            assert(t.last() == next);
            assert(merged_from(t.drop_last(), before) && before.merges_into(&t.last(), &s));
        }
        done = done + 1;
    }
    proof {
        assert(ps.take(n as int) =~= ps);
    }
    s
}

} // verus!
