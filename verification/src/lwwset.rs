//! A last-writer-wins map: removed keys leave a timestamped tombstone, and
//! merging two replicas keeps, key by key, the newer of what they hold.
//!
//! Timestamps are milliseconds since the Unix epoch.
use vstd::prelude::*;
use crate::strmap::{StrMap, keys_sorted, items_map, lemma_items_map, lemma_sorted_distinct};
use crate::text::text_lt;

verus! {

/// What the map holds under one key.
#[derive(Debug)]
pub enum Item<T> {
    /// The key was removed at `timestamp`.
    Deleted { timestamp: u64, deleted: bool },
    /// The key holds a value.
    Value(T),
    /// The key holds data that could not be read as a value.
    BadData(serde_json::Value),
}

/// A value that carries a timestamp and knows how to absorb a replica of
/// itself.
pub trait Mergeable: Sized {
    /// The timestamp of the value.
    spec fn stamp(&self) -> u64;

    /// Whether merging `other` into `self` may give `result`.
    spec fn merges_into(&self, other: &Self, result: &Self) -> bool;

    fn timestamp(&self) -> (t: u64)
        ensures
            t == self.stamp(),
    ;

    fn merge(&mut self, other: Self)
        ensures
            old(self).merges_into(&other, &*final(self)),
    ;
}

/// The larger of two timestamps.
pub open spec fn max_stamp(a: u64, b: u64) -> u64 {
    if a >= b {
        a
    } else {
        b
    }
}

/// Merging the item `incoming` into a key that holds `current` (`None`:
/// nothing) may leave `result` under that key.
pub open spec fn merge_item<V: Mergeable>(
    current: Option<Item<V>>,
    incoming: Item<V>,
    result: Option<Item<V>>,
) -> bool {
    match incoming {
        Item::Deleted { timestamp, deleted } => match current {
            Some(Item::Deleted { timestamp: old_ts, .. }) => result == Some(
                Item::<V>::Deleted { timestamp: max_stamp(timestamp, old_ts), deleted: true },
            ),
            Some(Item::Value(v)) => if v.stamp() > timestamp {
                result == current
            } else {
                result == Some(incoming)
            },
            _ => result == Some(incoming),
        },
        Item::Value(val) => match current {
            Some(Item::Deleted { timestamp: old_ts, .. }) => if old_ts > val.stamp() {
                result == Some(Item::<V>::Deleted { timestamp: old_ts, deleted: true })
            } else {
                result == current
            },
            Some(Item::Value(old_val)) => result matches Some(Item::Value(n)) && old_val.merges_into(
                &val,
                &n,
            ),
            _ => result == Some(incoming),
        },
        Item::BadData(_) => result == current,
    }
}

/// `r` is what merging the replica `b` into `a` may give, key by key.
pub open spec fn merged_view<V: Mergeable>(
    a: vstd::map::Map<Seq<char>, Item<V>>,
    b: vstd::map::Map<Seq<char>, Item<V>>,
    r: vstd::map::Map<Seq<char>, Item<V>>,
) -> bool {
    &&& forall|k: Seq<char>| #[trigger] b.contains_key(k) ==> merge_item(a.get(k), b[k], r.get(k))
    &&& forall|k: Seq<char>| !b.contains_key(k) ==> #[trigger] r.get(k) == a.get(k)
}

/// The entries of `s` that hold values, in order.
pub open spec fn live_items<V>(s: Seq<(String, Item<V>)>) -> Seq<(String, V)>
    decreases s.len(),
{
    if s.len() == 0 {
        Seq::empty()
    } else {
        let rest = live_items(s.drop_last());
        match s.last().1 {
            Item::Value(v) => rest.push((s.last().0, v)),
            _ => rest,
        }
    }
}

/// The live entries of a sorted sequence are sorted, and are exactly its
/// entries that hold values.
pub proof fn lemma_live_items<V>(s: Seq<(String, Item<V>)>)
    requires
        keys_sorted(s),
    ensures
        keys_sorted(live_items(s)),
        forall|i: int|
            0 <= i < live_items(s).len() ==> exists|j: int|
                0 <= j < s.len() && s[j].0 == (#[trigger] live_items(s)[i]).0 && s[j].1 == Item::Value(
                    live_items(s)[i].1,
                ),
        forall|j: int|
            0 <= j < s.len() && (#[trigger] s[j]).1 is Value ==> exists|i: int|
                0 <= i < live_items(s).len() && live_items(s)[i].0 == s[j].0,
    decreases s.len(),
{
    if s.len() > 0 {
        let t = s.drop_last();
        assert(keys_sorted(t));
        lemma_live_items(t);
        let rest = live_items(t);
        let last = s.last();
        assert forall|i: int| 0 <= i < rest.len() implies text_lt(rest[i].0@, last.0@) by {
            let j = choose|j: int| 0 <= j < t.len() && t[j].0 == rest[i].0 && t[j].1 == Item::Value(rest[i].1);
            assert(s[j] == t[j]);
        }
        let l = live_items(s);
        assert forall|j: int| 0 <= j < s.len() && (#[trigger] s[j]).1 is Value implies exists|i: int|
            0 <= i < l.len() && l[i].0 == s[j].0 by {
            if j < s.len() - 1 {
                assert(t[j] == s[j]);
                let i = choose|i: int| 0 <= i < rest.len() && rest[i].0 == t[j].0;
                assert(l[i] == rest[i]);
            } else {
                assert(l[l.len() - 1].0 == s[j].0);
            }
        }
        assert forall|i: int| 0 <= i < l.len() implies exists|j: int|
            0 <= j < s.len() && s[j].0 == (#[trigger] l[i]).0 && s[j].1 == Item::Value(l[i].1) by {
            if i < rest.len() {
                assert(l[i] == rest[i]);
                let j = choose|j: int| 0 <= j < t.len() && t[j].0 == rest[i].0 && t[j].1 == Item::Value(rest[i].1);
                assert(s[j] == t[j]);
            } else {
                assert(s[s.len() - 1].0 == l[i].0);
            }
        }
    }
}

/// The live entries of a sorted sequence come in strictly increasing key
/// order, each holds the value that the sequence's map holds, and every
/// key of that map that holds a value is among them.
proof fn lemma_live_items_of_map<V>(s: Seq<(String, Item<V>)>)
    requires
        keys_sorted(s),
    ensures
        forall|i: int, j: int|
            0 <= i < j < live_items(s).len() ==> text_lt(
                (#[trigger] live_items(s)[i]).0@,
                (#[trigger] live_items(s)[j]).0@,
            ),
        forall|i: int|
            0 <= i < live_items(s).len() ==> #[trigger] items_map(s).contains_key(live_items(s)[i].0@)
                && items_map(s)[live_items(s)[i].0@] == Item::Value(live_items(s)[i].1),
        forall|k: Seq<char>|
            #[trigger] items_map(s).contains_key(k) && items_map(s)[k] is Value ==> exists|i: int|
                0 <= i < live_items(s).len() && live_items(s)[i].0@ == k,
{
    lemma_live_items(s);
    lemma_items_map(s);
    let l = live_items(s);
    assert forall|i: int| 0 <= i < l.len() implies #[trigger] items_map(s).contains_key(l[i].0@)
        && items_map(s)[l[i].0@] == Item::Value(l[i].1) by {
        let j = choose|j: int| 0 <= j < s.len() && s[j].0 == (#[trigger] l[i]).0 && s[j].1 == Item::Value(l[i].1);
    }
    assert forall|k: Seq<char>| #[trigger] items_map(s).contains_key(k) && items_map(s)[k] is Value implies exists|
        i: int,
    | 0 <= i < l.len() && l[i].0@ == k by {
        let j = choose|j: int| 0 <= j < s.len() && s[j].0@ == k;
        assert(s[j].1 is Value);
        let i = choose|i: int| 0 <= i < l.len() && l[i].0 == s[j].0;
    }
}

/// A last-writer-wins map from text keys to values.
#[derive(Debug)]
pub struct LwwMap<V> {
    items: StrMap<Item<V>>,
}

impl<V: Mergeable> LwwMap<V> {
    /// What the map holds, key by key, tombstones and unreadable data too.
    pub closed spec fn view(&self) -> vstd::map::Map<Seq<char>, Item<V>> {
        self.items@
    }

    /// The entries in key order, tombstones and unreadable data too.
    pub closed spec fn entries(&self) -> Seq<(String, Item<V>)> {
        self.items.items()
    }

    /// The entries are in strictly increasing key order, and describe the map.
    pub fn lemma_entries(&self)
        ensures
            keys_sorted(self.entries()),
            self@ == items_map(self.entries()),
    {
        self.items.lemma_sorted();
    }

    pub fn new() -> (r: Self)
        ensures
            r@ == vstd::map::Map::<Seq<char>, Item<V>>::empty(),
    {
        LwwMap { items: StrMap::new() }
    }

    /// Sets key `k` to the value `v`, whatever it held before.
    pub fn insert(&mut self, k: String, v: V)
        ensures
            final(self)@ == old(self)@.insert(k@, Item::Value(v)),
    {
        self.items.insert(k, Item::Value(v));
    }

    /// Sets key `k` to hold `item`, as read from a replica.
    pub fn insert_item(&mut self, k: String, item: Item<V>)
        ensures
            final(self)@ == old(self)@.insert(k@, item),
    {
        self.items.insert(k, item);
    }

    /// Gives up the map for its entries, in key order, tombstones and
    /// unreadable data too.
    pub fn into_items(self) -> (r: Vec<(String, Item<V>)>)
        ensures
            r@ == self.entries(),
    {
        self.items.into_items()
    }

    /// The value under key `k`, if the key holds one.
    pub fn get(&self, k: &str) -> (r: Option<&V>)
        ensures
            match r {
                Some(v) => self@.contains_key(k@) && self@[k@] == Item::Value(*v),
                None => !(self@.contains_key(k@) && self@[k@] is Value),
            },
    {
        match self.items.get(k) {
            Some(Item::Value(x)) => Some(x),
            _ => None,
        }
    }

    /// Takes the value out of key `k`, leaving the key absent; the caller
    /// puts a value back with `insert`. Together they change a value in
    /// place.
    pub fn take(&mut self, k: &str) -> (r: Option<V>)
        ensures
            match r {
                Some(v) => old(self)@.contains_key(k@) && old(self)@[k@] == Item::Value(v)
                    && final(self)@ == old(self)@.remove(k@),
                None => !(old(self)@.contains_key(k@) && old(self)@[k@] is Value) && *final(self)
                    == *old(self),
            },
    {
        let holds_value = match self.items.get(k) {
            Some(Item::Value(_)) => true,
            _ => false,
        };
        if !holds_value {
            return None;
        }
        match self.items.remove(k) {
            Some(Item::Value(x)) => Some(x),
            _ => unreached(),
        }
    }

    /// Sets the value of key `k` to `v` when the key holds a value, and
    /// gives the old value back; a key that holds no value is left as it is.
    pub fn replace(&mut self, k: &str, v: V) -> (r: Option<V>)
        ensures
            match r {
                Some(x) => old(self)@.contains_key(k@) && old(self)@[k@] == Item::Value(x)
                    && final(self)@ == old(self)@.insert(k@, Item::Value(v)),
                None => !(old(self)@.contains_key(k@) && old(self)@[k@] is Value) && *final(self)
                    == *old(self),
            },
    {
        match self.take(k) {
            Some(x) => {
                self.items.insert(String::from_str(k), Item::Value(v));
                proof {
                    assert(self@ =~= old(self)@.insert(k@, Item::Value(v)));
                }
                Some(x)
            },
            None => None,
        }
    }

    /// Removes key `k` at time `now`: a key that is there is left with a
    /// tombstone stamped `now`; gives back the value it held, if any.
    pub fn remove(&mut self, k: &str, now: u64) -> (r: Option<V>)
        ensures
            old(self)@.contains_key(k@) ==> final(self)@ == old(self)@.insert(
                k@,
                Item::Deleted { timestamp: now, deleted: true },
            ),
            !old(self)@.contains_key(k@) ==> final(self)@ == old(self)@,
            match r {
                Some(v) => old(self)@.contains_key(k@) && old(self)@[k@] == Item::Value(v),
                None => !(old(self)@.contains_key(k@) && old(self)@[k@] is Value),
            },
    {
        match self.items.remove(k) {
            Some(prev) => {
                let key = String::from_str(k);
                self.items.insert(key, Item::Deleted { timestamp: now, deleted: true });
                proof {
                    assert(final(self)@ =~= old(self)@.insert(
                        k@,
                        Item::Deleted { timestamp: now, deleted: true },
                    ));
                }
                match prev {
                    Item::Value(x) => Some(x),
                    _ => None,
                }
            },
            None => None,
        }
    }

    /// Merges the item `item` of a replica into key `key`.
    fn merge_one(&mut self, key: String, item: Item<V>)
        ensures
            merge_item(old(self)@.get(key@), item, final(self)@.get(key@)),
            forall|k: Seq<char>| k != key@ ==> #[trigger] final(self)@.get(k) == old(self)@.get(k),
    {
        match item {
            Item::Deleted { timestamp, deleted } => {
                let val = match self.items.get(key.as_str()) {
                    Some(Item::Deleted { timestamp: old_ts, .. }) => {
                        let ts = if timestamp >= *old_ts {
                            timestamp
                        } else {
                            *old_ts
                        };
                        Some(Item::Deleted { timestamp: ts, deleted: true })
                    },
                    Some(Item::Value(v)) => {
                        if v.timestamp() > timestamp {
                            None
                        } else {
                            Some(Item::Deleted { timestamp, deleted })
                        }
                    },
                    _ => Some(Item::Deleted { timestamp, deleted }),
                };
                match val {
                    Some(e) => {
                        self.items.insert(key, e);
                    },
                    None => {},
                }
            },
            Item::Value(val) => {
                let ghost kv = key@;
                let current = self.items.remove(key.as_str());
                let next = match current {
                    Some(Item::Deleted { timestamp, deleted }) => {
                        if timestamp > val.timestamp() {
                            Item::Deleted { timestamp, deleted: true }
                        } else {
                            Item::Deleted { timestamp, deleted }
                        }
                    },
                    Some(Item::Value(old_val)) => {
                        let mut old_val = old_val;
                        old_val.merge(val);
                        Item::Value(old_val)
                    },
                    _ => Item::Value(val),
                };
                self.items.insert(key, next);
                proof {
                    assert(final(self)@ =~= old(self)@.insert(kv, final(self)@[kv]));
                }
            },
            Item::BadData(_) => {},
        }
    }

    /// Merges a replica into this map, key by key (see `merge_item`); keys
    /// that the replica does not hold keep what they hold.
    pub fn merge(&mut self, other: Self)
        ensures
            merged_view(old(self)@, other@, final(self)@),
    {
        other.lemma_entries();
        let ghost s = other.entries();
        let ghost om = other@;
        proof {
            lemma_items_map(s);
        }
        let LwwMap { items } = other;
        let mut rest = items.into_items();
        while rest.len() > 0
            invariant
                keys_sorted(s),
                om == items_map(s),
                rest@.len() <= s.len(),
                forall|j: int| 0 <= j < rest@.len() ==> #[trigger] rest@[j] == s[j],
                forall|j: int|
                    rest@.len() <= j < s.len() ==> merge_item(
                        old(self)@.get(#[trigger] s[j].0@),
                        s[j].1,
                        self@.get(s[j].0@),
                    ),
                forall|k: Seq<char>|
                    (forall|j: int| rest@.len() <= j < s.len() ==> #[trigger] s[j].0@ != k)
                        ==> #[trigger] self@.get(k) == old(self)@.get(k),
            decreases rest@.len(),
        {
            let ghost c = (rest@.len() - 1) as int;
            let (key, item) = rest.pop().unwrap();
            proof {
                assert((key, item) == s[c]);
                assert(forall|j: int| c < j < s.len() ==> #[trigger] s[j].0@ != key@) by {
                    assert forall|j: int| c < j < s.len() implies #[trigger] s[j].0@ != key@ by {
                        lemma_sorted_distinct(s, c, j);
                    }
                }
                assert(forall|j: int| c < j < s.len() ==> #[trigger] s[j].0@ != key@);
            }
            self.merge_one(key, item);
        }
        proof {
            assert forall|k: Seq<char>| #[trigger] om.contains_key(k) implies merge_item(
                old(self)@.get(k),
                om[k],
                self@.get(k),
            ) by {
                let j = choose|j: int| 0 <= j < s.len() && s[j].0@ == k;
                assert(om[s[j].0@] == s[j].1);
            }
            assert forall|k: Seq<char>| !om.contains_key(k) implies #[trigger] self@.get(k) == old(self)@.get(k) by {
                assert forall|j: int| 0 <= j < s.len() implies #[trigger] s[j].0@ != k by {
                    assert(om.contains_key(s[j].0@));
                }
            }
        }
    }

    /// Whether the map holds no key at all (a tombstone counts).
    pub fn is_empty(&self) -> (r: bool)
        ensures
            r == (self@ == vstd::map::Map::<Seq<char>, Item<V>>::empty()),
    {
        self.items.is_empty()
    }

    /// The keys that hold values, with their values, in key order.
    pub fn iter(&self) -> (r: Vec<(&String, &V)>)
        ensures
            r@.len() == live_items(self.entries()).len(),
            forall|i: int|
                0 <= i < r@.len() ==> *(#[trigger] r@[i]).0 == live_items(self.entries())[i].0
                    && *r@[i].1 == live_items(self.entries())[i].1,
            forall|i: int, j: int| 0 <= i < j < r@.len() ==> text_lt((*r@[i].0)@, (*r@[j].0)@),
            forall|i: int| 0 <= i < r@.len() ==> #[trigger] self@.contains_key((*r@[i].0)@) && self@[(*r@[i].0)@]
                == Item::Value(*r@[i].1),
            forall|k: Seq<char>|
                #[trigger] self@.contains_key(k) && self@[k] is Value ==> exists|i: int|
                    0 <= i < r@.len() && (*r@[i].0)@ == k,
    {
        let n = self.items.len();
        let ghost s = self.entries();
        let mut out: Vec<(&String, &V)> = Vec::new();
        let mut i: usize = 0;
        while i < n
            invariant
                n == s.len(),
                s == self.entries(),
                i <= n,
                out@.len() == live_items(s.take(i as int)).len(),
                forall|j: int|
                    0 <= j < out@.len() ==> *(#[trigger] out@[j]).0 == live_items(s.take(i as int))[j].0
                        && *out@[j].1 == live_items(s.take(i as int))[j].1,
            decreases n - i,
        {
            let (k, item) = self.items.entry_at(i);
            proof {
                assert(s.take(i + 1).drop_last() =~= s.take(i as int));
                assert(s.take(i + 1).last() == s[i as int]);
            }
            match item {
                Item::Value(v) => {
                    out.push((k, v));
                },
                _ => {},
            }
            i = i + 1;
        }
        self.lemma_entries();
        proof {
            assert(s.take(n as int) =~= s);
            lemma_live_items_of_map(s);
            let l = live_items(s);
            assert forall|k: Seq<char>| #[trigger] self@.contains_key(k) && self@[k] is Value implies exists|i: int|
                0 <= i < out@.len() && (*out@[i].0)@ == k by {
                let i = choose|i: int| 0 <= i < l.len() && l[i].0@ == k;
                assert((*out@[i].0)@ == k);
            }
        }
        out
    }

    /// A map that holds the given values; of two pairs with one key, the
    /// later one stays.
    pub fn from_iter(pairs: Vec<(String, V)>) -> (r: Self)
        ensures
            forall|k: Seq<char>|
                #[trigger] r@.contains_key(k) <==> exists|i: int|
                    0 <= i < pairs@.len() && pairs@[i].0@ == k,
            forall|i: int|
                0 <= i < pairs@.len() && (forall|j: int|
                    i < j < pairs@.len() ==> pairs@[j].0@ != pairs@[i].0@) ==> r@[(
                #[trigger] pairs@[i]).0@] == Item::Value(pairs@[i].1),
    {
        let ghost ps = pairs@;
        let mut rest = pairs;
        let mut taken: Vec<(String, V)> = Vec::new();
        // Taken from the back, so that the first pair of a key seen is its last.
        while rest.len() > 0
            invariant
                rest@.len() + taken@.len() == ps.len(),
                forall|j: int| 0 <= j < rest@.len() ==> #[trigger] rest@[j] == ps[j],
                forall|j: int| 0 <= j < taken@.len() ==> #[trigger] taken@[j] == ps[ps.len() - 1 - j],
            decreases rest@.len(),
        {
            let p = rest.pop().unwrap();
            taken.push(p);
        }
        let mut m = LwwMap::new();
        let ghost n = ps.len();
        while taken.len() > 0
            invariant
                n == ps.len(),
                taken@.len() <= n,
                forall|j: int| 0 <= j < taken@.len() ==> #[trigger] taken@[j] == ps[n - 1 - j],
                forall|k: Seq<char>|
                    #[trigger] m@.contains_key(k) <==> exists|i: int|
                        0 <= i < n - taken@.len() && ps[i].0@ == k,
                forall|i: int|
                    0 <= i < n - taken@.len() && (forall|j: int|
                        i < j < n - taken@.len() ==> ps[j].0@ != ps[i].0@) ==> m@[(
                    #[trigger] ps[i]).0@] == Item::Value(ps[i].1),
            decreases taken@.len(),
        {
            let ghost c = n - taken@.len();
            let (k, v) = taken.pop().unwrap();
            proof {
                assert((k, v) == ps[c]);
            }
            m.insert(k, v);
            proof {
                assert forall|q: Seq<char>| #[trigger] m@.contains_key(q) implies exists|i: int|
                    0 <= i < c + 1 && ps[i].0@ == q by {
                    if q == ps[c].0@ {
                        assert(ps[c].0@ == q);
                    }
                }
            }
        }
        m
    }
}

impl<V: Mergeable> Default for LwwMap<V> {
    fn default() -> (r: Self)
        ensures
            r@ == vstd::map::Map::<Seq<char>, Item<V>>::empty(),
    {
        LwwMap::new()
    }
}

/// Reading a key after setting it gives the value set; other keys keep
/// what they hold.
pub proof fn lemma_get_after_insert<V: Mergeable>(m: vstd::map::Map<Seq<char>, Item<V>>, k: Seq<char>, v: V)
    ensures
        m.insert(k, Item::Value(v)).contains_key(k),
        m.insert(k, Item::Value(v))[k] == Item::<V>::Value(v),
        forall|q: Seq<char>| q != k ==> #[trigger] m.insert(k, Item::Value(v)).get(q) == m.get(q),
{
}

/// A removed key holds a tombstone stamped with the time of removal, and
/// no value.
pub proof fn lemma_get_after_remove<V: Mergeable>(m: vstd::map::Map<Seq<char>, Item<V>>, k: Seq<char>, now: u64)
    requires
        m.contains_key(k),
    ensures
        m.insert(k, Item::Deleted { timestamp: now, deleted: true })[k] is Deleted,
        !(m.insert(k, Item::<V>::Deleted { timestamp: now, deleted: true })[k] is Value),
{
}

/// Merging a replica that holds nothing changes nothing.
pub proof fn lemma_merge_empty<V: Mergeable>(
    a: vstd::map::Map<Seq<char>, Item<V>>,
    r: vstd::map::Map<Seq<char>, Item<V>>,
)
    requires
        merged_view(a, vstd::map::Map::empty(), r),
    ensures
        r == a,
{
    assert forall|k: Seq<char>| #[trigger] r.contains_key(k) == a.contains_key(k) by {
        assert(r.get(k) == a.get(k));
    }
    assert forall|k: Seq<char>| #[trigger] r.contains_key(k) implies r[k] == a[k] by {
        assert(r.get(k) == a.get(k));
    }
    assert(r =~= a);
}

/// Merging a replica into an empty map gives the replica without its
/// unreadable data.
pub proof fn lemma_merge_into_empty<V: Mergeable>(
    b: vstd::map::Map<Seq<char>, Item<V>>,
    r: vstd::map::Map<Seq<char>, Item<V>>,
)
    requires
        merged_view(vstd::map::Map::empty(), b, r),
    ensures
        forall|k: Seq<char>| #[trigger] r.contains_key(k) == (b.contains_key(k) && !(b[k] is BadData)),
        forall|k: Seq<char>| #[trigger] r.contains_key(k) ==> r[k] == b[k],
{
    assert forall|k: Seq<char>| #[trigger] r.contains_key(k) == (b.contains_key(k) && !(b[k] is BadData)) by {
        if b.contains_key(k) {
            assert(merge_item(vstd::map::Map::<Seq<char>, Item<V>>::empty().get(k), b[k], r.get(k)));
        } else {
            assert(r.get(k) is None);
        }
    }
    assert forall|k: Seq<char>| #[trigger] r.contains_key(k) implies r[k] == b[k] by {
        assert(merge_item(vstd::map::Map::<Seq<char>, Item<V>>::empty().get(k), b[k], r.get(k)));
    }
}

/// Where both replicas hold a value for a key, the merged map holds the
/// value that merging the two values gives.
pub proof fn lemma_merge_values<V: Mergeable>(
    a: vstd::map::Map<Seq<char>, Item<V>>,
    b: vstd::map::Map<Seq<char>, Item<V>>,
    r: vstd::map::Map<Seq<char>, Item<V>>,
    k: Seq<char>,
)
    requires
        merged_view(a, b, r),
        a.contains_key(k),
        a[k] is Value,
        b.contains_key(k),
        b[k] is Value,
    ensures
        r.contains_key(k),
        r[k] is Value,
        a[k]->Value_0.merges_into(&b[k]->Value_0, &r[k]->Value_0),
{
    assert(merge_item(a.get(k), b[k], r.get(k)));
}

/// A key that only one replica holds keeps what that replica holds, unless
/// it is unreadable data in the incoming replica.
pub proof fn lemma_merge_one_side<V: Mergeable>(
    a: vstd::map::Map<Seq<char>, Item<V>>,
    b: vstd::map::Map<Seq<char>, Item<V>>,
    r: vstd::map::Map<Seq<char>, Item<V>>,
    k: Seq<char>,
)
    requires
        merged_view(a, b, r),
    ensures
        !a.contains_key(k) && b.contains_key(k) && !(b[k] is BadData) ==> r.contains_key(k) && r[k] == b[k],
        a.contains_key(k) && !b.contains_key(k) ==> r.contains_key(k) && r[k] == a[k],
{
    if b.contains_key(k) {
        assert(merge_item(a.get(k), b[k], r.get(k)));
    } else {
        assert(r.get(k) == a.get(k));
    }
}

/// A merge keeps every key, and adds those of the replica that hold
/// readable data.
pub proof fn lemma_merge_keys<V: Mergeable>(
    a: vstd::map::Map<Seq<char>, Item<V>>,
    b: vstd::map::Map<Seq<char>, Item<V>>,
    r: vstd::map::Map<Seq<char>, Item<V>>,
)
    requires
        merged_view(a, b, r),
    ensures
        forall|k: Seq<char>|
            #[trigger] r.contains_key(k) <==> a.contains_key(k) || (b.contains_key(k) && !(b[k] is BadData)),
{
    assert forall|k: Seq<char>|
        #[trigger] r.contains_key(k) <==> a.contains_key(k) || (b.contains_key(k) && !(b[k] is BadData)) by {
        if b.contains_key(k) {
            assert(merge_item(a.get(k), b[k], r.get(k)));
        } else {
            assert(r.get(k) == a.get(k));
        }
    }
}

/// A merge never brings back a removed key: a tombstone stays a tombstone,
/// and its timestamp never goes back.
pub proof fn lemma_merge_keeps_tombstones<V: Mergeable>(
    a: vstd::map::Map<Seq<char>, Item<V>>,
    b: vstd::map::Map<Seq<char>, Item<V>>,
    r: vstd::map::Map<Seq<char>, Item<V>>,
    k: Seq<char>,
)
    requires
        merged_view(a, b, r),
        a.contains_key(k),
        a[k] is Deleted,
    ensures
        r.contains_key(k),
        r[k] is Deleted,
        r[k]->Deleted_timestamp >= a[k]->Deleted_timestamp,
{
    if b.contains_key(k) {
        assert(merge_item(a.get(k), b[k], r.get(k)));
    } else {
        assert(r.get(k) == a.get(k));
    }
}

/// A tombstone no older than a value removes it; an older one leaves it.
pub proof fn lemma_merge_tombstone_over_value<V: Mergeable>(
    a: vstd::map::Map<Seq<char>, Item<V>>,
    b: vstd::map::Map<Seq<char>, Item<V>>,
    r: vstd::map::Map<Seq<char>, Item<V>>,
    k: Seq<char>,
)
    requires
        merged_view(a, b, r),
        a.contains_key(k),
        a[k] is Value,
        b.contains_key(k),
        b[k] is Deleted,
    ensures
        b[k]->Deleted_timestamp >= a[k]->Value_0.stamp() ==> r.contains_key(k) && r[k] == b[k],
        b[k]->Deleted_timestamp < a[k]->Value_0.stamp() ==> r.contains_key(k) && r[k] == a[k],
{
    assert(merge_item(a.get(k), b[k], r.get(k)));
}

/// Two tombstones merge into the later of them, whichever replica holds it.
pub proof fn lemma_merge_tombstones_commute<V: Mergeable>(
    a: vstd::map::Map<Seq<char>, Item<V>>,
    b: vstd::map::Map<Seq<char>, Item<V>>,
    r1: vstd::map::Map<Seq<char>, Item<V>>,
    r2: vstd::map::Map<Seq<char>, Item<V>>,
    k: Seq<char>,
)
    requires
        merged_view(a, b, r1),
        merged_view(b, a, r2),
        a.contains_key(k),
        a[k] is Deleted,
        b.contains_key(k),
        b[k] is Deleted,
    ensures
        r1.contains_key(k),
        r2.contains_key(k),
        r1[k] == r2[k],
        r1[k] == (Item::<V>::Deleted {
            timestamp: max_stamp(a[k]->Deleted_timestamp, b[k]->Deleted_timestamp),
            deleted: true,
        }),
{
    assert(merge_item(a.get(k), b[k], r1.get(k)));
    assert(merge_item(b.get(k), a[k], r2.get(k)));
}

/// Unreadable data in a replica changes nothing under its key.
pub proof fn lemma_merge_ignores_bad_data<V: Mergeable>(
    a: vstd::map::Map<Seq<char>, Item<V>>,
    b: vstd::map::Map<Seq<char>, Item<V>>,
    r: vstd::map::Map<Seq<char>, Item<V>>,
    k: Seq<char>,
)
    requires
        merged_view(a, b, r),
        b.contains_key(k),
        b[k] is BadData,
    ensures
        r.get(k) == a.get(k),
{
    assert(merge_item(a.get(k), b[k], r.get(k)));
}

} // verus!
