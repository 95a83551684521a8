//! A map from text keys to values, kept in increasing key order.
//!
//! It stands where the scheduler keeps a `BTreeMap<String, _>` or a
//! `HashMap<String, _>`: the entries are held in a vector whose keys are
//! strictly increasing in `text_lt`, so no key occurs twice and the entries
//! come out in the order of a `BTreeMap`.
use vstd::prelude::*;
use crate::text::{text_lt, lemma_text_lt_irreflexive, lemma_text_lt_transitive, key_order, KeyOrder};

verus! {

/// The keys of `s` are strictly increasing.
pub open spec fn keys_sorted<V>(s: Seq<(String, V)>) -> bool {
    forall|i: int, j: int|
        0 <= i < j < s.len() ==> text_lt(#[trigger] s[i].0@, #[trigger] s[j].0@)
}

/// The map that a sequence of entries describes; a later entry wins.
pub open spec fn items_map<V>(s: Seq<(String, V)>) -> Map<Seq<char>, V>
    decreases s.len(),
{
    if s.len() == 0 {
        Map::empty()
    } else {
        items_map(s.drop_last()).insert(s.last().0@, s.last().1)
    }
}

/// In a sorted sequence, distinct positions hold distinct keys.
pub proof fn lemma_sorted_distinct<V>(s: Seq<(String, V)>, i: int, j: int)
    requires
        keys_sorted(s),
        0 <= i < s.len(),
        0 <= j < s.len(),
        i != j,
    ensures
        s[i].0@ != s[j].0@,
{
    lemma_text_lt_irreflexive(s[i].0@);
}

/// What the map of a sorted sequence holds, position by position.
pub proof fn lemma_items_map<V>(s: Seq<(String, V)>)
    requires
        keys_sorted(s),
    ensures
        items_map(s).dom().finite(),
        forall|i: int|
            0 <= i < s.len() ==> #[trigger] items_map(s).contains_key(s[i].0@) && items_map(
                s,
            )[s[i].0@] == s[i].1,
        forall|k: Seq<char>|
            #[trigger] items_map(s).contains_key(k) ==> exists|i: int|
                0 <= i < s.len() && s[i].0@ == k,
    decreases s.len(),
{
    if s.len() > 0 {
        let t = s.drop_last();
        assert(keys_sorted(t));
        lemma_items_map(t);
        assert forall|i: int| 0 <= i < s.len() implies #[trigger] items_map(s).contains_key(
            s[i].0@,
        ) && items_map(s)[s[i].0@] == s[i].1 by {
            if i < s.len() - 1 {
                lemma_sorted_distinct(s, i, s.len() - 1);
                assert(t[i] == s[i]);
            }
        }
        assert forall|k: Seq<char>| #[trigger] items_map(s).contains_key(k) implies exists|i: int|
            0 <= i < s.len() && s[i].0@ == k by {
            if k != s.last().0@ {
                let i = choose|i: int| 0 <= i < t.len() && t[i].0@ == k;
                assert(s[i] == t[i]);
            } else {
                assert(s[s.len() - 1].0@ == k);
            }
        }
    }
}

/// The keys of the map that a sequence describes are the keys of its
/// entries, whatever their order.
pub proof fn lemma_items_map_keys<V>(s: Seq<(String, V)>)
    ensures
        forall|i: int| 0 <= i < s.len() ==> #[trigger] items_map(s).contains_key(s[i].0@),
        forall|k: Seq<char>|
            #[trigger] items_map(s).contains_key(k) ==> exists|i: int| 0 <= i < s.len() && s[i].0@ == k,
    decreases s.len(),
{
    if s.len() > 0 {
        let t = s.drop_last();
        lemma_items_map_keys(t);
        assert(items_map(s) == items_map(t).insert(s.last().0@, s.last().1));
        assert forall|i: int| 0 <= i < s.len() implies #[trigger] items_map(s).contains_key(s[i].0@) by {
            if i < t.len() {
                assert(t[i] == s[i]);
            }
        }
        assert forall|k: Seq<char>| #[trigger] items_map(s).contains_key(k) implies exists|i: int|
            0 <= i < s.len() && s[i].0@ == k by {
            if k != s.last().0@ {
                let i = choose|i: int| 0 <= i < t.len() && t[i].0@ == k;
                assert(s[i] == t[i]);
            } else {
                assert(s[s.len() - 1].0@ == k);
            }
        }
    }
}

/// The position of the entry with key `k`, in a sorted sequence.
pub proof fn lemma_items_map_index<V>(s: Seq<(String, V)>, k: Seq<char>) -> (i: int)
    requires
        keys_sorted(s),
        items_map(s).contains_key(k),
    ensures
        0 <= i < s.len(),
        s[i].0@ == k,
        items_map(s)[k] == s[i].1,
{
    lemma_items_map(s);
    choose|i: int| 0 <= i < s.len() && s[i].0@ == k
}

/// Two sorted sequences describe the same map when they hold the same
/// keys with the same values.
proof fn lemma_items_map_ext<V>(s: Seq<(String, V)>, m: Map<Seq<char>, V>)
    requires
        keys_sorted(s),
        forall|i: int| 0 <= i < s.len() ==> #[trigger] m.contains_key(s[i].0@) && m[s[i].0@] == s[i].1,
        forall|k: Seq<char>| #[trigger] m.contains_key(k) ==> exists|i: int| 0 <= i < s.len() && s[i].0@ == k,
    ensures
        items_map(s) == m,
{
    lemma_items_map(s);
    assert forall|k: Seq<char>| #[trigger] items_map(s).contains_key(k) implies m.contains_key(k) && items_map(s)[k] == m[k] by {
        let i = lemma_items_map_index(s, k);
    }
    assert forall|k: Seq<char>| #[trigger] m.contains_key(k) implies items_map(s).contains_key(k) by {
        let i = choose|i: int| 0 <= i < s.len() && s[i].0@ == k;
    }
    assert(items_map(s) =~= m);
}

/// The elements of `v` in reverse order.
pub fn reversed<T>(v: Vec<T>) -> (r: Vec<T>)
    ensures
        r@ == v@.reverse(),
{
    let ghost s = v@;
    let mut v = v;
    let mut r: Vec<T> = Vec::new();
    while v.len() > 0
        invariant
            v@.len() + r@.len() == s.len(),
            forall|j: int| 0 <= j < v@.len() ==> #[trigger] v@[j] == s[j],
            forall|j: int| 0 <= j < r@.len() ==> #[trigger] r@[j] == s[s.len() - 1 - j],
        decreases v@.len(),
    {
        let x = v.pop().unwrap();
        r.push(x);
    }
    assert(r@ =~= s.reverse());
    r
}

/// A map from text keys to values, with its entries in increasing key order.
#[derive(Debug)]
pub struct StrMap<V> {
    keys: Vec<String>,
    values: Vec<V>,
}

impl<V> StrMap<V> {
    #[verifier::type_invariant]
    spec fn sorted_inv(self) -> bool {
        &&& self.keys@.len() == self.values@.len()
        &&& keys_sorted(self.items())
    }

    /// The entries, in increasing key order.
    pub closed spec fn items(&self) -> Seq<(String, V)> {
        Seq::new(self.keys@.len(), |i: int| (self.keys@[i], self.values@[i]))
    }

    pub open spec fn view(&self) -> Map<Seq<char>, V> {
        items_map(self.items())
    }

    /// The keys of the entries are strictly increasing.
    pub fn lemma_sorted(&self)
        ensures
            keys_sorted(self.items()),
    {
        proof {
            use_type_invariant(self);
        }
    }

    pub fn new() -> (r: Self)
        ensures
            r.items() == Seq::<(String, V)>::empty(),
            r@ == Map::<Seq<char>, V>::empty(),
    {
        StrMap { keys: Vec::new(), values: Vec::new() }
    }

    pub fn len(&self) -> (r: usize)
        ensures
            r == self.items().len(),
            r == self@.len(),
    {
        proof {
            use_type_invariant(self);
            self.lemma_len();
        }
        self.keys.len()
    }

    proof fn lemma_len(&self)
        requires
            keys_sorted(self.items()),
        ensures
            self@.len() == self.items().len(),
    {
        let s = self.items();
        lemma_items_map(s);
        let keys = Seq::new(s.len(), |i: int| s[i].0@);
        assert forall|i: int, j: int| 0 <= i < j < keys.len() implies keys[i] != keys[j] by {
            lemma_sorted_distinct(s, i, j);
        }
        assert(keys.no_duplicates());
        keys.unique_seq_to_set();
        assert(keys.to_set() =~= self@.dom()) by {
            assert forall|k: Seq<char>| self@.dom().contains(k) implies keys.to_set().contains(k) by {
                let i = choose|i: int| 0 <= i < s.len() && s[i].0@ == k;
                assert(keys[i] == k);
            }
            assert forall|k: Seq<char>| keys.to_set().contains(k) implies self@.dom().contains(k) by {
                let i = choose|i: int| 0 <= i < keys.len() && keys[i] == k;
            }
        }
    }

    pub fn is_empty(&self) -> (r: bool)
        ensures
            r == (self.items().len() == 0),
            r == (self@ == Map::<Seq<char>, V>::empty()),
    {
        proof {
            use_type_invariant(self);
            lemma_items_map(self.items());
            if self.items().len() > 0 {
                assert(self@.contains_key(self.items()[0].0@));
            } else {
                assert(self@ =~= Map::<Seq<char>, V>::empty());
            }
        }
        self.keys.len() == 0
    }

    /// Where key `k` stands: `Ok` with its position, or `Err` with the
    /// position at which it would be inserted.
    fn position(&self, k: &str) -> (r: Result<usize, usize>)
        ensures
            match r {
                Ok(i) => i < self.items().len() && self.items()[i as int].0@ == k@,
                Err(i) => i <= self.items().len() && (forall|j: int|
                    0 <= j < i ==> text_lt(#[trigger] self.items()[j].0@, k@)) && (forall|j: int|
                    i <= j < self.items().len() ==> text_lt(k@, #[trigger] self.items()[j].0@)),
            },
    {
        proof {
            use_type_invariant(self);
        }
        let n = self.keys.len();
        let mut i: usize = 0;
        while i < n
            invariant
                n == self.items().len(),
                keys_sorted(self.items()),
                i <= n,
                forall|j: int| 0 <= j < i ==> text_lt(#[trigger] self.items()[j].0@, k@),
            decreases n - i,
        {
            match key_order(self.keys[i].as_str(), k) {
                KeyOrder::Less => {},
                KeyOrder::Equal => {
                    return Ok(i);
                },
                KeyOrder::Greater => {
                    proof {
                        let s = self.items();
                        assert forall|j: int| i <= j < s.len() implies text_lt(k@, #[trigger] s[j].0@) by {
                            if j > i {
                                lemma_text_lt_transitive(k@, s[i as int].0@, s[j].0@);
                            }
                        }
                    }
                    return Err(i);
                },
            }
            i = i + 1;
        }
        Err(n)
    }

    pub fn contains_key(&self, k: &str) -> (r: bool)
        ensures
            r == self@.contains_key(k@),
    {
        proof {
            use_type_invariant(self);
            lemma_items_map(self.items());
        }
        match self.position(k) {
            Ok(_) => true,
            Err(i) => {
                proof {
                    if self@.contains_key(k@) {
                        let j = choose|j: int| 0 <= j < self.items().len() && self.items()[j].0@ == k@;
                        lemma_text_lt_irreflexive(k@);
                        if j < i {
                            assert(text_lt(self.items()[j].0@, k@));
                        } else {
                            assert(text_lt(k@, self.items()[j].0@));
                        }
                    }
                }
                false
            },
        }
    }

    pub fn get(&self, k: &str) -> (r: Option<&V>)
        ensures
            match r {
                Some(v) => self@.contains_key(k@) && *v == self@[k@],
                None => !self@.contains_key(k@),
            },
    {
        proof {
            use_type_invariant(self);
            lemma_items_map(self.items());
        }
        match self.position(k) {
            Ok(i) => {
                proof {
                    assert(self@.contains_key(self.items()[i as int].0@));
                }
                Some(&self.values[i])
            },
            Err(i) => {
                proof {
                    if self@.contains_key(k@) {
                        let j = choose|j: int| 0 <= j < self.items().len() && self.items()[j].0@ == k@;
                        lemma_text_lt_irreflexive(k@);
                        if j < i {
                            assert(text_lt(self.items()[j].0@, k@));
                        } else {
                            assert(text_lt(k@, self.items()[j].0@));
                        }
                    }
                }
                None
            },
        }
    }

    /// Sets the value of key `k` to `v`; gives back the value it replaces.
    pub fn insert(&mut self, k: String, v: V) -> (r: Option<V>)
        ensures
            final(self)@ == old(self)@.insert(k@, v),
            match r {
                Some(o) => old(self)@.contains_key(k@) && o == old(self)@[k@],
                None => !old(self)@.contains_key(k@),
            },
    {
        proof {
            use_type_invariant(&*self);
            lemma_items_map(self.items());
        }
        let ghost s = self.items();
        match self.position(k.as_str()) {
            Ok(i) => {
                proof {
                    assert(old(self)@.contains_key(s[i as int].0@));
                }
                let mut v = v;
                let mut whole = StrMap::new();
                std::mem::swap(&mut whole, self);
                let StrMap { keys, values } = whole;
                let mut values = values;
                std::mem::swap(&mut values[i], &mut v);
                proof {
                    let t = Seq::new(keys@.len(), |j: int| (keys@[j], values@[j]));
                    assert(t =~= s.update(i as int, (s[i as int].0, t[i as int].1)));
                    assert(keys_sorted(t));
                }
                *self = StrMap { keys, values };
                proof {
                    let t = self.items();
                    assert(t =~= s.update(i as int, (s[i as int].0, t[i as int].1)));
                    assert(keys_sorted(t));
                    let m = old(self)@.insert(k@, t[i as int].1);
                    assert forall|j: int| 0 <= j < t.len() implies #[trigger] m.contains_key(t[j].0@)
                        && m[t[j].0@] == t[j].1 by {
                        if j != i {
                            lemma_sorted_distinct(s, i as int, j);
                            assert(old(self)@.contains_key(s[j].0@));
                        }
                    }
                    assert forall|q: Seq<char>| #[trigger] m.contains_key(q) implies exists|j: int|
                        0 <= j < t.len() && t[j].0@ == q by {
                        if q != k@ {
                            let j = choose|j: int| 0 <= j < s.len() && s[j].0@ == q;
                            assert(t[j].0@ == q);
                        } else {
                            assert(t[i as int].0@ == q);
                        }
                    }
                    lemma_items_map_ext(t, m);
                }
                Some(v)
            },
            Err(i) => {
                proof {
                    if old(self)@.contains_key(k@) {
                        let j = choose|j: int| 0 <= j < s.len() && s[j].0@ == k@;
                        lemma_text_lt_irreflexive(k@);
                        if j < i {
                            assert(text_lt(s[j].0@, k@));
                        } else {
                            assert(text_lt(k@, s[j].0@));
                        }
                    }
                }
                let ghost kv = k@;
                let mut whole = StrMap::new();
                std::mem::swap(&mut whole, self);
                let StrMap { keys, values } = whole;
                let mut keys = keys;
                let mut values = values;
                keys.insert(i, k);
                values.insert(i, v);
                proof {
                    let t = Seq::new(keys@.len(), |j: int| (keys@[j], values@[j]));
                    assert(t =~= s.insert(i as int, t[i as int]));
                    assert forall|a: int, b: int| 0 <= a < b < t.len() implies text_lt(
                        #[trigger] t[a].0@,
                        #[trigger] t[b].0@,
                    ) by {
                        if b < i {
                            assert(t[a] == s[a] && t[b] == s[b]);
                        } else if a > i {
                            assert(t[a] == s[a - 1] && t[b] == s[b - 1]);
                        } else if a == i {
                            assert(t[b] == s[b - 1]);
                        } else if b == i {
                            assert(t[a] == s[a]);
                        } else {
                            assert(t[a] == s[a] && t[b] == s[b - 1]);
                            lemma_text_lt_transitive(s[a].0@, kv, s[b - 1].0@);
                        }
                    }
                }
                *self = StrMap { keys, values };
                proof {
                    let t = self.items();
                    assert(t =~= s.insert(i as int, t[i as int]));
                    assert forall|a: int, b: int| 0 <= a < b < t.len() implies text_lt(
                        #[trigger] t[a].0@,
                        #[trigger] t[b].0@,
                    ) by {
                        if b < i {
                            assert(t[a] == s[a] && t[b] == s[b]);
                        } else if a > i {
                            assert(t[a] == s[a - 1] && t[b] == s[b - 1]);
                        } else if a == i {
                            assert(t[b] == s[b - 1]);
                        } else if b == i {
                            assert(t[a] == s[a]);
                        } else {
                            assert(t[a] == s[a] && t[b] == s[b - 1]);
                            lemma_text_lt_transitive(s[a].0@, kv, s[b - 1].0@);
                        }
                    }
                    let m = old(self)@.insert(kv, v);
                    assert forall|j: int| 0 <= j < t.len() implies #[trigger] m.contains_key(t[j].0@)
                        && m[t[j].0@] == t[j].1 by {
                        if j < i {
                            assert(t[j] == s[j]);
                            assert(old(self)@.contains_key(s[j].0@));
                            lemma_text_lt_irreflexive(kv);
                        } else if j > i {
                            assert(t[j] == s[j - 1]);
                            assert(old(self)@.contains_key(s[j - 1].0@));
                            lemma_text_lt_irreflexive(kv);
                        }
                    }
                    assert forall|q: Seq<char>| #[trigger] m.contains_key(q) implies exists|j: int|
                        0 <= j < t.len() && t[j].0@ == q by {
                        if q != kv {
                            let j = choose|j: int| 0 <= j < s.len() && s[j].0@ == q;
                            if j < i {
                                assert(t[j].0@ == q);
                            } else {
                                assert(t[j + 1].0@ == q);
                            }
                        } else {
                            assert(t[i as int].0@ == q);
                        }
                    }
                    lemma_items_map_ext(t, m);
                }
                None
            },
        }
    }

    /// Removes key `k`; gives back its value.
    pub fn remove(&mut self, k: &str) -> (r: Option<V>)
        ensures
            final(self)@ == old(self)@.remove(k@),
            match r {
                Some(o) => old(self)@.contains_key(k@) && o == old(self)@[k@],
                None => !old(self)@.contains_key(k@),
            },
    {
        proof {
            use_type_invariant(&*self);
            lemma_items_map(self.items());
        }
        let ghost s = self.items();
        match self.position(k) {
            Ok(i) => {
                proof {
                    assert(old(self)@.contains_key(s[i as int].0@));
                }
                let mut whole = StrMap::new();
                std::mem::swap(&mut whole, self);
                let StrMap { keys, values } = whole;
                let mut keys = keys;
                let mut values = values;
                keys.remove(i);
                let e = values.remove(i);
                proof {
                    let t = Seq::new(keys@.len(), |j: int| (keys@[j], values@[j]));
                    assert(t =~= s.remove(i as int));
                    assert forall|a: int, b: int| 0 <= a < b < t.len() implies text_lt(
                        #[trigger] t[a].0@,
                        #[trigger] t[b].0@,
                    ) by {
                        if b < i {
                            assert(t[a] == s[a] && t[b] == s[b]);
                        } else if a >= i {
                            assert(t[a] == s[a + 1] && t[b] == s[b + 1]);
                        } else {
                            assert(t[a] == s[a] && t[b] == s[b + 1]);
                        }
                    }
                }
                *self = StrMap { keys, values };
                proof {
                    let t = self.items();
                    assert(t =~= s.remove(i as int));
                    assert forall|a: int, b: int| 0 <= a < b < t.len() implies text_lt(
                        #[trigger] t[a].0@,
                        #[trigger] t[b].0@,
                    ) by {
                        if b < i {
                            assert(t[a] == s[a] && t[b] == s[b]);
                        } else if a >= i {
                            assert(t[a] == s[a + 1] && t[b] == s[b + 1]);
                        } else {
                            assert(t[a] == s[a] && t[b] == s[b + 1]);
                        }
                    }
                    let m = old(self)@.remove(k@);
                    assert forall|j: int| 0 <= j < t.len() implies #[trigger] m.contains_key(t[j].0@)
                        && m[t[j].0@] == t[j].1 by {
                        if j < i {
                            assert(t[j] == s[j]);
                            lemma_sorted_distinct(s, i as int, j);
                            assert(old(self)@.contains_key(s[j].0@));
                        } else {
                            assert(t[j] == s[j + 1]);
                            lemma_sorted_distinct(s, i as int, j + 1);
                            assert(old(self)@.contains_key(s[j + 1].0@));
                        }
                    }
                    assert forall|q: Seq<char>| #[trigger] m.contains_key(q) implies exists|j: int|
                        0 <= j < t.len() && t[j].0@ == q by {
                        let j = choose|j: int| 0 <= j < s.len() && s[j].0@ == q;
                        if j < i {
                            assert(t[j].0@ == q);
                        } else {
                            assert(t[j - 1].0@ == q);
                        }
                    }
                    lemma_items_map_ext(t, m);
                }
                Some(e)
            },
            Err(i) => {
                proof {
                    if old(self)@.contains_key(k@) {
                        let j = choose|j: int| 0 <= j < s.len() && s[j].0@ == k@;
                        lemma_text_lt_irreflexive(k@);
                        if j < i {
                            assert(text_lt(s[j].0@, k@));
                        } else {
                            assert(text_lt(k@, s[j].0@));
                        }
                    }
                    assert(old(self)@.remove(k@) =~= old(self)@);
                }
                None
            },
        }
    }

    /// Inserts every entry of `other`; where both hold a key, `other` wins.
    pub fn extend(&mut self, other: StrMap<V>)
        ensures
            final(self)@ == old(self)@.union_prefer_right(other@),
    {
        proof {
            use_type_invariant(&other);
            lemma_items_map(other.items());
        }
        let ghost s = other.items();
        let ghost om = other@;
        let mut rest = other.into_items();
        while rest.len() > 0
            invariant
                keys_sorted(s),
                om == items_map(s),
                rest@.len() <= s.len(),
                forall|j: int| 0 <= j < rest@.len() ==> #[trigger] rest@[j] == s[j],
                forall|k: Seq<char>|
                    #[trigger] self@.contains_key(k) <==> old(self)@.contains_key(k) || exists|j: int|
                        rest@.len() <= j < s.len() && s[j].0@ == k,
                forall|j: int| rest@.len() <= j < s.len() ==> self@[#[trigger] s[j].0@] == s[j].1,
                forall|k: Seq<char>|
                    #[trigger] self@.contains_key(k) && (forall|j: int|
                        rest@.len() <= j < s.len() ==> s[j].0@ != k) ==> self@[k] == old(self)@[k],
            decreases rest@.len(),
        {
            let ghost c = (rest@.len() - 1) as int;
            let (k, v) = rest.pop().unwrap();
            proof {
                assert((k, v) == s[c]);
                assert forall|j: int| c < j < s.len() implies #[trigger] s[j].0@ != k@ by {
                    lemma_sorted_distinct(s, c, j);
                }
            }
            self.insert(k, v);
            proof {
                assert forall|q: Seq<char>| #[trigger] self@.contains_key(q) implies old(self)@.contains_key(q)
                    || exists|j: int| c <= j < s.len() && s[j].0@ == q by {
                    if q == s[c].0@ {
                        assert(s[c].0@ == q);
                    }
                }
            }
        }
        proof {
            let r = old(self)@.union_prefer_right(om);
            assert forall|k: Seq<char>| #[trigger] self@.contains_key(k) <==> r.contains_key(k) by {
                if om.contains_key(k) {
                    let j = choose|j: int| 0 <= j < s.len() && s[j].0@ == k;
                }
                if exists|j: int| 0 <= j < s.len() && s[j].0@ == k {
                    let j = choose|j: int| 0 <= j < s.len() && s[j].0@ == k;
                    assert(om.contains_key(s[j].0@));
                }
            }
            assert forall|k: Seq<char>| #[trigger] self@.contains_key(k) implies self@[k] == r[k] by {
                if om.contains_key(k) {
                    let j = choose|j: int| 0 <= j < s.len() && s[j].0@ == k;
                    assert(om[s[j].0@] == s[j].1);
                } else {
                    assert forall|j: int| 0 <= j < s.len() implies s[j].0@ != k by {
                        assert(om.contains_key(s[j].0@));
                    }
                }
            }
            assert(self@ =~= r);
        }
    }

    /// The entry at position `i` of the key order.
    pub fn entry_at(&self, i: usize) -> (r: (&String, &V))
        requires
            i < self.items().len(),
        ensures
            *r.0 == self.items()[i as int].0,
            *r.1 == self.items()[i as int].1,
    {
        proof {
            use_type_invariant(self);
        }
        (&self.keys[i], &self.values[i])
    }

    /// Gives up the map for its entries, in key order.
    pub fn into_items(self) -> (r: Vec<(String, V)>)
        ensures
            r@ == self.items(),
            keys_sorted(r@),
    {
        proof {
            use_type_invariant(&self);
        }
        let ghost s = self.items();
        let StrMap { keys, values } = self;
        let mut keys = keys;
        let mut values = values;
        let mut out: Vec<(String, V)> = Vec::new();
        let mut rk: Vec<String> = Vec::new();
        let mut rv: Vec<V> = Vec::new();
        // Taken from the back, then put in order.
        while keys.len() > 0
            invariant
                keys@.len() == values@.len(),
                rk@.len() == rv@.len(),
                keys@.len() + rk@.len() == s.len(),
                forall|j: int| 0 <= j < keys@.len() ==> (#[trigger] keys@[j], values@[j]) == s[j],
                forall|j: int| 0 <= j < rk@.len() ==> (#[trigger] rk@[j], rv@[j]) == s[s.len() - 1 - j],
            decreases keys@.len(),
        {
            let k = keys.pop().unwrap();
            let v = values.pop().unwrap();
            rk.push(k);
            rv.push(v);
        }
        while rk.len() > 0
            invariant
                rk@.len() == rv@.len(),
                out@.len() + rk@.len() == s.len(),
                forall|j: int| 0 <= j < rk@.len() ==> (#[trigger] rk@[j], rv@[j]) == s[s.len() - 1 - j],
                forall|j: int| 0 <= j < out@.len() ==> #[trigger] out@[j] == s[j],
            decreases rk@.len(),
        {
            let k = rk.pop().unwrap();
            let v = rv.pop().unwrap();
            out.push((k, v));
        }
        assert(out@ =~= s);
        out
    }
}

} // verus!
