//! A map from paths to values that is walked in the order of the paths.

use vstd::prelude::*;

use crate::text::{
    is_before, lemma_order_irreflexive, lemma_order_total, lemma_order_transitive, same_text,
    text_before,
};

verus! {

/// Each text comes before all that follow it.
pub open spec fn ascending(keys: Seq<Seq<char>>) -> bool {
    forall|i: int, j: int| 0 <= i < j < keys.len() ==> text_before(#[trigger] keys[i], #[trigger] keys[j])
}

/// The keys of a map in ascending order.
pub open spec fn ascending_keys<V>(map: Map<Seq<char>, V>) -> Seq<Seq<char>> {
    choose|keys: Seq<Seq<char>>| ascending(keys) && keys.to_set() == map.dom()
}

/// No two keys of an ascending sequence are equal.
pub proof fn lemma_ascending_no_duplicates(keys: Seq<Seq<char>>)
    requires
        ascending(keys),
    ensures
        keys.no_duplicates(),
{
    assert forall|i: int, j: int| 0 <= i < j < keys.len() implies keys[i] != keys[j] by {
        lemma_order_irreflexive(keys[i]);
    }
}

/// Two ascending sequences of the same texts are the same sequence.
pub proof fn lemma_ascending_unique(a: Seq<Seq<char>>, b: Seq<Seq<char>>)
    requires
        ascending(a),
        ascending(b),
        a.to_set() == b.to_set(),
    ensures
        a == b,
    decreases a.len(),
{
    if a.len() == 0 {
        if b.len() > 0 {
            assert(b.to_set().contains(b[0]));
            assert(a.to_set().contains(b[0]));
        }
        assert(a =~= b);
    } else {
        assert(a.to_set().contains(a.last()));
        let i = choose|i: int| 0 <= i < b.len() && b[i] == a.last();
        assert(b.to_set().contains(b.last()));
        let j = choose|j: int| 0 <= j < a.len() && a[j] == b.last();
        if i < b.len() - 1 {
            assert(text_before(b[i], b[b.len() - 1]));
            lemma_order_irreflexive(a.last());
            if j < a.len() - 1 {
                assert(text_before(a[j], a[a.len() - 1]));
                lemma_order_transitive(a.last(), b.last(), a.last());
            }
        }
        assert(a.last() == b.last());
        lemma_ascending_no_duplicates(a);
        lemma_ascending_no_duplicates(b);
        let (c, d) = (a.drop_last(), b.drop_last());
        assert forall|k: Seq<char>| c.to_set().contains(k) <==> d.to_set().contains(k) by {
            if c.to_set().contains(k) {
                let x = choose|x: int| 0 <= x < c.len() && c[x] == k;
                assert(a[x] == k && a.to_set().contains(k) && b.to_set().contains(k));
                let y = choose|y: int| 0 <= y < b.len() && b[y] == k;
                assert(y < b.len() - 1);
                assert(d[y] == k);
            }
            if d.to_set().contains(k) {
                let y = choose|y: int| 0 <= y < d.len() && d[y] == k;
                assert(b[y] == k && b.to_set().contains(k) && a.to_set().contains(k));
                let x = choose|x: int| 0 <= x < a.len() && a[x] == k;
                assert(x < a.len() - 1);
                assert(c[x] == k);
            }
        }
        assert(c.to_set() =~= d.to_set());
        lemma_ascending_unique(c, d);
        assert(a =~= c.push(a.last()));
        assert(b =~= d.push(b.last()));
    }
}

/// An ascending sequence of the keys of a map is the sequence of its keys.
pub proof fn lemma_ascending_keys<V>(map: Map<Seq<char>, V>, keys: Seq<Seq<char>>)
    requires
        ascending(keys),
        keys.to_set() == map.dom(),
    ensures
        ascending_keys(map) == keys,
{
    lemma_ascending_unique(ascending_keys(map), keys);
}

/// How many texts of the front of `keys` come before `key`.
spec fn place(keys: Seq<Seq<char>>, key: Seq<char>) -> int
    decreases keys.len(),
{
    if keys.len() == 0 || !text_before(keys[0], key) {
        0
    } else {
        1 + place(keys.drop_first(), key)
    }
}

proof fn lemma_place(keys: Seq<Seq<char>>, key: Seq<char>)
    requires
        ascending(keys),
    ensures
        0 <= place(keys, key) <= keys.len(),
        forall|i: int| 0 <= i < place(keys, key) ==> text_before(#[trigger] keys[i], key),
        forall|i: int| place(keys, key) <= i < keys.len() ==> !text_before(#[trigger] keys[i], key),
    decreases keys.len(),
{
    if keys.len() > 0 {
        if text_before(keys[0], key) {
            let rest = keys.drop_first();
            assert forall|i: int, j: int| 0 <= i < j < rest.len() implies text_before(
                #[trigger] rest[i],
                #[trigger] rest[j],
            ) by {
                assert(text_before(keys[i + 1], keys[j + 1]));
            }
            lemma_place(rest, key);
            assert forall|i: int| 0 <= i < place(keys, key) implies text_before(
                #[trigger] keys[i],
                key,
            ) by {
                if i > 0 {
                    assert(rest[i - 1] == keys[i]);
                }
            }
            assert forall|i: int| place(keys, key) <= i < keys.len() implies !text_before(
                #[trigger] keys[i],
                key,
            ) by {
                assert(rest[i - 1] == keys[i]);
            }
        } else {
            assert forall|i: int| 0 <= i < keys.len() implies !text_before(#[trigger] keys[i], key) by {
                if i > 0 && text_before(keys[i], key) {
                    assert(text_before(keys[0], keys[i]));
                    lemma_order_transitive(keys[0], keys[i], key);
                }
            }
        }
    }
}

proof fn lemma_ascending_insert(keys: Seq<Seq<char>>, at: int, key: Seq<char>)
    requires
        ascending(keys),
        0 <= at <= keys.len(),
        !keys.contains(key),
        forall|i: int| 0 <= i < at ==> text_before(#[trigger] keys[i], key),
        forall|i: int| at <= i < keys.len() ==> !text_before(#[trigger] keys[i], key),
    ensures
        ascending(keys.insert(at, key)),
{
    let now = keys.insert(at, key);
    assert forall|i: int, j: int| 0 <= i < j < now.len() implies text_before(
        #[trigger] now[i],
        #[trigger] now[j],
    ) by {
        if j == at {
            assert(now[i] == keys[i]);
        } else if i == at {
            assert(now[j] == keys[j - 1]);
            assert(keys[j - 1] != key);
            lemma_order_total(keys[j - 1], key);
        } else {
            let x = if i < at { i } else { i - 1 };
            let y = if j < at { j } else { j - 1 };
            assert(now[i] == keys[x] && now[j] == keys[y]);
            assert(text_before(keys[x], keys[y]));
        }
    }
}

proof fn lemma_ascending_exists(keys: Set<Seq<char>>) -> (sorted: Seq<Seq<char>>)
    requires
        keys.finite(),
    ensures
        ascending(sorted),
        sorted.to_set() == keys,
    decreases keys.len(),
{
    if keys.len() == 0 {
        let none: Seq<Seq<char>> = seq![];
        assert(none.to_set() =~= keys);
        none
    } else {
        let key = keys.choose();
        let rest = lemma_ascending_exists(keys.remove(key));
        let at = place(rest, key);
        lemma_place(rest, key);
        if rest.contains(key) {
            assert(rest.to_set().contains(key));
        }
        lemma_ascending_insert(rest, at, key);
        let sorted = rest.insert(at, key);
        assert forall|k: Seq<char>| sorted.to_set().contains(k) <==> keys.contains(k) by {
            if sorted.to_set().contains(k) {
                let i = choose|i: int| 0 <= i < sorted.len() && sorted[i] == k;
                if i != at {
                    assert(rest[if i < at { i } else { i - 1 }] == k);
                    assert(rest.to_set().contains(k));
                }
            }
            if keys.contains(k) {
                if k == key {
                    assert(sorted[at] == k);
                } else {
                    assert(rest.to_set().contains(k));
                    let i = choose|i: int| 0 <= i < rest.len() && rest[i] == k;
                    assert(sorted[if i < at { i } else { i + 1 }] == k);
                }
            }
        }
        assert(sorted.to_set() =~= keys);
        sorted
    }
}

/// The keys of a finite map in ascending order are just its keys, each once.
pub proof fn lemma_keys_of_finite_map<V>(map: Map<Seq<char>, V>)
    requires
        map.dom().finite(),
    ensures
        ascending(ascending_keys(map)),
        ascending_keys(map).to_set() == map.dom(),
        ascending_keys(map).no_duplicates(),
        ascending_keys(map).len() == map.len(),
        forall|i: int|
            0 <= i < ascending_keys(map).len() ==> map.contains_key(#[trigger] ascending_keys(map)[i]),
{
    let sorted = lemma_ascending_exists(map.dom());
    lemma_ascending_keys(map, sorted);
    lemma_ascending_no_duplicates(sorted);
    sorted.unique_seq_to_set();
    assert forall|i: int| 0 <= i < sorted.len() implies map.contains_key(#[trigger] sorted[i]) by {
        assert(sorted.to_set().contains(sorted[i]));
    }
}

/// A map from paths to values. Its entries are kept in the order of the paths.
pub struct PathMap<V> {
    entries: Vec<(String, V)>,
}

impl<V> PathMap<V> {
    spec fn keys(entries: Seq<(String, V)>) -> Seq<Seq<char>> {
        entries.map_values(|e: (String, V)| e.0@)
    }

    #[verifier::type_invariant]
    spec fn in_order(self) -> bool {
        ascending(Self::keys(self.entries@))
    }
}

impl<V: View> PathMap<V> {
    spec fn contents(entries: Seq<(String, V)>) -> Map<Seq<char>, V::V> {
        Map::new(
            |key: Seq<char>| Self::keys(entries).contains(key),
            |key: Seq<char>| entries[Self::keys(entries).index_of(key)].1@,
        )
    }
}

impl<V: View> View for PathMap<V> {
    type V = Map<Seq<char>, V::V>;

    closed spec fn view(&self) -> Map<Seq<char>, V::V> {
        Self::contents(self.entries@)
    }
}

impl<V: View> PathMap<V> {
    proof fn lemma_contents(entries: Seq<(String, V)>)
        requires
            ascending(Self::keys(entries)),
        ensures
            ascending_keys(Self::contents(entries)) == Self::keys(entries),
            Self::contents(entries).dom() == Self::keys(entries).to_set(),
            Self::contents(entries).dom().finite(),
            Self::contents(entries).len() == entries.len(),
            forall|i: int|
                0 <= i < entries.len() ==> {
                    &&& Self::contents(entries).contains_key((#[trigger] entries[i]).0@)
                    &&& Self::contents(entries)[entries[i].0@] == entries[i].1@
                },
    {
        let keys = Self::keys(entries);
        let map = Self::contents(entries);
        assert(map.dom() =~= keys.to_set());
        lemma_ascending_keys(map, keys);
        lemma_ascending_no_duplicates(keys);
        keys.unique_seq_to_set();
        vstd::seq_lib::seq_to_set_is_finite(keys);
        assert forall|i: int| 0 <= i < entries.len() implies {
            &&& map.contains_key((#[trigger] entries[i]).0@)
            &&& map[entries[i].0@] == entries[i].1@
        } by {
            assert(keys[i] == entries[i].0@);
            assert(keys.contains(keys[i]));
        }
    }

    /// An empty map.
    pub fn new() -> (map: Self)
        ensures
            map@ == Map::<Seq<char>, V::V>::empty(),
    {
        let map = PathMap { entries: Vec::new() };
        assert(map@ =~= Map::<Seq<char>, V::V>::empty());
        map
    }

    /// The number of entries.
    pub fn len(&self) -> (len: usize)
        ensures
            len == self@.len(),
            self@.dom().finite(),
            len == ascending_keys(self@).len(),
    {
        proof {
            use_type_invariant(self);
            Self::lemma_contents(self.entries@);
        }
        self.entries.len()
    }

    /// Tells whether the map has no entry.
    pub fn is_empty(&self) -> (empty: bool)
        ensures
            empty == (self@ == Map::<Seq<char>, V::V>::empty()),
    {
        proof {
            use_type_invariant(self);
            Self::lemma_contents(self.entries@);
            if self.entries@.len() == 0 {
                assert(self@ =~= Map::<Seq<char>, V::V>::empty());
            } else {
                assert(self@.contains_key(self.entries@[0].0@));
            }
        }
        self.entries.len() == 0
    }

    /// The position of the first key that does not come before `key`.
    fn position(&self, key: &str) -> (at: usize)
        ensures
            at <= self.entries@.len(),
            forall|i: int| 0 <= i < at ==> text_before((#[trigger] self.entries@[i]).0@, key@),
            forall|i: int|
                at <= i < self.entries@.len() ==> !text_before((#[trigger] self.entries@[i]).0@, key@),
    {
        proof {
            use_type_invariant(self);
        }
        let mut low: usize = 0;
        let mut high: usize = self.entries.len();
        while low < high
            invariant
                low <= high <= self.entries@.len(),
                ascending(Self::keys(self.entries@)),
                forall|i: int| 0 <= i < low ==> text_before((#[trigger] self.entries@[i]).0@, key@),
                forall|i: int|
                    high <= i < self.entries@.len() ==> !text_before(
                        (#[trigger] self.entries@[i]).0@,
                        key@,
                    ),
            decreases high - low,
        {
            let middle: usize = low + (high - low) / 2;
            let ghost keys = Self::keys(self.entries@);
            if is_before(self.entries[middle].0.as_str(), key) {
                proof {
                    assert forall|i: int| 0 <= i < middle + 1 implies text_before(
                        (#[trigger] self.entries@[i]).0@,
                        key@,
                    ) by {
                        if i < middle {
                            assert(text_before(keys[i], keys[middle as int]));
                            lemma_order_transitive(keys[i], keys[middle as int], key@);
                        }
                    }
                }
                low = middle + 1;
            } else {
                proof {
                    assert forall|i: int| middle <= i < self.entries@.len() implies !text_before(
                        (#[trigger] self.entries@[i]).0@,
                        key@,
                    ) by {
                        if i > middle && text_before(self.entries@[i].0@, key@) {
                            assert(text_before(keys[middle as int], keys[i]));
                            lemma_order_transitive(keys[middle as int], keys[i], key@);
                        }
                    }
                }
                high = middle;
            }
        }
        low
    }

    /// The value of a path.
    pub fn get(&self, key: &str) -> (value: Option<&V>)
        ensures
            match value {
                Some(v) => self@.contains_key(key@) && self@[key@] == v@,
                None => !self@.contains_key(key@),
            },
    {
        let at = self.position(key);
        proof {
            use_type_invariant(self);
            Self::lemma_contents(self.entries@);
        }
        if at < self.entries.len() && same_text(self.entries[at].0.as_str(), key) {
            Some(&self.entries[at].1)
        } else {
            proof {
                let keys = Self::keys(self.entries@);
                if keys.contains(key@) {
                    let i = choose|i: int| 0 <= i < keys.len() && keys[i] == key@;
                    assert(self.entries@[i].0@ == key@);
                    lemma_order_irreflexive(key@);
                    assert(i > at);
                    assert(text_before(keys[at as int], keys[i]));
                    assert(!text_before(self.entries@[at as int].0@, key@));
                }
            }
            None
        }
    }

    /// Tells whether a path has a value.
    pub fn contains_key(&self, key: &str) -> (contains: bool)
        ensures
            contains == self@.contains_key(key@),
    {
        self.get(key).is_some()
    }

    /// The path and the value at a position in the order of the paths.
    pub fn entry(&self, at: usize) -> (entry: Option<(&String, &V)>)
        ensures
            match entry {
                Some((key, value)) => {
                    &&& at < ascending_keys(self@).len()
                    &&& key@ == ascending_keys(self@)[at as int]
                    &&& self@.contains_key(key@)
                    &&& self@[key@] == value@
                },
                None => at >= ascending_keys(self@).len(),
            },
    {
        proof {
            use_type_invariant(self);
            Self::lemma_contents(self.entries@);
        }
        if at < self.entries.len() {
            let e = &self.entries[at];
            assert(Self::keys(self.entries@)[at as int] == e.0@);
            Some((&e.0, &e.1))
        } else {
            None
        }
    }

    /// Gives a path a value, in place of the one it had.
    pub fn insert(&mut self, key: String, value: V)
        ensures
            final(self)@ == old(self)@.insert(key@, value@),
    {
        let at = self.position(key.as_str());
        let ghost before = self.entries@;
        let ghost keys = Self::keys(before);
        let ghost k = key@;
        let ghost v = value@;
        proof {
            use_type_invariant(&*self);
            Self::lemma_contents(before);
        }
        let mut entries: Vec<(String, V)> = Vec::new();
        std::mem::swap(&mut entries, &mut self.entries);
        if at < entries.len() && same_text(entries[at].0.as_str(), key.as_str()) {
            entries.set(at, (key, value));
            assert(Self::keys(entries@) =~= keys);
        } else {
            entries.insert(at, (key, value));
            proof {
                assert(Self::keys(entries@) =~= keys.insert(at as int, k));
                assert forall|i: int| 0 <= i < at implies text_before(#[trigger] keys[i], k) by {
                    assert(text_before(before[i].0@, k));
                }
                assert forall|i: int| at <= i < keys.len() implies !text_before(
                    #[trigger] keys[i],
                    k,
                ) by {
                    assert(!text_before(before[i].0@, k));
                }
                if keys.contains(k) {
                    let i = choose|i: int| 0 <= i < keys.len() && keys[i] == k;
                    lemma_order_irreflexive(k);
                    assert(text_before(keys[at as int], keys[i]));
                }
                lemma_ascending_insert(keys, at as int, k);
            }
        }
        proof {
            Self::lemma_contents(entries@);
            let now = Self::contents(entries@);
            let goal = Self::contents(before).insert(k, v);
            assert(entries@[at as int].0@ == k && entries@[at as int].1@ == v);
            assert forall|x: Seq<char>| now.contains_key(x) <==> goal.contains_key(x) by {
                if now.contains_key(x) {
                    let i = choose|i: int| 0 <= i < entries@.len() && Self::keys(entries@)[i] == x;
                    if i != at {
                        let y = if i < at || entries@.len() == before.len() { i } else { i - 1 };
                        assert(keys[y] == x);
                    }
                }
                if goal.contains_key(x) && x != k {
                    let i = choose|i: int| 0 <= i < before.len() && keys[i] == x;
                    let y = if i < at || entries@.len() == before.len() { i } else { i + 1 };
                    assert(Self::keys(entries@)[y] == x);
                }
                if x == k {
                    assert(Self::keys(entries@)[at as int] == k);
                }
            }
            assert forall|x: Seq<char>| now.contains_key(x) implies now[x] == goal[x] by {
                let i = choose|i: int| 0 <= i < entries@.len() && Self::keys(entries@)[i] == x;
                assert(entries@[i].0@ == x);
                if i != at {
                    let y = if i < at || entries@.len() == before.len() { i } else { i - 1 };
                    assert(before[y].0@ == x);
                    assert(before[y] == entries@[i]);
                    lemma_ascending_no_duplicates(Self::keys(entries@));
                    assert(Self::keys(entries@)[at as int] == k);
                    assert(x != k);
                }
            }
            assert(now =~= goal);
        }
        self.entries = entries;
    }
}

} // verus!
