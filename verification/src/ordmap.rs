//! A map kept in the order of its keys.

use vstd::prelude::*;

verus! {

/// How one key compares with another.
#[derive(Clone, Copy, PartialEq, Eq, Structural)]
pub enum Place {
    Before,
    Same,
    After,
}

/// A key with a place among all keys of its type.
///
/// The place is a number, so that the order is total for free: a key comes
/// before another when its number is smaller, and no two keys share one.
pub trait Ranked: Sized + Copy {
    spec fn rank(self) -> int;

    proof fn rank_is_unique(a: Self, b: Self)
        requires
            a.rank() == b.rank(),
        ensures
            a == b,
    ;

    fn place(&self, other: &Self) -> (place: Place)
        ensures
            match place {
                Place::Before => self.rank() < other.rank(),
                Place::Same => *self == *other,
                Place::After => self.rank() > other.rank(),
            },
    ;
}

impl Ranked for u64 {
    open spec fn rank(self) -> int {
        self as int
    }

    proof fn rank_is_unique(a: Self, b: Self) {
    }

    fn place(&self, other: &Self) -> (place: Place) {
        if *self < *other {
            Place::Before
        } else if *self == *other {
            Place::Same
        } else {
            Place::After
        }
    }
}

/// Keys with their values, in the order of the keys.
pub struct OrdMap<K: Ranked, V> {
    pairs: Vec<(K, V)>,
}

/// Whether the keys of some pairs only go up.
pub open spec fn ascending<K: Ranked, V>(pairs: Seq<(K, V)>) -> bool {
    forall|i: int, j: int|
        0 <= i < j < pairs.len() ==> (#[trigger] pairs[i]).0.rank() < (#[trigger] pairs[j]).0.rank()
}

/// Whether a key is among some pairs.
pub open spec fn among<K: Ranked, V>(pairs: Seq<(K, V)>, key: K) -> bool {
    exists|i: int| 0 <= i < pairs.len() && (#[trigger] pairs[i]).0 == key
}

/// The value some pairs give a key.
pub open spec fn value_among<K: Ranked, V>(pairs: Seq<(K, V)>, key: K) -> V {
    let i = choose|i: int| 0 <= i < pairs.len() && (#[trigger] pairs[i]).0 == key;
    pairs[i].1
}

/// The map that some pairs make up.
pub open spec fn map_of<K: Ranked, V>(pairs: Seq<(K, V)>) -> Map<K, V> {
    Map::new(|key: K| among(pairs, key), |key: K| value_among(pairs, key))
}

impl<K: Ranked, V> View for OrdMap<K, V> {
    type V = Map<K, V>;

    closed spec fn view(&self) -> Map<K, V> {
        map_of(self.pairs@)
    }
}

impl<K: Ranked, V> OrdMap<K, V> {
    /// The pairs of the map, in the order of their keys.
    pub closed spec fn pairs(&self) -> Seq<(K, V)> {
        self.pairs@
    }

    /// Whether the pairs are in order, each key once.
    pub closed spec fn wf(&self) -> bool {
        ascending(self.pairs@)
    }

    /// What well-formedness says of the pairs and of the map they make up.
    pub proof fn lemma_pairs(&self)
        requires
            self.wf(),
        ensures
            ascending(self.pairs()),
            self@ == map_of(self.pairs()),
            self@.dom().finite(),
            self@.len() == self.pairs().len(),
            forall|i: int| 0 <= i < self.pairs().len() ==> {
                let pair = #[trigger] self.pairs()[i];
                self@.contains_key(pair.0) && self@[pair.0] == pair.1
            },
            forall|key: K| #[trigger] self@.contains_key(key) ==> exists|i: int|
                0 <= i < self.pairs().len() && (#[trigger] self.pairs()[i]) == (key, self@[key]),
    {
        let pairs = self.pairs@;
        assert forall|i: int| 0 <= i < pairs.len() implies {
            let pair = #[trigger] pairs[i];
            self@.contains_key(pair.0) && self@[pair.0] == pair.1
        } by {
            lemma_value(pairs, i);
        }
        assert forall|key: K| #[trigger] self@.contains_key(key) implies exists|i: int|
            0 <= i < pairs.len() && (#[trigger] pairs[i]) == (key, self@[key]) by {
            let i = choose|i: int| 0 <= i < pairs.len() && (#[trigger] pairs[i]).0 == key;
            assert(pairs[i] == (key, self@[key]));
        }
        lemma_size(pairs);
    }

    /// A map with nothing in it.
    pub fn new() -> (map: Self)
        ensures
            map.wf(),
            map@ == Map::<K, V>::empty(),
            map.pairs() == Seq::<(K, V)>::empty(),
    {
        let map = OrdMap { pairs: Vec::new() };
        assert(map@ =~= Map::<K, V>::empty());
        map
    }

    /// How many keys the map holds.
    pub fn len(&self) -> (n: usize)
        requires
            self.wf(),
        ensures
            n == self.pairs().len(),
            n == self@.len(),
            self@.dom().finite(),
    {
        proof {
            self.lemma_pairs();
        }
        self.pairs.len()
    }

    /// The key at a place in the order.
    pub fn key_at(&self, i: usize) -> (key: K)
        requires
            i < self.pairs().len(),
        ensures
            key == self.pairs()[i as int].0,
    {
        self.pairs[i].0
    }

    /// The value at a place in the order of the keys.
    pub fn value_at(&self, i: usize) -> (value: &V)
        requires
            i < self.pairs().len(),
        ensures
            *value == self.pairs()[i as int].1,
    {
        &self.pairs[i].1
    }

    /// The place where a key is, or where it would have to be put.
    fn find(&self, key: &K) -> (r: (usize, bool))
        requires
            self.wf(),
        ensures
            r.0 <= self.pairs@.len(),
            forall|i: int| 0 <= i < r.0 ==> (#[trigger] self.pairs@[i]).0.rank() < key.rank(),
            r.1 ==> r.0 < self.pairs@.len() && self.pairs@[r.0 as int].0 == *key,
            !r.1 ==> forall|i: int|
                r.0 <= i < self.pairs@.len() ==> key.rank() < (#[trigger] self.pairs@[i]).0.rank(),
            r.1 == self@.contains_key(*key),
    {
        let mut low: usize = 0;
        let mut high: usize = self.pairs.len();
        while low < high
            invariant
                low <= high <= self.pairs@.len(),
                self.wf(),
                forall|i: int| 0 <= i < low ==> (#[trigger] self.pairs@[i]).0.rank() < key.rank(),
                forall|i: int|
                    high <= i < self.pairs@.len() ==> key.rank() < (
                    #[trigger] self.pairs@[i]).0.rank(),
            decreases high - low,
        {
            let middle: usize = low + (high - low) / 2;
            match key.place(&self.pairs[middle].0) {
                Place::Same => {
                    assert(among(self.pairs@, *key));
                    return (middle, true);
                },
                Place::Before => {
                    high = middle;
                },
                Place::After => {
                    low = middle + 1;
                },
            }
        }
        (low, false)
    }

    /// Whether the map holds a key.
    pub fn contains_key(&self, key: &K) -> (r: bool)
        requires
            self.wf(),
        ensures
            r == self@.contains_key(*key),
    {
        self.find(key).1
    }

    /// The value of a key.
    pub fn get(&self, key: &K) -> (value: Option<&V>)
        requires
            self.wf(),
        ensures
            match value {
                Some(value) => self@.contains_key(*key) && *value == self@[*key],
                None => !self@.contains_key(*key),
            },
    {
        let (i, found) = self.find(key);
        if found {
            proof {
                lemma_value(self.pairs@, i as int);
            }
            Some(&self.pairs[i].1)
        } else {
            None
        }
    }

    /// Gives a key a value, in place of the one it had.
    pub fn insert(&mut self, key: K, value: V) -> (previous: Option<V>)
        requires
            old(self).wf(),
        ensures
            final(self).wf(),
            final(self)@ == old(self)@.insert(key, value),
            previous == (if old(self)@.contains_key(key) {
                Some(old(self)@[key])
            } else {
                None
            }),
    {
        let ghost before = self.pairs@;
        let (i, found) = self.find(&key);
        if found {
            proof {
                lemma_value(before, i as int);
            }
            let (_, previous) = self.pairs.remove(i);
            self.pairs.insert(i, (key, value));
            assert(self.pairs@ =~= before.update(i as int, (key, value)));
            proof {
                lemma_update(before, i as int, value);
            }
            Some(previous)
        } else {
            self.pairs.insert(i, (key, value));
            proof {
                lemma_insert(before, i as int, key, value);
            }
            None
        }
    }

    /// The value at a place in the order of the keys, to change it.
    pub fn value_mut(&mut self, i: usize) -> (value: &mut V)
        requires
            old(self).wf(),
            i < old(self).pairs().len(),
        ensures
            *value == old(self).pairs()[i as int].1,
            final(self).wf(),
            final(self).pairs() == old(self).pairs().update(
                i as int,
                (old(self).pairs()[i as int].0, *final(value)),
            ),
            final(self)@ == old(self)@.insert(old(self).pairs()[i as int].0, *final(value)),
    {
        let ghost before = self.pairs@;
        let value = &mut self.pairs[i].1;
        proof {
            lemma_update(before, i as int, *final(value));
        }
        value
    }

    /// Takes a key out of the map, with its value.
    pub fn remove(&mut self, key: &K) -> (previous: Option<V>)
        requires
            old(self).wf(),
        ensures
            final(self).wf(),
            final(self)@ == old(self)@.remove(*key),
            previous == (if old(self)@.contains_key(*key) {
                Some(old(self)@[*key])
            } else {
                None
            }),
    {
        let ghost before = self.pairs@;
        let (i, found) = self.find(key);
        if found {
            let (_, previous) = self.pairs.remove(i);
            proof {
                lemma_value(before, i as int);
                lemma_remove(before, i as int);
            }
            Some(previous)
        } else {
            assert(self@ =~= old(self)@.remove(*key));
            None
        }
    }
}

proof fn lemma_value<K: Ranked, V>(pairs: Seq<(K, V)>, i: int)
    requires
        ascending(pairs),
        0 <= i < pairs.len(),
    ensures
        among(pairs, pairs[i].0),
        value_among(pairs, pairs[i].0) == pairs[i].1,
{
    let key = pairs[i].0;
    assert(pairs[i].0 == key);
    let j = choose|j: int| 0 <= j < pairs.len() && (#[trigger] pairs[j]).0 == key;
    if i < j {
        assert(pairs[i].0.rank() < pairs[j].0.rank());
    } else if j < i {
        assert(pairs[j].0.rank() < pairs[i].0.rank());
    }
}

proof fn lemma_update<K: Ranked, V>(pairs: Seq<(K, V)>, i: int, value: V)
    requires
        ascending(pairs),
        0 <= i < pairs.len(),
    ensures
        ascending(pairs.update(i, (pairs[i].0, value))),
        map_of(pairs.update(i, (pairs[i].0, value))) == map_of(pairs).insert(pairs[i].0, value),
{
    let key = pairs[i].0;
    let after = pairs.update(i, (key, value));
    assert forall|a: int, b: int| 0 <= a < b < after.len() implies (#[trigger] after[a]).0.rank()
        < (#[trigger] after[b]).0.rank() by {
        assert(pairs[a].0.rank() < pairs[b].0.rank());
    }
    assert forall|k: K| among(after, k) == (#[trigger] map_of(pairs).insert(key, value)).contains_key(
        k,
    ) by {
        if among(after, k) {
            let j = choose|j: int| 0 <= j < after.len() && (#[trigger] after[j]).0 == k;
            assert(pairs[j].0 == k);
        }
        if among(pairs, k) {
            let j = choose|j: int| 0 <= j < pairs.len() && (#[trigger] pairs[j]).0 == k;
            assert(after[j].0 == k);
        }
        assert(after[i].0 == key);
    }
    assert forall|k: K| among(after, k) implies #[trigger] value_among(after, k) == map_of(
        pairs,
    ).insert(key, value)[k] by {
        let j = choose|j: int| 0 <= j < after.len() && (#[trigger] after[j]).0 == k;
        lemma_value(after, j);
        lemma_value(pairs, j);
        lemma_value(after, i);
        if k == key && j != i {
            if j < i {
                assert(after[j].0.rank() < after[i].0.rank());
            } else {
                assert(after[i].0.rank() < after[j].0.rank());
            }
        }
    }
    assert(map_of(after) =~= map_of(pairs).insert(key, value));
}

proof fn lemma_insert<K: Ranked, V>(pairs: Seq<(K, V)>, i: int, key: K, value: V)
    requires
        ascending(pairs),
        0 <= i <= pairs.len(),
        forall|j: int| 0 <= j < i ==> (#[trigger] pairs[j]).0.rank() < key.rank(),
        forall|j: int| i <= j < pairs.len() ==> key.rank() < (#[trigger] pairs[j]).0.rank(),
    ensures
        ascending(pairs.insert(i, (key, value))),
        map_of(pairs.insert(i, (key, value))) == map_of(pairs).insert(key, value),
{
    let after = pairs.insert(i, (key, value));
    assert forall|a: int, b: int| 0 <= a < b < after.len() implies (#[trigger] after[a]).0.rank()
        < (#[trigger] after[b]).0.rank() by {
        let c = if a < i { a } else { a - 1 };
        let d = if b < i { b } else { b - 1 };
        if a != i && b != i {
            assert(pairs[c].0.rank() < pairs[d].0.rank());
        }
    }
    assert(after[i] == (key, value));
    lemma_value(after, i);
    assert forall|k: K| among(after, k) == (#[trigger] map_of(pairs).insert(key, value)).contains_key(
        k,
    ) by {
        if among(after, k) {
            let j = choose|j: int| 0 <= j < after.len() && (#[trigger] after[j]).0 == k;
            if j < i {
                assert(pairs[j].0 == k);
            } else if j > i {
                assert(pairs[j - 1].0 == k);
            }
        }
        if among(pairs, k) {
            let j = choose|j: int| 0 <= j < pairs.len() && (#[trigger] pairs[j]).0 == k;
            let m = if j < i { j } else { j + 1 };
            assert(after[m].0 == k);
        }
    }
    assert forall|k: K| among(after, k) implies #[trigger] value_among(after, k) == map_of(
        pairs,
    ).insert(key, value)[k] by {
        let j = choose|j: int| 0 <= j < after.len() && (#[trigger] after[j]).0 == k;
        lemma_value(after, j);
        if j < i {
            lemma_value(pairs, j);
        } else if j > i {
            lemma_value(pairs, j - 1);
        }
    }
    assert(map_of(after) =~= map_of(pairs).insert(key, value));
}

proof fn lemma_remove<K: Ranked, V>(pairs: Seq<(K, V)>, i: int)
    requires
        ascending(pairs),
        0 <= i < pairs.len(),
    ensures
        ascending(pairs.remove(i)),
        map_of(pairs.remove(i)) == map_of(pairs).remove(pairs[i].0),
{
    let key = pairs[i].0;
    let after = pairs.remove(i);
    assert forall|a: int, b: int| 0 <= a < b < after.len() implies (#[trigger] after[a]).0.rank()
        < (#[trigger] after[b]).0.rank() by {
        let c = if a < i { a } else { a + 1 };
        let d = if b < i { b } else { b + 1 };
        assert(pairs[c].0.rank() < pairs[d].0.rank());
    }
    assert forall|k: K| among(after, k) == (#[trigger] map_of(pairs).remove(key)).contains_key(k) by {
        if among(after, k) {
            let j = choose|j: int| 0 <= j < after.len() && (#[trigger] after[j]).0 == k;
            let m = if j < i { j } else { j + 1 };
            assert(pairs[m].0 == k);
            if m < i {
                assert(pairs[m].0.rank() < pairs[i].0.rank());
            } else {
                assert(pairs[i].0.rank() < pairs[m].0.rank());
            }
        }
        if among(pairs, k) && k != key {
            let j = choose|j: int| 0 <= j < pairs.len() && (#[trigger] pairs[j]).0 == k;
            let m = if j < i { j } else { j - 1 };
            assert(after[m].0 == k);
        }
    }
    assert forall|k: K| among(after, k) implies #[trigger] value_among(after, k) == map_of(
        pairs,
    ).remove(key)[k] by {
        let j = choose|j: int| 0 <= j < after.len() && (#[trigger] after[j]).0 == k;
        lemma_value(after, j);
        let m = if j < i { j } else { j + 1 };
        lemma_value(pairs, m);
    }
    assert(map_of(after) =~= map_of(pairs).remove(key));
}

/// One more pair at the end, with a key above all the others, is one more key
/// in the map.
pub proof fn lemma_map_of_push<K: Ranked, V>(pairs: Seq<(K, V)>, pair: (K, V))
    requires
        ascending(pairs.push(pair)),
    ensures
        ascending(pairs),
        map_of(pairs.push(pair)) == map_of(pairs).insert(pair.0, pair.1),
{
    let after = pairs.push(pair);
    assert forall|i: int, j: int| 0 <= i < j < pairs.len() implies (#[trigger] pairs[i]).0.rank() < (
    #[trigger] pairs[j]).0.rank() by {
        assert(after[i].0.rank() < after[j].0.rank());
    }
    assert forall|j: int| 0 <= j < pairs.len() implies (#[trigger] pairs[j]).0.rank()
        < pair.0.rank() by {
        assert(after[j].0.rank() < after[pairs.len() as int].0.rank());
    }
    lemma_insert(pairs, pairs.len() as int, pair.0, pair.1);
    assert(pairs.insert(pairs.len() as int, (pair.0, pair.1)) =~= after);
}

proof fn lemma_size<K: Ranked, V>(pairs: Seq<(K, V)>)
    requires
        ascending(pairs),
    ensures
        map_of(pairs).dom().finite(),
        map_of(pairs).len() == pairs.len(),
    decreases pairs.len(),
{
    if pairs.len() == 0 {
        assert(map_of(pairs) =~= Map::<K, V>::empty());
    } else {
        let last = pairs.len() - 1;
        lemma_remove(pairs, last);
        lemma_size(pairs.remove(last));
        lemma_value(pairs, last);
        let dom = map_of(pairs).dom();
        let rest = map_of(pairs.remove(last)).dom();
        assert(rest =~= dom.remove(pairs[last].0));
        assert(dom =~= rest.insert(pairs[last].0));
    }
}

/// Whether some keys only go up.
pub open spec fn keys_ascending<K: Ranked>(keys: Seq<K>) -> bool {
    forall|i: int, j: int|
        0 <= i < j < keys.len() ==> (#[trigger] keys[i]).rank() < (#[trigger] keys[j]).rank()
}

/// The keys of a set, in their order.
pub open spec fn in_order<K: Ranked>(set: Set<K>) -> Seq<K> {
    choose|keys: Seq<K>| keys_ascending(keys) && #[trigger] keys.to_set() == set
}

proof fn lemma_same_keys<K: Ranked>(a: Seq<K>, b: Seq<K>)
    requires
        keys_ascending(a),
        keys_ascending(b),
        a.to_set() == b.to_set(),
    ensures
        a == b,
    decreases a.len(),
{
    if a.len() == 0 {
        if b.len() > 0 {
            assert(b.to_set().contains(b[0]));
            assert(a.to_set().contains(b[0]));
        }
        assert(a =~= b);
    } else {
        assert(a.to_set().contains(a.last()));
        assert(b.to_set().contains(a.last()));
        let j = choose|j: int| 0 <= j < b.len() && b[j] == a.last();
        assert(b.to_set().contains(b.last()));
        assert(a.to_set().contains(b.last()));
        let i = choose|i: int| 0 <= i < a.len() && a[i] == b.last();
        if j < b.len() - 1 {
            assert(b[j].rank() < b[b.len() - 1].rank());
        }
        if i < a.len() - 1 {
            assert(a[i].rank() < a[a.len() - 1].rank());
        }
        assert(a.last() == b.last());
        let c = a.drop_last();
        let d = b.drop_last();
        assert forall|k: K| c.to_set().contains(k) == #[trigger] d.to_set().contains(k) by {
            if c.to_set().contains(k) {
                let n = choose|n: int| 0 <= n < c.len() && c[n] == k;
                assert(a[n].rank() < a[a.len() - 1].rank());
                assert(a.to_set().contains(a[n]));
                assert(b.to_set().contains(k));
                let m = choose|m: int| 0 <= m < b.len() && b[m] == k;
                assert(d[m] == k);
            }
            if d.to_set().contains(k) {
                let n = choose|n: int| 0 <= n < d.len() && d[n] == k;
                assert(b[n].rank() < b[b.len() - 1].rank());
                assert(b.to_set().contains(b[n]));
                assert(a.to_set().contains(k));
                let m = choose|m: int| 0 <= m < a.len() && a[m] == k;
                assert(c[m] == k);
            }
        }
        assert(c.to_set() =~= d.to_set());
        lemma_same_keys(c, d);
        assert(a =~= c.push(a.last()));
        assert(b =~= d.push(b.last()));
    }
}

/// Keys that only go up are those of their set, in order.
pub proof fn lemma_in_order<K: Ranked>(keys: Seq<K>, set: Set<K>)
    requires
        keys_ascending(keys),
        forall|k: K| keys.contains(k) == #[trigger] set.contains(k),
    ensures
        in_order(set) == keys,
{
    assert(keys.to_set() =~= set);
    let chosen = in_order(set);
    assert(keys_ascending(chosen) && chosen.to_set() == set);
    lemma_same_keys(keys, chosen);
}

/// A finite set of keys has a last one.
proof fn lemma_has_last<K: Ranked>(set: Set<K>)
    requires
        set.finite(),
        set.len() > 0,
    ensures
        exists|last: K|
            #![trigger set.contains(last)]
            set.contains(last) && forall|k: K| #[trigger]
                set.contains(k) ==> k.rank() <= last.rank(),
    decreases set.len(),
{
    let some = set.choose();
    let rest = set.remove(some);
    if rest.len() == 0 {
        assert forall|k: K| #[trigger] set.contains(k) implies k.rank() <= some.rank() by {
            if k != some {
                assert(rest.contains(k));
            }
        }
        assert(set.contains(some));
    } else {
        lemma_has_last(rest);
        let other = choose|last: K|
            #![trigger rest.contains(last)]
            rest.contains(last) && forall|k: K| #[trigger]
                rest.contains(k) ==> k.rank() <= last.rank();
        let last = if some.rank() < other.rank() {
            other
        } else {
            some
        };
        assert forall|k: K| #[trigger] set.contains(k) implies k.rank() <= last.rank() by {
            if k != some {
                assert(rest.contains(k));
            }
        }
        assert(set.contains(last));
    }
}

/// The keys of a finite set, in order, go up and are those of the set.
pub proof fn lemma_in_order_holds<K: Ranked>(set: Set<K>)
    requires
        set.finite(),
    ensures
        keys_ascending(in_order(set)),
        in_order(set).to_set() == set,
        forall|k: K| in_order(set).contains(k) == #[trigger] set.contains(k),
    decreases set.len(),
{
    if set.len() == 0 {
        let none = Seq::<K>::empty();
        assert(none.to_set() =~= set);
        assert(keys_ascending(none));
    } else {
        lemma_has_last(set);
        let last = choose|last: K|
            #![trigger set.contains(last)]
            set.contains(last) && forall|k: K| #[trigger]
                set.contains(k) ==> k.rank() <= last.rank();
        let rest = set.remove(last);
        lemma_in_order_holds(rest);
        let keys = in_order(rest);
        let all = keys.push(last);
        assert forall|i: int, j: int| 0 <= i < j < all.len() implies (#[trigger] all[i]).rank() < (
        #[trigger] all[j]).rank() by {
            if j == keys.len() {
                assert(keys.contains(keys[i]));
                assert(rest.contains(keys[i]));
                assert(set.contains(keys[i]));
                if keys[i].rank() == last.rank() {
                    K::rank_is_unique(keys[i], last);
                }
            }
        }
        assert forall|k: K| all.to_set().contains(k) == #[trigger] set.contains(k) by {
            if set.contains(k) && k != last {
                assert(rest.contains(k));
                assert(keys.contains(k));
                let i = choose|i: int| 0 <= i < keys.len() && keys[i] == k;
                assert(all[i] == k);
            }
            if k == last {
                assert(all[keys.len() as int] == k);
            }
            if all.contains(k) {
                let i = choose|i: int| 0 <= i < all.len() && all[i] == k;
                if i < keys.len() {
                    assert(keys.contains(keys[i]));
                    assert(rest.contains(k));
                }
            }
        }
        assert(all.to_set() =~= set);
    }
    assert forall|k: K| in_order(set).contains(k) == #[trigger] set.contains(k) by {
        assert(in_order(set).to_set().contains(k) == set.contains(k));
    }
}

} // verus!
