//! Sets and maps held as vectors in ascending order of their keys.
use itertools::Itertools;
use vstd::prelude::*;

use crate::position::Position;

verus! {

/// Calls `Itertools::sorted_by_key` of the `itertools` crate with the number of
/// each item as its key. What comes back holds the same items, each as often as
/// it was given; the numbers ascend; and items with the same number stand in
/// the order in which they were given.
#[verifier::external_body]
pub(crate) fn sorted_by_number(items: Vec<(usize, Position)>) -> (sorted: Vec<(usize, Position)>)
    ensures
        sorted@.to_multiset() == items@.to_multiset(),
        forall|i: int, j: int|
            0 <= i < j < sorted@.len() ==> (#[trigger] sorted@[i]).0 <= (#[trigger] sorted@[j]).0,
        forall|i: int, j: int|
            #![trigger sorted@[i], sorted@[j]]
            0 <= i < j < sorted@.len() && sorted@[i].0 == sorted@[j].0 ==> exists|a: int, b: int|
                #![trigger items@[a], items@[b]]
                0 <= a < b < items@.len() && items@[a] == sorted@[i] && items@[b] == sorted@[j],
{
    items.into_iter().sorted_by_key(|item| item.0).collect()
}

/// A type with a strict total order that executable code can decide.
pub trait Ordered: Copy {
    /// `self` comes strictly before `other`.
    spec fn before(self, other: Self) -> bool;

    /// The order is irreflexive, transitive and total.
    proof fn lemma_order(a: Self, b: Self, c: Self)
        ensures
            !a.before(a),
            a.before(b) && b.before(c) ==> a.before(c),
            a == b || a.before(b) || b.before(a),
    ;

    fn comes_before(&self, other: &Self) -> (r: bool)
        ensures
            r == self.before(*other),
    ;

    fn equals(&self, other: &Self) -> (r: bool)
        ensures
            r == (*self == *other),
    ;
}

impl Ordered for usize {
    open spec fn before(self, other: Self) -> bool {
        self < other
    }

    proof fn lemma_order(a: Self, b: Self, c: Self) {
    }

    fn comes_before(&self, other: &Self) -> (r: bool) {
        *self < *other
    }

    fn equals(&self, other: &Self) -> (r: bool) {
        *self == *other
    }
}

/// Every element comes strictly before each later one.
pub open spec fn ascending<K: Ordered>(s: Seq<K>) -> bool {
    forall|i: int, j: int| #![trigger s[i], s[j]] 0 <= i < j < s.len() ==> s[i].before(s[j])
}

/// An ascending sequence holds nothing twice.
pub proof fn lemma_ascending_distinct<K: Ordered>(s: Seq<K>)
    requires
        ascending(s),
    ensures
        s.no_duplicates(),
{
    assert forall|i: int, j: int| 0 <= i < s.len() && 0 <= j < s.len() && i != j implies s[i]
        != s[j] by {
        K::lemma_order(s[i], s[j], s[i]);
        if i < j {
            assert(s[i].before(s[j]));
        } else {
            assert(s[j].before(s[i]));
        }
    }
}

/// What a sequence holds after one more element is put in at `at`.
pub proof fn lemma_insert_contains<T>(s: Seq<T>, at: int, value: T)
    requires
        0 <= at <= s.len(),
    ensures
        forall|x: T| s.insert(at, value).contains(x) <==> (x == value || s.contains(x)),
{
    let t = s.insert(at, value);
    assert forall|x: T| t.contains(x) <==> (x == value || s.contains(x)) by {
        if t.contains(x) {
            let j = choose|j: int| 0 <= j < t.len() && t[j] == x;
            if j < at {
                assert(s[j] == x);
            } else if j > at {
                assert(s[j - 1] == x);
            }
        }
        if x == value {
            assert(t[at] == x);
        }
        if s.contains(x) {
            let j = choose|j: int| 0 <= j < s.len() && s[j] == x;
            if j < at {
                assert(t[j] == x);
            } else {
                assert(t[j + 1] == x);
            }
        }
    }
}

/// What a sequence without repetition holds after the element at `at` is taken
/// out.
pub proof fn lemma_remove_contains<T>(s: Seq<T>, at: int)
    requires
        0 <= at < s.len(),
        s.no_duplicates(),
    ensures
        forall|x: T| s.remove(at).contains(x) <==> (x != s[at] && s.contains(x)),
{
    let t = s.remove(at);
    assert forall|x: T| t.contains(x) <==> (x != s[at] && s.contains(x)) by {
        if t.contains(x) {
            let j = choose|j: int| 0 <= j < t.len() && t[j] == x;
            if j < at {
                assert(s[j] == x);
            } else {
                assert(s[j + 1] == x);
            }
        }
        if x != s[at] && s.contains(x) {
            let j = choose|j: int| 0 <= j < s.len() && s[j] == x;
            if j < at {
                assert(t[j] == x);
            } else {
                assert(t[j - 1] == x);
            }
        }
    }
}

/// Two ascending sequences that hold the same elements are the same sequence.
pub proof fn lemma_ascending_unique<K: Ordered>(a: Seq<K>, b: Seq<K>)
    requires
        ascending(a),
        ascending(b),
        forall|x: K| a.contains(x) <==> b.contains(x),
    ensures
        a == b,
    decreases a.len(),
{
    if a.len() == 0 {
        if b.len() > 0 {
            assert(b.contains(b[0]));
        }
        assert(a =~= b);
    } else if b.len() == 0 {
        assert(a.contains(a[0]));
    } else {
        assert(a.contains(a[0]));
        assert(b.contains(b[0]));
        let j = choose|j: int| 0 <= j < b.len() && b[j] == a[0];
        let i = choose|i: int| 0 <= i < a.len() && a[i] == b[0];
        K::lemma_order(a[0], b[0], a[0]);
        if i > 0 {
            assert(a[0].before(a[i]));
        }
        if j > 0 {
            assert(b[0].before(b[j]));
        }
        assert(a[0] == b[0]);
        let ta = a.subrange(1, a.len() as int);
        let tb = b.subrange(1, b.len() as int);
        assert(ascending(ta)) by {
            assert forall|i: int, j: int| 0 <= i < j < ta.len() implies ta[i].before(ta[j]) by {
                assert(a[i + 1].before(a[j + 1]));
            }
        }
        assert(ascending(tb)) by {
            assert forall|i: int, j: int| 0 <= i < j < tb.len() implies tb[i].before(tb[j]) by {
                assert(b[i + 1].before(b[j + 1]));
            }
        }
        assert forall|x: K| ta.contains(x) <==> tb.contains(x) by {
            if ta.contains(x) {
                let k = choose|k: int| 0 <= k < ta.len() && ta[k] == x;
                assert(a[k + 1] == x);
                assert(a[0].before(a[k + 1]));
                assert(a.contains(x));
                let m = choose|m: int| 0 <= m < b.len() && b[m] == x;
                K::lemma_order(x, x, x);
                assert(m != 0);
                assert(tb[m - 1] == x);
            }
            if tb.contains(x) {
                let k = choose|k: int| 0 <= k < tb.len() && tb[k] == x;
                assert(b[k + 1] == x);
                assert(b[0].before(b[k + 1]));
                assert(b.contains(x));
                let m = choose|m: int| 0 <= m < a.len() && a[m] == x;
                K::lemma_order(x, x, x);
                assert(m != 0);
                assert(ta[m - 1] == x);
            }
        }
        lemma_ascending_unique(ta, tb);
        assert(a =~= seq![a[0]] + ta);
        assert(b =~= seq![b[0]] + tb);
    }
}

/// Finds `key` in the ascending vector `keys`: whether it is there, and the index
/// at which it stands or would have to be put in.
pub fn locate<K: Ordered>(keys: &Vec<K>, key: &K) -> (found: (bool, usize))
    requires
        ascending(keys@),
    ensures
        found.1 <= keys.len(),
        found.0 ==> found.1 < keys.len() && keys@[found.1 as int] == *key,
        found.0 == keys@.contains(*key),
        forall|i: int| 0 <= i < found.1 ==> (#[trigger] keys@[i]).before(*key),
        forall|i: int| found.1 <= i < keys.len() && !(found.0 && i == found.1) ==> key.before(#[trigger] keys@[i]),
{
    let mut low: usize = 0;
    let mut high: usize = keys.len();
    while low < high
        invariant
            ascending(keys@),
            low <= high <= keys.len(),
            forall|i: int| 0 <= i < low ==> (#[trigger] keys@[i]).before(*key),
            forall|i: int| high <= i < keys.len() ==> key.before(#[trigger] keys@[i]),
        decreases high - low,
    {
        let middle: usize = low + (high - low) / 2;
        let probe = keys[middle];
        if probe.equals(key) {
            proof {
                assert forall|i: int| 0 <= i < middle implies (#[trigger] keys@[i]).before(
                    *key,
                ) by {
                    assert(keys@[i].before(keys@[middle as int]));
                }
                assert forall|i: int| middle < i < keys.len() implies key.before(
                    #[trigger] keys@[i],
                ) by {
                    assert(keys@[middle as int].before(keys@[i]));
                }
            }
            return (true, middle);
        } else if probe.comes_before(key) {
            proof {
                assert forall|i: int| 0 <= i < middle + 1 implies (#[trigger] keys@[i]).before(
                    *key,
                ) by {
                    if i < middle {
                        assert(keys@[i].before(keys@[middle as int]));
                        K::lemma_order(keys@[i], probe, *key);
                    }
                }
            }
            low = middle + 1;
        } else {
            proof {
                K::lemma_order(probe, *key, probe);
                assert forall|i: int| middle <= i < keys.len() implies key.before(
                    #[trigger] keys@[i],
                ) by {
                    if i > middle {
                        assert(keys@[middle as int].before(keys@[i]));
                        K::lemma_order(*key, probe, keys@[i]);
                    }
                }
            }
            high = middle;
        }
    }
    proof {
        if keys@.contains(*key) {
            let i = choose|i: int| 0 <= i < keys.len() && keys@[i] == *key;
            K::lemma_order(*key, *key, *key);
            assert(false);
        }
    }
    (false, low)
}

/// Copies a vector of plain values.
pub fn copy_vec<T: Copy>(source: &Vec<T>) -> (copy: Vec<T>)
    ensures
        copy@ == source@,
{
    let mut copy: Vec<T> = Vec::with_capacity(source.len());
    let mut i: usize = 0;
    while i < source.len()
        invariant
            i <= source.len(),
            copy@ == source@.subrange(0, i as int),
        decreases source.len() - i,
    {
        copy.push(source[i]);
        i += 1;
        assert(copy@ =~= source@.subrange(0, i as int));
    }
    assert(source@.subrange(0, source.len() as int) =~= source@);
    copy
}

/// A finite set of keys, held in ascending order.
#[derive(Clone, Debug, PartialEq, Eq, Hash)]
pub struct SortedSet<K: Ordered> {
    items: Vec<K>,
}

impl<K: Ordered> View for SortedSet<K> {
    type V = Set<K>;

    open spec fn view(&self) -> Set<K> {
        self.elements().to_set()
    }
}

impl<K: Ordered> SortedSet<K> {
    /// The keys in ascending order.
    pub closed spec fn elements(&self) -> Seq<K> {
        self.items@
    }

    /// The keys stand in strictly ascending order.
    pub open spec fn wf(&self) -> bool {
        ascending(self.elements())
    }

    /// A well-formed set holds each key once, so its size is the length of
    /// `elements`.
    pub proof fn lemma_size(&self)
        requires
            self.wf(),
        ensures
            self.elements().no_duplicates(),
            self@.finite(),
            self@.len() == self.elements().len(),
    {
        lemma_ascending_distinct(self.elements());
        self.elements().unique_seq_to_set();
    }

    /// Well-formed sets with the same members have the same `elements`.
    pub proof fn lemma_same(&self, other: &Self)
        requires
            self.wf(),
            other.wf(),
            self@ == other@,
        ensures
            self.elements() == other.elements(),
    {
        assert forall|x: K| self.elements().contains(x) <==> other.elements().contains(x) by {
            assert(self.elements().to_set().contains(x) <==> self.elements().contains(x));
            assert(other.elements().to_set().contains(x) <==> other.elements().contains(x));
        }
        lemma_ascending_unique(self.elements(), other.elements());
    }

    pub fn new() -> (set: Self)
        ensures
            set.wf(),
            set@ == Set::<K>::empty(),
            set.elements() == Seq::<K>::empty(),
    {
        let set = SortedSet { items: Vec::new() };
        assert(set.elements().to_set() =~= Set::<K>::empty());
        set
    }

    pub fn len(&self) -> (n: usize)
        ensures
            n == self.elements().len(),
    {
        self.items.len()
    }

    pub fn is_empty(&self) -> (b: bool)
        ensures
            b == (self.elements().len() == 0),
            b == (self@ == Set::<K>::empty()),
    {
        proof {
            if self.items@.len() > 0 {
                assert(self@.contains(self.items@[0]));
            } else {
                assert(self@ =~= Set::<K>::empty());
            }
        }
        self.items.len() == 0
    }

    /// The key at `index` in ascending order.
    pub fn get(&self, index: usize) -> (key: K)
        requires
            index < self.elements().len(),
        ensures
            key == self.elements()[index as int],
            self@.contains(key),
    {
        self.items[index]
    }

    pub fn contains(&self, key: &K) -> (b: bool)
        requires
            self.wf(),
        ensures
            b == self@.contains(*key),
    {
        locate(&self.items, key).0
    }

    /// Adds `key`. Returns whether the set did not hold it before.
    pub fn insert(&mut self, key: K) -> (added: bool)
        requires
            old(self).wf(),
        ensures
            final(self).wf(),
            final(self)@ == old(self)@.insert(key),
            added == !old(self)@.contains(key),
            final(self).elements().len() == old(self).elements().len() + (if added {
                1int
            } else {
                0int
            }),
    {
        let (found, at) = locate(&self.items, &key);
        if found {
            assert(self@ =~= self@.insert(key));
            false
        } else {
            let ghost before = self.items@;
            self.items.insert(at, key);
            proof {
                let after = self.items@;
                assert(after == before.insert(at as int, key));
                lemma_insert_contains(before, at as int, key);
                assert(after.to_set() =~= before.to_set().insert(key));
                assert forall|i: int, j: int| 0 <= i < j < after.len() implies after[i].before(
                    after[j],
                ) by {
                    if j < at {
                        assert(before[i].before(before[j]));
                    } else if j == at {
                        assert(before[i].before(key));
                    } else if i < at {
                        assert(before[i].before(before[j - 1]));
                    } else if i == at {
                        assert(key.before(before[j - 1]));
                    } else {
                        assert(before[i - 1].before(before[j - 1]));
                    }
                }
            }
            true
        }
    }

    /// Takes `key` out. Returns whether the set held it.
    pub fn remove(&mut self, key: &K) -> (removed: bool)
        requires
            old(self).wf(),
        ensures
            final(self).wf(),
            final(self)@ == old(self)@.remove(*key),
            removed == old(self)@.contains(*key),
            final(self).elements().len() == old(self).elements().len() - (if removed {
                1int
            } else {
                0int
            }),
    {
        let (found, at) = locate(&self.items, key);
        if found {
            let ghost before = self.items@;
            self.items.remove(at);
            proof {
                let after = self.items@;
                assert(after == before.remove(at as int));
                lemma_ascending_distinct(before);
                lemma_remove_contains(before, at as int);
                assert(after.to_set() =~= before.to_set().remove(*key));
                assert forall|i: int, j: int| 0 <= i < j < after.len() implies after[i].before(
                    after[j],
                ) by {
                    if j < at {
                        assert(before[i].before(before[j]));
                    } else if i < at {
                        assert(before[i].before(before[j + 1]));
                    } else {
                        assert(before[i + 1].before(before[j + 1]));
                    }
                }
            }
            true
        } else {
            assert(self@ =~= self@.remove(*key));
            false
        }
    }

    /// A copy of this set.
    pub fn copy(&self) -> (set: Self)
        ensures
            set.elements() == self.elements(),
            set@ == self@,
            set.wf() == self.wf(),
    {
        SortedSet { items: copy_vec(&self.items) }
    }

    /// The keys in ascending order, as they are held.
    pub fn as_vec(&self) -> (keys: &Vec<K>)
        ensures
            keys@ == self.elements(),
    {
        &self.items
    }

    /// The keys in ascending order.
    pub fn to_vec(&self) -> (keys: Vec<K>)
        ensures
            keys@ == self.elements(),
    {
        copy_vec(&self.items)
    }

    /// Whether both sets hold the same keys.
    pub fn same_as(&self, other: &Self) -> (b: bool)
        requires
            self.wf(),
            other.wf(),
        ensures
            b == (self@ == other@),
            b == (self.elements() == other.elements()),
    {
        proof {
            if self@ == other@ {
                self.lemma_same(other);
            }
        }
        if self.items.len() != other.items.len() {
            return false;
        }
        let mut i: usize = 0;
        while i < self.items.len()
            invariant
                i <= self.items.len(),
                self.items.len() == other.items.len(),
                self@ == other@ ==> self.items@ == other.items@,
                forall|j: int| 0 <= j < i ==> self.items@[j] == other.items@[j],
            decreases self.items.len() - i,
        {
            if !self.items[i].equals(&other.items[i]) {
                return false;
            }
            i += 1;
        }
        assert(self.items@ =~= other.items@);
        true
    }
}

/// A finite map, held in ascending order of its keys.
#[derive(Clone, Debug, PartialEq, Eq, Hash)]
pub struct SortedMap<K: Ordered, V> {
    keys: Vec<K>,
    values: Vec<V>,
}

impl<K: Ordered, V> View for SortedMap<K, V> {
    type V = Map<K, V>;

    open spec fn view(&self) -> Map<K, V> {
        Map::new(
            |k: K| self.key_seq().contains(k),
            |k: K| self.value_seq()[self.key_seq().index_of(k)],
        )
    }
}

impl<K: Ordered, V: Copy> SortedMap<K, V> {
    /// A copy of this map.
    pub fn copy(&self) -> (map: Self)
        ensures
            map.key_seq() == self.key_seq(),
            map.value_seq() == self.value_seq(),
            map@ == self@,
            map.wf() == self.wf(),
    {
        SortedMap { keys: copy_vec(&self.keys), values: copy_vec(&self.values) }
    }
}

impl<K: Ordered, V> SortedMap<K, V> {
    /// The keys in ascending order.
    pub closed spec fn key_seq(&self) -> Seq<K> {
        self.keys@
    }

    /// The values, each at the index of its key.
    pub closed spec fn value_seq(&self) -> Seq<V> {
        self.values@
    }

    /// The keys stand in strictly ascending order, one value for each.
    pub open spec fn wf(&self) -> bool {
        ascending(self.key_seq()) && self.key_seq().len() == self.value_seq().len()
    }

    /// In a well-formed map the key at index `i` maps to the value at index `i`.
    pub proof fn lemma_entry(&self, i: int)
        requires
            self.wf(),
            0 <= i < self.key_seq().len(),
        ensures
            self@.contains_key(self.key_seq()[i]),
            self@[self.key_seq()[i]] == self.value_seq()[i],
    {
        lemma_ascending_distinct(self.key_seq());
        let k = self.key_seq()[i];
        assert(self.key_seq().contains(k));
        let j = self.key_seq().index_of(k);
        assert(self.key_seq()[j] == k);
    }

    /// A well-formed map has as many keys as `key_seq` is long.
    pub proof fn lemma_size(&self)
        requires
            self.wf(),
        ensures
            self.key_seq().no_duplicates(),
            self@.dom() == self.key_seq().to_set(),
            self@.dom().finite(),
            self@.dom().len() == self.key_seq().len(),
    {
        lemma_ascending_distinct(self.key_seq());
        self.key_seq().unique_seq_to_set();
        assert(self@.dom() =~= self.key_seq().to_set());
    }

    pub fn new() -> (map: Self)
        ensures
            map.wf(),
            map@ == Map::<K, V>::empty(),
            map.key_seq().len() == 0,
    {
        let map = SortedMap { keys: Vec::new(), values: Vec::new() };
        assert(map@ =~= Map::<K, V>::empty());
        map
    }

    pub fn len(&self) -> (n: usize)
        ensures
            n == self.key_seq().len(),
    {
        self.keys.len()
    }

    /// The key at `index` in ascending order.
    pub fn key_at(&self, index: usize) -> (key: K)
        requires
            self.wf(),
            index < self.key_seq().len(),
        ensures
            key == self.key_seq()[index as int],
            self@.contains_key(key),
    {
        proof {
            self.lemma_entry(index as int);
        }
        self.keys[index]
    }

    /// The value of the key at `index` in ascending order.
    pub fn value_at(&self, index: usize) -> (value: &V)
        requires
            self.wf(),
            index < self.key_seq().len(),
        ensures
            *value == self.value_seq()[index as int],
            *value == self@[self.key_seq()[index as int]],
    {
        proof {
            self.lemma_entry(index as int);
        }
        &self.values[index]
    }

    pub fn contains_key(&self, key: &K) -> (b: bool)
        requires
            self.wf(),
        ensures
            b == self@.contains_key(*key),
    {
        locate(&self.keys, key).0
    }

    pub fn get(&self, key: &K) -> (value: Option<&V>)
        requires
            self.wf(),
        ensures
            match value {
                Some(v) => self@.contains_key(*key) && self@[*key] == *v,
                None => !self@.contains_key(*key),
            },
    {
        let (found, at) = locate(&self.keys, key);
        if found {
            proof {
                self.lemma_entry(at as int);
            }
            Some(&self.values[at])
        } else {
            None
        }
    }

    /// Maps `key` to `value`, in place of what it was mapped to before.
    pub fn insert(&mut self, key: K, value: V)
        requires
            old(self).wf(),
        ensures
            final(self).wf(),
            final(self)@ == old(self)@.insert(key, value),
            final(self).key_seq().len() == old(self).key_seq().len() + (if old(
                self,
            )@.contains_key(key) {
                0int
            } else {
                1int
            }),
    {
        let (found, at) = locate(&self.keys, &key);
        let ghost keys_before = self.keys@;
        let ghost values_before = self.values@;
        let ghost map_before = self@;
        if found {
            self.values[at] = value;
            proof {
                lemma_ascending_distinct(keys_before);
                assert forall|k: K| self.key_seq().contains(k) implies #[trigger] self@[k] == map_before.insert(
                    key,
                    value,
                )[k] by {
                    let j = keys_before.index_of(k);
                    assert(keys_before[j] == k);
                }
                assert(self@ =~= map_before.insert(key, value));
            }
        } else {
            self.keys.insert(at, key);
            self.values.insert(at, value);
            proof {
                let keys_after = self.keys@;
                let values_after = self.values@;
                lemma_insert_contains(keys_before, at as int, key);
                assert forall|i: int, j: int| 0 <= i < j < keys_after.len() implies keys_after[i].before(
                    keys_after[j],
                ) by {
                    if j < at {
                        assert(keys_before[i].before(keys_before[j]));
                    } else if j == at {
                        assert(keys_before[i].before(key));
                    } else if i < at {
                        assert(keys_before[i].before(keys_before[j - 1]));
                    } else if i == at {
                        assert(key.before(keys_before[j - 1]));
                    } else {
                        assert(keys_before[i - 1].before(keys_before[j - 1]));
                    }
                }
                lemma_ascending_distinct(keys_before);
                lemma_ascending_distinct(keys_after);
                assert forall|k: K| keys_after.contains(k) implies #[trigger] self@[k] == map_before.insert(
                    key,
                    value,
                )[k] by {
                    let j = keys_after.index_of(k);
                    assert(keys_after[j] == k);
                    if k != key {
                        let m = keys_before.index_of(k);
                        assert(keys_before[m] == k);
                        if m < at {
                            assert(keys_after[m] == k);
                        } else {
                            assert(keys_after[m + 1] == k);
                        }
                    } else {
                        assert(keys_after[at as int] == k);
                    }
                }
                assert(self@ =~= map_before.insert(key, value));
            }
        }
    }
}

} // verus!
