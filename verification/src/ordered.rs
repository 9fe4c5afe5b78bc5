//! Sets and maps kept in the order of their keys.
//!
//! The order is part of what a collection is: walking one visits its keys
//! from first to last, however they were put in.
use vstd::prelude::*;

verus! {

/// A type whose values are told apart and put in order by a key.
pub trait Ordered: Sized {
    /// The mathematical value that orders and identifies.
    type Key;

    /// The key of this value.
    spec fn key(&self) -> Self::Key;

    /// `a` comes strictly before `b`.
    spec fn before(a: Self::Key, b: Self::Key) -> bool;

    /// No key comes before itself.
    proof fn before_irreflexive(a: Self::Key)
        ensures
            !Self::before(a, a),
    ;

    /// The order is transitive.
    proof fn before_transitive(a: Self::Key, b: Self::Key, c: Self::Key)
        requires
            Self::before(a, b),
            Self::before(b, c),
        ensures
            Self::before(a, c),
    ;

    /// Of two different keys one comes first.
    proof fn before_total(a: Self::Key, b: Self::Key)
        requires
            a != b,
        ensures
            Self::before(a, b) || Self::before(b, a),
    ;

    /// Whether this value's key comes strictly before `other`'s.
    fn precedes(&self, other: &Self) -> (r: bool)
        ensures
            r == Self::before(self.key(), other.key()),
    ;

    /// A second value with the same key.
    fn duplicate(&self) -> (r: Self)
        ensures
            r.key() == self.key(),
    ;
}

/// Whether two values have the same key.
pub fn same_key<T: Ordered>(a: &T, b: &T) -> (r: bool)
    ensures
        r == (a.key() == b.key()),
{
    proof {
        T::before_irreflexive(a.key());
        if a.key() != b.key() {
            T::before_total(a.key(), b.key());
        }
    }
    !a.precedes(b) && !b.precedes(a)
}

/// The keys of `items`, in sequence.
pub open spec fn keys_of<T: Ordered>(items: Seq<T>) -> Seq<T::Key> {
    items.map_values(|t: T| t.key())
}

/// Every item comes strictly before the ones after it.
pub open spec fn ascending<T: Ordered>(items: Seq<T>) -> bool {
    forall|i: int, j: int|
        0 <= i < j < items.len() ==> T::before(#[trigger] items[i].key(), #[trigger] items[j].key())
}

/// A set kept in the order of its keys.
#[derive(Debug, PartialEq, Eq, Hash)]
pub struct OrdSet<T: Ordered> {
    items: Vec<T>,
}

impl<T: Ordered> View for OrdSet<T> {
    type V = Set<T::Key>;

    closed spec fn view(&self) -> Set<T::Key> {
        keys_of(self.items@).to_set()
    }
}

impl<T: Ordered> OrdSet<T> {
    #[verifier::type_invariant]
    spec fn sorted(self) -> bool {
        ascending(self.items@)
    }

    /// The empty set.
    pub fn new() -> (r: Self)
        ensures
            r@ == Set::<T::Key>::empty(),
    {
        let r = OrdSet { items: Vec::new() };
        assert(r@ =~= Set::<T::Key>::empty());
        r
    }

    /// A set has finitely many items.
    pub proof fn lemma_finite(&self)
        ensures
            self@.finite(),
    {
        vstd::seq_lib::seq_to_set_is_finite(keys_of(self.items@));
    }

    /// The items of the set, in order.
    pub fn as_slice(&self) -> (r: &[T])
        ensures
            ascending(r@),
            keys_of(r@).to_set() == self@,
            r@.len() == self@.len(),
    {
        proof {
            use_type_invariant(self);
            lemma_ascending_distinct(self.items@);
            keys_of(self.items@).unique_seq_to_set();
        }
        self.items.as_slice()
    }

    /// How many items the set has.
    pub fn len(&self) -> (r: usize)
        ensures
            r == self@.len(),
    {
        self.as_slice().len()
    }

    /// Whether the set has no items.
    pub fn is_empty(&self) -> (r: bool)
        ensures
            r == (self@ == Set::<T::Key>::empty()),
    {
        proof {
            if self.items@.len() > 0 {
                assert(keys_of(self.items@)[0] == self.items@[0].key());
                assert(self@.contains(self.items@[0].key()));
            } else {
                assert(self@ =~= Set::<T::Key>::empty());
            }
        }
        self.items.len() == 0
    }

    /// Whether the set has an item with the key of `x`.
    pub fn contains(&self, x: &T) -> (r: bool)
        ensures
            r == self@.contains(x.key()),
    {
        for i in 0..self.items.len()
            invariant
                forall|j: int| 0 <= j < i ==> (#[trigger] self.items@[j]).key() != x.key(),
        {
            if same_key(&self.items[i], x) {
                assert(keys_of(self.items@)[i as int] == x.key());
                return true;
            }
        }
        proof {
            if self@.contains(x.key()) {
                let j = choose|j: int|
                    0 <= j < keys_of(self.items@).len() && keys_of(self.items@)[j] == x.key();
                assert(self.items@[j].key() == x.key());
            }
        }
        false
    }

    /// Puts `x` in, unless its key is there already; says whether it was put in.
    pub fn insert(&mut self, x: T) -> (r: bool)
        ensures
            final(self)@ == old(self)@.insert(x.key()),
            r == !old(self)@.contains(x.key()),
    {
        proof {
            use_type_invariant(&*self);
        }
        if self.contains(&x) {
            assert(self@.insert(x.key()) =~= self@);
            return false;
        }
        let mut items: Vec<T> = Vec::new();
        core::mem::swap(&mut self.items, &mut items);
        let ghost before = items@;
        let mut at: usize = 0;
        while at < items.len() && items[at].precedes(&x)
            invariant
                at <= items@.len(),
                items@ == before,
                forall|j: int| 0 <= j < at ==> T::before((#[trigger] items@[j]).key(), x.key()),
            decreases items@.len() - at,
        {
            at = at + 1;
        }
        proof {
            assert forall|j: int| at <= j < before.len() implies T::before(
                x.key(),
                (#[trigger] before[j]).key(),
            ) by {
                assert(keys_of(before)[at as int] == before[at as int].key());
                assert(keys_of(before).to_set().contains(before[at as int].key()));
                T::before_total(x.key(), before[at as int].key());
                if j > at {
                    T::before_transitive(x.key(), before[at as int].key(), before[j].key());
                }
            }
        }
        items.insert(at, x);
        proof {
            assert(items@ == before.insert(at as int, x));
            lemma_keys_insert(before, at as int, x);
        }
        *self = OrdSet { items };
        true
    }
}

impl<T: Ordered> OrdSet<T> {
    /// The set of the keys of `items`.
    pub fn from_vec(items: Vec<T>) -> (r: Self)
        ensures
            r@ == keys_of(items@).to_set(),
    {
        let mut out: OrdSet<T> = OrdSet::new();
        proof {
            assert(keys_of(items@.take(0)).to_set() =~= Set::<T::Key>::empty());
        }
        for i in 0..items.len()
            invariant
                out@ == keys_of(items@.take(i as int)).to_set(),
        {
            out.insert(items[i].duplicate());
            proof {
                lemma_keys_take(items@, i as int);
            }
        }
        assert(items@.take(items@.len() as int) == items@);
        out
    }

    /// The first item of the set.
    pub fn first(&self) -> (r: Option<&T>)
        ensures
            match r {
                None => self@ == Set::<T::Key>::empty(),
                Some(x) => self@.contains(x.key()) && forall|k: T::Key|
                    #[trigger] self@.contains(k) && k != x.key() ==> T::before(x.key(), k),
            },
    {
        if self.is_empty() {
            return None;
        }
        let items = self.as_slice();
        proof {
            if items@.len() == 0 {
                assert(self@ =~= Set::<T::Key>::empty());
            }
            assert(keys_of(items@)[0] == items@[0].key());
            assert forall|k: T::Key| #[trigger]
                self@.contains(k) && k != items@[0].key() implies T::before(items@[0].key(), k) by {
                let j = choose|j: int| 0 <= j < keys_of(items@).len() && keys_of(items@)[j] == k;
                assert(items@[j].key() == k);
            }
        }
        Some(&items[0])
    }

    /// The items that both sets have.
    pub fn intersection(&self, other: &Self) -> (r: Self)
        ensures
            r@ == self@.intersect(other@),
    {
        let items = self.as_slice();
        let mut out: OrdSet<T> = OrdSet::new();
        proof {
            assert(keys_of(items@.take(0)).to_set().intersect(other@) =~= Set::<T::Key>::empty());
        }
        for i in 0..items.len()
            invariant
                out@ == keys_of(items@.take(i as int)).to_set().intersect(other@),
        {
            proof {
                lemma_keys_take(items@, i as int);
            }
            if other.contains(&items[i]) {
                out.insert(items[i].duplicate());
            }
            assert(out@ =~= keys_of(items@.take(i + 1)).to_set().intersect(other@));
        }
        assert(items@.take(items@.len() as int) == items@);
        out
    }

    /// The items that either set has.
    pub fn union(&self, other: &Self) -> (r: Self)
        ensures
            r@ == self@.union(other@),
    {
        let items = self.as_slice();
        let mut out: OrdSet<T> = other.clone();
        proof {
            assert(keys_of(items@.take(0)).to_set().union(other@) =~= other@);
        }
        for i in 0..items.len()
            invariant
                out@ == keys_of(items@.take(i as int)).to_set().union(other@),
        {
            proof {
                lemma_keys_take(items@, i as int);
            }
            out.insert(items[i].duplicate());
            assert(out@ =~= keys_of(items@.take(i + 1)).to_set().union(other@));
        }
        assert(items@.take(items@.len() as int) == items@);
        out
    }

    /// Whether `other` has every item of this set.
    pub fn is_subset(&self, other: &Self) -> (r: bool)
        ensures
            r == self@.subset_of(other@),
    {
        let items = self.as_slice();
        for i in 0..items.len()
            invariant
                keys_of(items@).to_set() == self@,
                forall|j: int| 0 <= j < i ==> other@.contains((#[trigger] items@[j]).key()),
        {
            if !other.contains(&items[i]) {
                assert(keys_of(items@)[i as int] == items@[i as int].key());
                assert(self@.contains(items@[i as int].key()));
                return false;
            }
        }
        proof {
            assert forall|k: T::Key| #[trigger] self@.contains(k) implies other@.contains(k) by {
                let j = choose|j: int| 0 <= j < keys_of(items@).len() && keys_of(items@)[j] == k;
                assert(items@[j].key() == k);
            }
        }
        true
    }

    /// Whether both sets have the same items.
    pub fn same(&self, other: &Self) -> (r: bool)
        ensures
            r == (self@ == other@),
    {
        let r = self.is_subset(other) && other.is_subset(self);
        assert(r ==> self@ =~= other@);
        r
    }
}

impl<T: Ordered> Clone for OrdSet<T> {
    fn clone(&self) -> (r: Self)
        ensures
            r@ == self@,
    {
        let items = self.as_slice();
        let mut out: OrdSet<T> = OrdSet::new();
        proof {
            assert(keys_of(items@.take(0)).to_set() =~= Set::<T::Key>::empty());
        }
        for i in 0..items.len()
            invariant
                out@ == keys_of(items@.take(i as int)).to_set(),
        {
            out.insert(items[i].duplicate());
            proof {
                lemma_keys_take(items@, i as int);
            }
        }
        assert(items@.take(items@.len() as int) == items@);
        out
    }
}

/// A map kept in the order of its keys.
#[derive(Debug, PartialEq, Eq, Hash)]
pub struct OrdMap<K: Ordered, V> {
    names: Vec<K>,
    entries: Vec<V>,
}

impl<K: Ordered, V> View for OrdMap<K, V> {
    type V = Map<K::Key, V>;

    closed spec fn view(&self) -> Map<K::Key, V> {
        Map::new(
            |k: K::Key| keys_of(self.names@).contains(k),
            |k: K::Key| self.entries@[keys_of(self.names@).index_of(k)],
        )
    }
}

impl<K: Ordered, V> OrdMap<K, V> {
    #[verifier::type_invariant]
    spec fn sorted(self) -> bool {
        ascending(self.names@) && self.names@.len() == self.entries@.len()
    }

    /// The empty map.
    pub fn new() -> (r: Self)
        ensures
            r@ == Map::<K::Key, V>::empty(),
    {
        let r: OrdMap<K, V> = OrdMap { names: Vec::new(), entries: Vec::new() };
        assert(r@ =~= Map::<K::Key, V>::empty());
        r
    }

    /// The keys of the map, in order.
    pub fn keys(&self) -> (r: &[K])
        ensures
            ascending(r@),
            keys_of(r@).to_set() == self@.dom(),
            r@ == self.key_seq(),
            r@.len() == self@.dom().len(),
    {
        proof {
            use_type_invariant(self);
            lemma_ascending_distinct(self.names@);
            keys_of(self.names@).unique_seq_to_set();
            assert(keys_of(self.names@).to_set() =~= self@.dom());
        }
        self.names.as_slice()
    }

    /// The values of the map, in the order of their keys.
    pub fn values(&self) -> (r: &[V])
        ensures
            r@.len() == self.key_seq().len(),
            forall|i: int|
                0 <= i < r@.len() ==> #[trigger] r@[i] == self@[self.key_seq()[i].key()],
    {
        proof {
            use_type_invariant(self);
            lemma_ascending_distinct(self.names@);
            assert forall|i: int| 0 <= i < self.entries@.len() implies #[trigger] self.entries@[i]
                == self@[self.names@[i].key()] by {
                assert(keys_of(self.names@)[i] == self.names@[i].key());
            }
        }
        self.entries.as_slice()
    }

    /// The keys of the map, in order.
    pub closed spec fn key_seq(&self) -> Seq<K> {
        self.names@
    }

    /// How many entries the map has.
    pub fn len(&self) -> (r: usize)
        ensures
            r == self@.dom().len(),
            r == self.key_seq().len(),
    {
        proof {
            use_type_invariant(self);
            lemma_ascending_distinct(self.names@);
            keys_of(self.names@).unique_seq_to_set();
            assert(keys_of(self.names@).to_set() =~= self@.dom());
        }
        self.names.len()
    }

    fn find(&self, k: &K) -> (r: Option<usize>)
        ensures
            match r {
                Some(i) => i < self.names@.len() && self.names@[i as int].key() == k.key(),
                None => !keys_of(self.names@).contains(k.key()),
            },
    {
        for i in 0..self.names.len()
            invariant
                forall|j: int| 0 <= j < i ==> (#[trigger] self.names@[j]).key() != k.key(),
        {
            if same_key(&self.names[i], k) {
                return Some(i);
            }
        }
        proof {
            if keys_of(self.names@).contains(k.key()) {
                let j = choose|j: int|
                    0 <= j < keys_of(self.names@).len() && keys_of(self.names@)[j] == k.key();
                assert(self.names@[j].key() == k.key());
            }
        }
        None
    }

    /// The value under the key of `k`.
    pub fn get(&self, k: &K) -> (r: Option<&V>)
        ensures
            match r {
                Some(v) => self@.contains_key(k.key()) && *v == self@[k.key()],
                None => !self@.contains_key(k.key()),
            },
    {
        proof {
            use_type_invariant(self);
            lemma_ascending_distinct(self.names@);
        }
        match self.find(k) {
            Some(i) => {
                assert(keys_of(self.names@)[i as int] == k.key());
                Some(&self.entries[i])
            },
            None => None,
        }
    }

    /// Puts `v` under the key of `k`, in place of what was there.
    pub fn insert(&mut self, k: K, v: V)
        ensures
            final(self)@ == old(self)@.insert(k.key(), v),
    {
        proof {
            use_type_invariant(&*self);
            lemma_ascending_distinct(self.names@);
        }
        let found = self.find(&k);
        let mut whole: OrdMap<K, V> = OrdMap::new();
        core::mem::swap(self, &mut whole);
        let OrdMap { mut names, mut entries } = whole;
        let ghost names0 = names@;
        match found {
            Some(i) => {
                entries[i] = v;
                *self = OrdMap { names, entries };
                proof {
                    assert(keys_of(names0)[i as int] == k.key());
                    assert forall|key: K::Key| keys_of(names0).contains(key) && key
                        != k.key() implies keys_of(names0).index_of(key) != i by {};
                    assert(self@ =~= old(self)@.insert(k.key(), v));
                }
            },
            None => {
                let mut at: usize = 0;
                while at < names.len() && names[at].precedes(&k)
                    invariant
                        at <= names@.len(),
                        names@ == names0,
                        forall|j: int|
                            0 <= j < at ==> K::before((#[trigger] names@[j]).key(), k.key()),
                    decreases names@.len() - at,
                {
                    at = at + 1;
                }
                proof {
                    assert forall|j: int| at <= j < names0.len() implies K::before(
                        k.key(),
                        (#[trigger] names0[j]).key(),
                    ) by {
                        assert(keys_of(names0)[at as int] == names0[at as int].key());
                        K::before_total(k.key(), names0[at as int].key());
                        if j > at {
                            K::before_transitive(
                                k.key(),
                                names0[at as int].key(),
                                names0[j].key(),
                            );
                        }
                    }
                }
                let ghost added = k;
                names.insert(at, k);
                entries.insert(at, v);
                *self = OrdMap { names, entries };
                proof {
                    lemma_keys_insert(names0, at as int, added);
                    lemma_ascending_distinct(self.names@);
                    assert forall|key: K::Key| #[trigger] self@.contains_key(key) implies self@[key]
                        == old(self)@.insert(added.key(), v)[key] by {
                        let i = keys_of(self.names@).index_of(key);
                        assert(keys_of(self.names@)[i] == key);
                        if i < at {
                            assert(keys_of(names0)[i] == key);
                        } else if i > at {
                            assert(keys_of(names0)[i - 1] == key);
                        }
                    }
                    assert(keys_of(self.names@).to_set() =~= self@.dom());
                    assert(keys_of(names0).to_set() =~= old(self)@.dom());
                    assert(self@ =~= old(self)@.insert(added.key(), v));
                }
            },
        }
    }
}

impl<K: Ordered, V> OrdMap<K, V> {
    /// Takes out the value under the key of `k`.
    pub fn remove(&mut self, k: &K) -> (r: Option<V>)
        ensures
            final(self)@ == old(self)@.remove(k.key()),
            match r {
                Some(v) => old(self)@.contains_key(k.key()) && v == old(self)@[k.key()],
                None => !old(self)@.contains_key(k.key()),
            },
    {
        proof {
            use_type_invariant(&*self);
            lemma_ascending_distinct(self.names@);
        }
        match self.find(k) {
            None => {
                assert(self@.remove(k.key()) =~= self@);
                None
            },
            Some(at) => {
                let mut whole: OrdMap<K, V> = OrdMap::new();
                core::mem::swap(self, &mut whole);
                let OrdMap { mut names, mut entries } = whole;
                let ghost names0 = names@;
                let ghost entries0 = entries@;
                assert(keys_of(names0)[at as int] == k.key());
                names.remove(at);
                let v = entries.remove(at);
                proof {
                    assert(names@ =~= names0.remove(at as int));
                    assert forall|i: int| 0 <= i < names@.len() implies #[trigger] names@[i]
                        == names0[if i < at {
                        i
                    } else {
                        i + 1
                    }] by {}
                }
                *self = OrdMap { names, entries };
                proof {
                    lemma_ascending_distinct(self.names@);
                    let a = keys_of(self.names@);
                    let b = keys_of(names0);
                    assert forall|key: K::Key| a.contains(key) <==> (b.contains(key) && key
                        != k.key()) by {
                        if b.contains(key) && key != k.key() {
                            let i = b.index_of(key);
                            assert(a[if i < at {
                                i
                            } else {
                                i - 1
                            }] == key);
                        }
                        if a.contains(key) {
                            let i = a.index_of(key);
                            assert(b[if i < at {
                                i
                            } else {
                                i + 1
                            }] == key);
                        }
                    }
                    assert forall|key: K::Key| #[trigger] a.contains(key) implies self.entries@[a.index_of(
                        key,
                    )] == entries0[b.index_of(key)] by {
                        let i = a.index_of(key);
                        let at_b: int = if i < at {
                            i
                        } else {
                            i + 1
                        };
                        assert(b[at_b] == key);
                        assert(b.index_of(key) == at_b);
                    }
                    assert(self@ =~= old(self)@.remove(k.key()));
                }
                Some(v)
            },
        }
    }
}

impl<K: Ordered, V: Clone> Clone for OrdMap<K, V> {
    fn clone(&self) -> (r: Self)
        ensures
            r@.dom() == self@.dom(),
            forall|k: K::Key| #[trigger]
                self@.contains_key(k) ==> cloned::<V>(self@[k], r@[k]),
    {
        proof {
            use_type_invariant(self);
        }
        let mut names: Vec<K> = Vec::new();
        let mut entries: Vec<V> = Vec::new();
        for i in 0..self.names.len()
            invariant
                self.names@.len() == self.entries@.len(),
                names@.len() == i,
                entries@.len() == i,
                forall|j: int| 0 <= j < i ==> (#[trigger] names@[j]).key() == self.names@[j].key(),
                forall|j: int|
                    0 <= j < i ==> cloned::<V>(self.entries@[j], #[trigger] entries@[j]),
        {
            names.push(self.names[i].duplicate());
            entries.push(self.entries[i].clone());
        }
        assert(keys_of(names@) =~= keys_of(self.names@));
        let r = OrdMap { names, entries };
        assert(r@.dom() =~= self@.dom());
        r
    }
}

proof fn lemma_keys_take<T: Ordered>(items: Seq<T>, i: int)
    requires
        0 <= i < items.len(),
    ensures
        keys_of(items.take(i + 1)).to_set() == keys_of(items.take(i)).to_set().insert(
            items[i].key(),
        ),
{
    let head = items.take(i);
    assert(items.take(i + 1) == head.insert(i, items[i]));
    lemma_keys_insert(head, i, items[i]);
}

/// Items in strictly ascending order have different keys.
pub proof fn lemma_ascending_distinct<T: Ordered>(items: Seq<T>)
    requires
        ascending(items),
    ensures
        keys_of(items).no_duplicates(),
{
    assert forall|i: int, j: int|
        0 <= i < j < items.len() implies #[trigger] keys_of(items)[i] != #[trigger] keys_of(
        items,
    )[j] by {
        assert(T::before(items[i].key(), items[j].key()));
        T::before_irreflexive(items[i].key());
    }
}

proof fn lemma_keys_insert<T: Ordered>(items: Seq<T>, at: int, x: T)
    requires
        0 <= at <= items.len(),
    ensures
        keys_of(items.insert(at, x)).to_set() == keys_of(items).to_set().insert(x.key()),
{
    let a = keys_of(items.insert(at, x));
    let b = keys_of(items);
    assert(a == b.insert(at, x.key()));
    assert forall|k: T::Key| a.to_set().contains(k) <==> b.to_set().insert(x.key()).contains(
        k,
    ) by {
        if b.contains(k) {
            let i = choose|i: int| 0 <= i < b.len() && b[i] == k;
            assert(a[if i < at { i } else { i + 1 }] == k);
        }
        assert(a[at] == x.key());
        if a.contains(k) {
            let i = choose|i: int| 0 <= i < a.len() && a[i] == k;
            if i < at {
                assert(b[i] == k);
            } else if i > at {
                assert(b[i - 1] == k);
            }
        }
    }
    assert(a.to_set() =~= b.to_set().insert(x.key()));
}

} // verus!
