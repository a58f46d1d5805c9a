//! Sets and maps kept as lists.
//!
//! Both types hold their elements in a `Vec` and never hold one twice. They are
//! modelled by `Set` and `Map` over the elements' own models, so two sets that list
//! the same elements in different orders have the same model.

use vstd::prelude::*;
#[allow(unused_imports)]
use vstd::std_specs::cmp::PartialEqSpecImpl;

verus! {

/// A value that can be duplicated without changing its model.
pub trait Dup: DeepView + Sized {
    fn dup(&self) -> (r: Self)
        ensures
            r.deep_view() == self.deep_view(),
    ;
}

/// A value that can be compared with another one by its model.
pub trait Entry: Dup {
    fn same(&self, other: &Self) -> (r: bool)
        ensures
            r == (self.deep_view() == other.deep_view()),
    ;
}

impl Dup for String {
    fn dup(&self) -> (r: Self) {
        self.clone()
    }
}

impl Entry for String {
    fn same(&self, other: &Self) -> (r: bool) {
        self.eq(other)
    }
}

impl Dup for u64 {
    fn dup(&self) -> (r: Self) {
        *self
    }
}

impl<T: Dup> Dup for Option<T> {
    fn dup(&self) -> (r: Self) {
        match self {
            Some(t) => Some(t.dup()),
            None => None,
        }
    }
}

impl<T: Dup> Dup for Vec<T> {
    fn dup(&self) -> (r: Self) {
        let mut out: Vec<T> = Vec::new();
        let mut i: usize = 0;
        while i < self.len()
            invariant
                i <= self.len(),
                out.len() == i,
                forall|j: int| 0 <= j < i ==> (#[trigger] out[j]).deep_view() == self[j].deep_view(),
            decreases self.len() - i,
        {
            out.push(self[i].dup());
            i = i + 1;
        }
        assert(out.deep_view() =~= self.deep_view());
        out
    }
}

/// A test on values of type `T`.
pub trait Test<T: DeepView> {
    spec fn passes(&self, x: T::V) -> bool;

    fn test(&self, x: &T) -> (r: bool)
        ensures
            r == self.passes(x.deep_view()),
    ;
}

/// `order` lists every element of `s` exactly once.
pub open spec fn is_listing<A>(order: Seq<A>, s: Set<A>) -> bool {
    &&& order.no_duplicates()
    &&& order.to_set() == s
}

/// A set, kept as a list without repetitions.
#[derive(Debug)]
pub struct ListSet<T: Entry> {
    items: Vec<T>,
}

impl<T: Entry> DeepView for ListSet<T> {
    type V = Set<T::V>;

    open spec fn deep_view(&self) -> Set<T::V> {
        self.listing().to_set()
    }
}

impl<T: Entry> ListSet<T> {
    /// The elements, in the order in which the list holds them.
    pub closed spec fn listing(&self) -> Seq<T::V> {
        self.items.deep_view()
    }

    #[verifier::type_invariant]
    spec fn distinct(&self) -> bool {
        self.items.deep_view().no_duplicates()
    }

    pub fn new() -> (r: Self)
        ensures
            r.deep_view() == Set::<T::V>::empty(),
            r.listing() == Seq::<T::V>::empty(),
    {
        let items: Vec<T> = Vec::new();
        assert(items.deep_view() =~= Seq::<T::V>::empty());
        let r = ListSet { items };
        assert(r.deep_view() =~= Set::<T::V>::empty());
        r
    }

    pub fn len(&self) -> (n: usize)
        ensures
            n == self.listing().len(),
            n == self.deep_view().len(),
            is_listing(self.listing(), self.deep_view()),
            self.deep_view().finite(),
    {
        proof {
            use_type_invariant(self);
            self.listing().unique_seq_to_set();
            vstd::seq_lib::seq_to_set_is_finite(self.listing());
        }
        self.items.len()
    }

    pub fn is_empty(&self) -> (r: bool)
        ensures
            r == (self.deep_view() == Set::<T::V>::empty()),
            r == (self.listing().len() == 0),
    {
        let n: usize = self.len();
        proof {
            if n == 0 {
                assert(self.deep_view() =~= Set::<T::V>::empty());
            }
        }
        n == 0
    }

    /// The element at position `i` of the list.
    pub fn at(&self, i: usize) -> (r: &T)
        requires
            i < self.listing().len(),
        ensures
            r.deep_view() == self.listing()[i as int],
            self.deep_view().contains(r.deep_view()),
    {
        let r = &self.items[i];
        assert(self.listing()[i as int] == r.deep_view());
        r
    }

    /// The position of `x`, if the set holds it.
    fn find(&self, x: &T) -> (r: Option<usize>)
        ensures
            match r {
                Some(i) => i < self.items.len() && self.items[i as int].deep_view() == x.deep_view(),
                None => !self.deep_view().contains(x.deep_view()),
            },
    {
        let mut i: usize = 0;
        while i < self.items.len()
            invariant
                i <= self.items.len(),
                forall|j: int| 0 <= j < i ==> self.listing()[j] != x.deep_view(),
            decreases self.items.len() - i,
        {
            if self.items[i].same(x) {
                return Some(i);
            }
            i = i + 1;
        }
        None
    }

    pub fn contains(&self, x: &T) -> (r: bool)
        ensures
            r == self.deep_view().contains(x.deep_view()),
    {
        match self.find(x) {
            Some(i) => {
                assert(self.listing()[i as int] == x.deep_view());
                true
            },
            None => false,
        }
    }

    /// Adds `x` at the end of the list, unless the set holds it already.
    pub fn insert(&mut self, x: T)
        ensures
            final(self).deep_view() == old(self).deep_view().insert(x.deep_view()),
            final(self).listing() == (if old(self).deep_view().contains(x.deep_view()) {
                old(self).listing()
            } else {
                old(self).listing().push(x.deep_view())
            }),
    {
        proof {
            use_type_invariant(&*self);
        }
        let ghost before = self.listing();
        if self.contains(&x) {
            assert(self.deep_view() =~= self.deep_view().insert(x.deep_view()));
        } else {
            let mut items: Vec<T> = Vec::new();
            std::mem::swap(&mut items, &mut self.items);
            items.push(x);
            proof {
                assert(items.deep_view() =~= before.push(x.deep_view()));
                before.lemma_push_to_set_commute(x.deep_view());
            }
            self.items = items;
        }
    }

    /// Takes `x` out, and says whether the set held it.
    pub fn remove(&mut self, x: &T) -> (r: bool)
        ensures
            r == old(self).deep_view().contains(x.deep_view()),
            final(self).deep_view() == old(self).deep_view().remove(x.deep_view()),
    {
        proof {
            use_type_invariant(&*self);
        }
        let ghost before = self.listing();
        match self.find(x) {
            Some(i) => {
                let mut items: Vec<T> = Vec::new();
                std::mem::swap(&mut items, &mut self.items);
                let _gone = items.remove(i);
                proof {
                    assert(items.deep_view() =~= before.remove(i as int));
                    let after = items.deep_view();
                    assert(before[i as int] == x.deep_view());
                    assert forall|a: T::V| after.contains(a) implies before.to_set().remove(
                        x.deep_view(),
                    ).contains(a) by {
                        let j = choose|j: int| 0 <= j < after.len() && after[j] == a;
                        let k = if j < i { j } else { j + 1 };
                        assert(before[k] == a);
                    }
                    assert forall|a: T::V| before.to_set().remove(x.deep_view()).contains(
                        a,
                    ) implies after.contains(a) by {
                        let j = choose|j: int| 0 <= j < before.len() && before[j] == a;
                        let k = if j < i { j } else { j - 1 };
                        assert(after[k] == a);
                    }
                    assert(after.to_set() =~= before.to_set().remove(x.deep_view()));
                }
                self.items = items;
                true
            },
            None => {
                assert(self.deep_view() =~= self.deep_view().remove(x.deep_view()));
                false
            },
        }
    }

    /// Adds every element of `other`.
    pub fn extend(&mut self, other: &ListSet<T>)
        ensures
            final(self).deep_view() == old(self).deep_view().union(other.deep_view()),
    {
        let ghost before = self.deep_view();
        let mut i: usize = 0;
        while i < other.items.len()
            invariant
                i <= other.items.len(),
                self.deep_view() == before.union(other.listing().take(i as int).to_set()),
            decreases other.items.len() - i,
        {
            self.insert(other.items[i].dup());
            proof {
                let l = other.listing();
                assert(l.take(i + 1) =~= l.take(i as int).push(l[i as int]));
                l.take(i as int).lemma_push_to_set_commute(l[i as int]);
                assert(self.deep_view() =~= before.union(l.take(i + 1).to_set()));
            }
            i = i + 1;
        }
        assert(other.listing().take(i as int) =~= other.listing());
    }

    /// The elements that are not in `other`.
    pub fn minus(&self, other: &ListSet<T>) -> (r: ListSet<T>)
        ensures
            r.deep_view() == self.deep_view().difference(other.deep_view()),
    {
        let ghost l = self.listing();
        let n: usize = self.len();
        let mut r: ListSet<T> = ListSet::new();
        let mut i: usize = 0;
        while i < n
            invariant
                i <= n == l.len(),
                l == self.listing(),
                forall|v: T::V| #[trigger]
                    r.deep_view().contains(v) <==> l.take(i as int).contains(v)
                        && !other.deep_view().contains(v),
            decreases n - i,
        {
            proof {
                lemma_take_contains(l, i as int);
            }
            if !other.contains(self.at(i)) {
                r.insert(self.at(i).dup());
            }
            i = i + 1;
        }
        assert(l.take(i as int) =~= l);
        assert(r.deep_view() =~= self.deep_view().difference(other.deep_view()));
        r
    }

    /// The elements that pass the test, in the order of the list.
    pub fn keep<P: Test<T>>(&self, t: &P) -> (r: ListSet<T>)
        ensures
            r.deep_view() == self.deep_view().filter(|x: T::V| t.passes(x)),
            r.listing() == self.listing().filter(|x: T::V| t.passes(x)),
    {
        let ghost p = |x: T::V| t.passes(x);
        proof {
            use_type_invariant(self);
        }
        let mut r: ListSet<T> = ListSet::new();
        let mut i: usize = 0;
        proof {
            reveal(Seq::filter);
            assert(self.listing().take(0).filter(p) =~= Seq::<T::V>::empty());
        }
        while i < self.items.len()
            invariant
                i <= self.items.len(),
                self.listing().no_duplicates(),
                p == (|x: T::V| t.passes(x)),
                r.listing() == self.listing().take(i as int).filter(p),
            decreases self.items.len() - i,
        {
            let ghost l = self.listing();
            let ghost x = l[i as int];
            proof {
                assert(l.take(i + 1) =~= l.take(i as int).push(x));
                l.take(i as int).lemma_filter_push(x, p);
                if r.deep_view().contains(x) {
                    lemma_filter_sound(l.take(i as int), p);
                    let j = choose|j: int| 0 <= j < i && l.take(i as int)[j] == x;
                    assert(l[j] == l[i as int]);
                    assert(false);
                }
            }
            if t.test(&self.items[i]) {
                r.insert(self.items[i].dup());
            }
            i = i + 1;
        }
        proof {
            assert(self.listing().take(i as int) =~= self.listing());
            lemma_filter_sound(self.listing(), p);
            assert(r.deep_view() =~= self.deep_view().filter(p));
        }
        r
    }
}

impl<T: Entry> ListSet<T> {
    /// Whether each element is in `other`.
    pub fn is_subset(&self, other: &ListSet<T>) -> (r: bool)
        ensures
            r == self.deep_view().subset_of(other.deep_view()),
    {
        let ghost l = self.listing();
        let n: usize = self.len();
        let mut i: usize = 0;
        while i < n
            invariant
                i <= n == l.len(),
                l == self.listing(),
                forall|j: int| 0 <= j < i ==> other.deep_view().contains(#[trigger] l[j]),
            decreases n - i,
        {
            if !other.contains(self.at(i)) {
                assert(self.deep_view().contains(l[i as int]));
                return false;
            }
            i = i + 1;
        }
        assert forall|x: T::V| #[trigger] self.deep_view().contains(
            x,
        ) implies other.deep_view().contains(x) by {
            assert(l.to_set().contains(x));
            let j = choose|j: int| 0 <= j < l.len() && l[j] == x;
            assert(other.deep_view().contains(l[j]));
        }
        true
    }
}

/// Two sets are equal if they have the same elements, in whatever order.
impl<T: Entry> PartialEq for ListSet<T> {
    fn eq(&self, other: &Self) -> (r: bool) {
        let r = self.is_subset(other) && other.is_subset(self);
        proof {
            if r {
                assert(self.deep_view() =~= other.deep_view());
            }
        }
        r
    }
}

impl<T: Entry> PartialEqSpecImpl for ListSet<T> {
    open spec fn obeys_eq_spec() -> bool {
        true
    }

    open spec fn eq_spec(&self, other: &Self) -> bool {
        self.deep_view() == other.deep_view()
    }
}

impl<T: Entry> Eq for ListSet<T> {

}

impl<T: Entry> Dup for ListSet<T> {
    fn dup(&self) -> (r: Self) {
        let mut r: ListSet<T> = ListSet::new();
        r.extend(self);
        assert(r.deep_view() =~= self.deep_view());
        r
    }
}

/// Filtering a list keeps exactly the elements that satisfy the predicate.
pub proof fn lemma_filter_sound<A>(s: Seq<A>, p: spec_fn(A) -> bool)
    ensures
        forall|a: A| #[trigger] s.filter(p).contains(a) <==> s.contains(a) && p(a),
{
    assert forall|a: A| #[trigger] s.filter(p).contains(a) implies s.contains(a) && p(a) by {
        s.lemma_filter_contains_rev(p, a);
        let i = choose|i: int| 0 <= i < s.filter(p).len() && s.filter(p)[i] == a;
        s.lemma_filter_pred(p, i);
    }
    assert forall|a: A| s.contains(a) && p(a) implies #[trigger] s.filter(p).contains(a) by {
        let i = choose|i: int| 0 <= i < s.len() && s[i] == a;
        s.lemma_filter_contains(p, i);
    }
}

/// One element more is seen in the longer beginning of a list.
pub proof fn lemma_take_contains<A>(s: Seq<A>, i: int)
    requires
        0 <= i < s.len(),
    ensures
        forall|a: A| #[trigger] s.take(i + 1).contains(a) <==> s.take(i).contains(a) || a == s[i],
{
    let longer = s.take(i + 1);
    assert forall|a: A| #[trigger] longer.contains(a) <==> s.take(i).contains(a) || a == s[i] by {
        if longer.contains(a) {
            let j = choose|j: int| 0 <= j < longer.len() && longer[j] == a;
            if j < i {
                assert(s.take(i)[j] == a);
            }
        }
        if s.take(i).contains(a) {
            let j = choose|j: int| 0 <= j < i && s.take(i)[j] == a;
            assert(longer[j] == a);
        }
        if a == s[i] {
            assert(longer[i] == a);
        }
    }
}

/// A map, kept as a list of entries with distinct keys.
#[derive(Debug)]
pub struct ListMap<K: Entry, V: Dup> {
    entries: Vec<(K, V)>,
}

impl<K: Entry, V: Dup> DeepView for ListMap<K, V> {
    type V = Map<K::V, V::V>;

    open spec fn deep_view(&self) -> Map<K::V, V::V> {
        Map::new(
            |k: K::V| self.keys().contains(k),
            |k: K::V| self.values()[self.keys().index_of(k)],
        )
    }
}

impl<K: Entry, V: Dup> ListMap<K, V> {
    /// The keys, in the order in which the list holds them.
    pub closed spec fn keys(&self) -> Seq<K::V> {
        Seq::new(self.entries@.len(), |i: int| self.entries@[i].0.deep_view())
    }

    /// The values, each at the position of its key.
    pub closed spec fn values(&self) -> Seq<V::V> {
        Seq::new(self.entries@.len(), |i: int| self.entries@[i].1.deep_view())
    }

    #[verifier::type_invariant]
    spec fn distinct(&self) -> bool {
        self.keys().no_duplicates()
    }

    proof fn lemma_lookup(&self)
        requires
            self.distinct(),
        ensures
            forall|i: int|
                0 <= i < self.keys().len() ==> self.deep_view().contains_key(
                    #[trigger] self.keys()[i],
                ) && self.deep_view()[self.keys()[i]] == self.values()[i],
            is_listing(self.keys(), self.deep_view().dom()),
            self.deep_view().dom().finite(),
    {
        assert forall|i: int| 0 <= i < self.keys().len() implies self.deep_view().contains_key(
            #[trigger] self.keys()[i],
        ) && self.deep_view()[self.keys()[i]] == self.values()[i] by {
            let k = self.keys()[i];
            assert(self.keys().contains(k));
            let j = self.keys().index_of(k);
            assert(0 <= j < self.keys().len() && self.keys()[j] == k);
        }
        assert(self.keys().to_set() =~= self.deep_view().dom());
        vstd::seq_lib::seq_to_set_is_finite(self.keys());
    }

    pub fn new() -> (r: Self)
        ensures
            r.deep_view() == Map::<K::V, V::V>::empty(),
            r.keys() == Seq::<K::V>::empty(),
    {
        let r = ListMap { entries: Vec::new() };
        assert(r.keys() =~= Seq::<K::V>::empty());
        assert(r.deep_view() =~= Map::<K::V, V::V>::empty());
        r
    }

    pub fn len(&self) -> (n: usize)
        ensures
            n == self.keys().len(),
            n == self.values().len(),
            n == self.deep_view().dom().len(),
            is_listing(self.keys(), self.deep_view().dom()),
            self.deep_view().dom().finite(),
    {
        proof {
            use_type_invariant(self);
            self.lemma_lookup();
            self.keys().unique_seq_to_set();
        }
        self.entries.len()
    }

    /// The key at position `i` of the list.
    pub fn key_at(&self, i: usize) -> (r: &K)
        requires
            i < self.keys().len(),
        ensures
            r.deep_view() == self.keys()[i as int],
            self.deep_view().contains_key(r.deep_view()),
    {
        proof {
            use_type_invariant(self);
            self.lemma_lookup();
        }
        &self.entries[i].0
    }

    /// The value at position `i` of the list.
    pub fn value_at(&self, i: usize) -> (r: &V)
        requires
            i < self.keys().len(),
        ensures
            r.deep_view() == self.values()[i as int],
            r.deep_view() == self.deep_view()[self.keys()[i as int]],
    {
        proof {
            use_type_invariant(self);
            self.lemma_lookup();
            assert(self.deep_view().contains_key(self.keys()[i as int]));
        }
        &self.entries[i].1
    }

    /// The position of key `k`, if the map has it.
    fn find(&self, k: &K) -> (r: Option<usize>)
        ensures
            match r {
                Some(i) => i < self.keys().len() && self.keys()[i as int] == k.deep_view(),
                None => !self.deep_view().contains_key(k.deep_view()),
            },
    {
        let mut i: usize = 0;
        while i < self.entries.len()
            invariant
                i <= self.entries.len(),
                forall|j: int| 0 <= j < i ==> self.keys()[j] != k.deep_view(),
            decreases self.entries.len() - i,
        {
            if self.entries[i].0.same(k) {
                return Some(i);
            }
            i = i + 1;
        }
        None
    }

    pub fn contains_key(&self, k: &K) -> (r: bool)
        ensures
            r == self.deep_view().contains_key(k.deep_view()),
    {
        match self.find(k) {
            Some(_) => true,
            None => false,
        }
    }

    pub fn get(&self, k: &K) -> (r: Option<&V>)
        ensures
            r.deep_view() == self.deep_view().get(k.deep_view()),
    {
        match self.find(k) {
            Some(i) => Some(self.value_at(i)),
            None => None,
        }
    }

    /// Takes key `k` out, and returns the value that it had.
    pub fn remove(&mut self, k: &K) -> (r: Option<V>)
        ensures
            r.deep_view() == old(self).deep_view().get(k.deep_view()),
            final(self).deep_view() == old(self).deep_view().remove(k.deep_view()),
    {
        proof {
            use_type_invariant(&*self);
            self.lemma_lookup();
        }
        match self.find(k) {
            Some(i) => {
                let ghost before = *self;
                let mut entries: Vec<(K, V)> = Vec::new();
                std::mem::swap(&mut entries, &mut self.entries);
                let (_key, value) = entries.remove(i);
                proof {
                    let keys = Seq::new(entries@.len(), |j: int| entries@[j].0.deep_view());
                    assert(keys =~= before.keys().remove(i as int));
                }
                let after = ListMap { entries: entries };
                proof {
                    assert(before.values()[i as int] == value.deep_view());
                    assert(after.keys() =~= before.keys().remove(i as int));
                    assert(after.values() =~= before.values().remove(i as int));
                    after.lemma_lookup();
                    assert forall|a: K::V| #[trigger] after.deep_view().contains_key(a) implies {
                        &&& before.deep_view().remove(k.deep_view()).contains_key(a)
                        &&& after.deep_view()[a] == before.deep_view()[a]
                    } by {
                        let j = choose|j: int| 0 <= j < after.keys().len() && after.keys()[j] == a;
                        let h = if j < i { j } else { j + 1 };
                        assert(before.keys()[h] == a);
                    }
                    assert forall|a: K::V|
                        before.deep_view().remove(k.deep_view()).contains_key(
                            a,
                        ) implies #[trigger] after.deep_view().contains_key(a) by {
                        let j = choose|j: int| 0 <= j < before.keys().len() && before.keys()[j] == a;
                        let h = if j < i { j } else { j - 1 };
                        assert(after.keys()[h] == a);
                    }
                    assert(after.deep_view() =~= before.deep_view().remove(k.deep_view()));
                }
                *self = after;
                Some(value)
            },
            None => {
                assert(self.deep_view() =~= self.deep_view().remove(k.deep_view()));
                None
            },
        }
    }

    /// Gives key `k` the value `v`.
    pub fn insert(&mut self, k: K, v: V)
        ensures
            final(self).deep_view() == old(self).deep_view().insert(k.deep_view(), v.deep_view()),
    {
        let ghost first = self.deep_view();
        let _replaced = self.remove(&k);
        proof {
            use_type_invariant(&*self);
            self.lemma_lookup();
        }
        let ghost before = *self;
        let mut entries: Vec<(K, V)> = Vec::new();
        std::mem::swap(&mut entries, &mut self.entries);
        entries.push((k, v));
        proof {
            let keys = Seq::new(entries@.len(), |i: int| entries@[i].0.deep_view());
            assert(keys =~= before.keys().push(k.deep_view()));
            assert forall|j: int| 0 <= j < before.keys().len() implies #[trigger] before.keys()[j]
                != k.deep_view() by {
                assert(before.deep_view().contains_key(before.keys()[j]));
            }
        }
        let after = ListMap { entries: entries };
        proof {
            assert(after.keys() =~= before.keys().push(k.deep_view()));
            assert(after.values() =~= before.values().push(v.deep_view()));
            after.lemma_lookup();
            assert(after.keys()[before.keys().len() as int] == k.deep_view());
            assert forall|a: K::V| #[trigger] after.deep_view().contains_key(a) && a
                != k.deep_view() implies {
                &&& before.deep_view().contains_key(a)
                &&& after.deep_view()[a] == before.deep_view()[a]
            } by {
                let j = choose|j: int| 0 <= j < after.keys().len() && after.keys()[j] == a;
                assert(before.keys()[j] == a);
            }
            assert forall|a: K::V| before.deep_view().contains_key(a) implies #[trigger] after.deep_view().contains_key(a) by {
                let j = choose|j: int| 0 <= j < before.keys().len() && before.keys()[j] == a;
                assert(after.keys()[j] == a);
            }
            assert(after.deep_view() =~= first.insert(k.deep_view(), v.deep_view()));
        }
        *self = after;
    }
}

impl<K: Entry, V: Dup> Dup for ListMap<K, V> {
    fn dup(&self) -> (r: Self) {
        proof {
            use_type_invariant(self);
            self.lemma_lookup();
        }
        let mut r: ListMap<K, V> = ListMap::new();
        let mut i: usize = 0;
        while i < self.entries.len()
            invariant
                i <= self.entries.len(),
                self.distinct(),
                forall|a: K::V| #[trigger] r.deep_view().contains_key(a) <==> self.keys().take(i as int).contains(a),
                forall|a: K::V| #[trigger] r.deep_view().contains_key(a) ==> r.deep_view()[a] == self.deep_view()[a],
            decreases self.entries.len() - i,
        {
            proof {
                self.lemma_lookup();
            }
            let ghost before = r.deep_view();
            r.insert(self.key_at(i).dup(), self.value_at(i).dup());
            proof {
                let l = self.keys();
                let longer = l.take(i + 1);
                assert(longer =~= l.take(i as int).push(l[i as int]));
                assert forall|a: K::V| #[trigger] r.deep_view().contains_key(a) <==> longer.contains(a) by {
                    if a == l[i as int] {
                        assert(longer[i as int] == a);
                    } else {
                        if before.contains_key(a) {
                            let j = choose|j: int| 0 <= j < i && l.take(i as int)[j] == a;
                            assert(longer[j] == a);
                        }
                        if longer.contains(a) {
                            let j = choose|j: int| 0 <= j < longer.len() && longer[j] == a;
                            assert(l.take(i as int)[j] == a);
                        }
                    }
                }
            }
            i = i + 1;
        }
        proof {
            assert(self.keys().take(i as int) =~= self.keys());
            assert(r.deep_view() =~= self.deep_view());
        }
        r
    }
}

impl<T: Entry> Clone for ListSet<T> {
    fn clone(&self) -> (r: Self)
        ensures
            r.deep_view() == self.deep_view(),
    {
        self.dup()
    }
}

impl<K: Entry, V: Dup> Clone for ListMap<K, V> {
    fn clone(&self) -> (r: Self)
        ensures
            r.deep_view() == self.deep_view(),
    {
        self.dup()
    }
}

} // verus!
