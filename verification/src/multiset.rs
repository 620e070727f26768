//! Per-source sets of values, and the combinations of sources that hold a
//! value in common.

use crate::setidx::{has_index, idx_views, Idx};
use crate::valueset::{views, Value, ValueSet};
use vstd::prelude::*;

verus! {

/// `sets`, with empty sets appended until there are at least `n` of them.
pub open spec fn grown<V>(sets: Seq<Set<V>>, n: nat) -> Seq<Set<V>> {
    if sets.len() >= n {
        sets
    } else {
        sets + Seq::new((n - sets.len()) as nat, |j: int| Set::<V>::empty())
    }
}

/// `sets` after `v` is inserted for source `i`: there are then at least
/// `i + 1` sets, and set `i` holds `v`.
pub open spec fn inserted<V>(sets: Seq<Set<V>>, i: nat, v: V) -> Seq<Set<V>> {
    let g = grown(sets, i + 1);
    g.update(i as int, g[i as int].insert(v))
}

/// The values that occur in at least one of the sets.
pub open spec fn union_of<V>(sets: Seq<Set<V>>) -> Set<V> {
    Set::new(|v: V| exists|i: int| 0 <= i < sets.len() && sets[i].contains(v))
}

/// The sum of the sizes of the sets.
pub open spec fn total<V>(sets: Seq<Set<V>>) -> nat
    decreases sets.len(),
{
    if sets.len() == 0 {
        0
    } else {
        total(sets.drop_last()) + sets.last().len()
    }
}

/// Whether `v` satisfies the combination `c`: the combination names at least
/// one source, every source it names exists, and each of them holds `v`.
pub open spec fn satisfies<V>(sets: Seq<Set<V>>, v: V, c: Seq<usize>) -> bool {
    &&& c.len() > 0
    &&& forall|k: int| 0 <= k < c.len() ==> c[k] < sets.len() && sets[c[k] as int].contains(v)
}

/// The combinations of the list `combos` that `v` satisfies.
pub open spec fn satisfied<V>(sets: Seq<Set<V>>, v: V, combos: Seq<Seq<usize>>) -> Set<Seq<usize>> {
    Set::new(|c: Seq<usize>| combos.contains(c) && satisfies(sets, v, c))
}

/// The membership record of `v`: the value, and the combinations of the list
/// that it satisfies.
pub open spec fn record<V>(sets: Seq<Set<V>>, v: V, combos: Seq<Seq<usize>>) -> (
    V,
    Set<Seq<usize>>,
) {
    (v, satisfied(sets, v, combos))
}

/// One set of values per source, the sources numbered from 0.
pub struct MultiSet<T: Value>(Vec<ValueSet<T>>);

impl<T: Value> View for MultiSet<T> {
    type V = Seq<Set<T::V>>;

    closed spec fn view(&self) -> Seq<Set<T::V>> {
        self.0@.map_values(|s: ValueSet<T>| s@)
    }
}

impl<T: Value> Default for MultiSet<T> {
    /// No source at all.
    fn default() -> (s: MultiSet<T>)
        ensures
            s@ == Seq::<Set<T::V>>::empty(),
    {
        let s = MultiSet(Vec::new());
        assert(s@ =~= Seq::<Set<T::V>>::empty());
        s
    }
}

impl<T: Value> Clone for MultiSet<T> {
    fn clone(&self) -> (c: MultiSet<T>)
        ensures
            c@ == self@,
    {
        let mut sets: Vec<ValueSet<T>> = Vec::new();
        let mut i: usize = 0;
        while i < self.0.len()
            invariant
                i <= self.0@.len(),
                sets@.map_values(|s: ValueSet<T>| s@) == self@.take(i as int),
            decreases self.0@.len() - i,
        {
            let ghost before = sets@.map_values(|s: ValueSet<T>| s@);
            sets.push(self.0[i].clone());
            assert(sets@.map_values(|s: ValueSet<T>| s@) =~= before.push(self@[i as int]));
            i += 1;
            assert(sets@.map_values(|s: ValueSet<T>| s@) =~= self@.take(i as int));
        }
        assert(self@.take(i as int) =~= self@);
        MultiSet(sets)
    }
}

impl<T: Value> core::ops::Index<usize> for MultiSet<T> {
    type Output = ValueSet<T>;

    /// The set of source `i`.
    fn index(&self, i: usize) -> (s: &ValueSet<T>)
        ensures
            s@ == self@[i as int],
    {
        &self.0[i]
    }
}

impl<T: Value> vstd::std_specs::core::IndexSpecImpl<usize> for MultiSet<T> {
    open spec fn index_req(&self, i: &usize) -> bool {
        *i < self@.len()
    }
}

impl<T: Value> From<MultiSet<T>> for Vec<ValueSet<T>> {
    /// The sets, source by source.
    fn from(item: MultiSet<T>) -> (v: Vec<ValueSet<T>>)
        ensures
            v@.map_values(|s: ValueSet<T>| s@) == item@,
    {
        item.0
    }
}

impl<T: Value> vstd::std_specs::convert::FromSpecImpl<MultiSet<T>> for Vec<ValueSet<T>> {
    open spec fn obeys_from_spec() -> bool {
        true
    }

    closed spec fn from_spec(item: MultiSet<T>) -> Vec<ValueSet<T>> {
        item.0
    }
}

impl<T: Value> MultiSet<T> {
    /// Appends empty sets until there are at least `n` sources.
    fn grow(&mut self, n: usize)
        ensures
            final(self)@ == grown(old(self)@, n as nat),
    {
        while self.0.len() < n
            invariant
                self.0@.len() <= n || self.0@.len() == old(self).0@.len(),
                self.0@.len() >= old(self).0@.len(),
                self@ == old(self)@ + Seq::new(
                    (self.0@.len() - old(self).0@.len()) as nat,
                    |j: int| Set::<T::V>::empty(),
                ),
            decreases n - self.0@.len(),
        {
            let ghost before = self@;
            self.0.push(ValueSet::new());
            assert(self@ =~= before.push(Set::<T::V>::empty()));
            assert(self@ =~= old(self)@ + Seq::new(
                (self.0@.len() - old(self).0@.len()) as nat,
                |j: int| Set::<T::V>::empty(),
            ));
        }
        assert(self@ =~= grown(old(self)@, n as nat));
    }

    /// Adds `value` to the set of source `i`, after making sure that there
    /// are at least `i + 1` sources, and says whether the value was not in
    /// that set before.
    pub fn insert(&mut self, i: usize, value: T) -> (fresh: bool)
        requires
            i < usize::MAX,
        ensures
            final(self)@ == inserted(old(self)@, i as nat, value@),
            final(self)@.len() >= i + 1,
            fresh == !(i < old(self)@.len() && old(self)@[i as int].contains(value@)),
    {
        self.grow(i + 1);
        let ghost g = self@;
        assert(g.len() == self.0@.len());
        let fresh = self.0[i].insert(value);
        assert(self@ =~= g.update(i as int, g[i as int].insert(value@)));
        fresh
    }

    /// The number of sources.
    pub fn len(&self) -> (n: usize)
        ensures
            n == self@.len(),
    {
        self.0.len()
    }

    /// Whether there is no source at all.
    pub fn is_empty(&self) -> (b: bool)
        ensures
            b == (self@.len() == 0),
    {
        self.0.len() == 0
    }

    /// The values that occur in at least one source.
    pub fn union(&self) -> (u: ValueSet<T>)
        ensures
            u@ == union_of(self@),
    {
        let mut u: ValueSet<T> = ValueSet::new();
        let mut i: usize = 0;
        while i < self.0.len()
            invariant
                i <= self.0@.len(),
                u@ == union_of(self@.take(i as int)),
            decreases self.0@.len() - i,
        {
            let items = self.0[i].as_slice();
            let mut j: usize = 0;
            while j < items.len()
                invariant
                    i < self.0@.len(),
                    j <= items@.len(),
                    views(items@).to_set() == self@[i as int],
                    u@ == union_of(self@.take(i as int)) + views(items@).take(j as int).to_set(),
                decreases items@.len() - j,
            {
                u.insert(items[j].copy());
                j += 1;
                proof {
                    let done = views(items@).take(j - 1);
                    Seq::lemma_to_set_insert_commutes(done, views(items@)[j - 1]);
                    assert(done + seq![views(items@)[j - 1]] =~= views(items@).take(j as int));
                    assert(u@ =~= union_of(self@.take(i as int)) + views(items@).take(
                        j as int,
                    ).to_set());
                }
            }
            i += 1;
            proof {
                assert(views(items@).take(j as int) =~= views(items@));
                lemma_union_push(self@.take(i - 1), self@[i - 1]);
                assert(self@.take(i - 1).push(self@[i - 1]) =~= self@.take(i as int));
            }
        }
        assert(self@.take(i as int) =~= self@);
        u
    }

    /// The sum of the sizes of the sets: a value counts once for each source
    /// that holds it.
    pub fn cardinality(&self) -> (n: usize)
        requires
            total(self@) <= usize::MAX,
        ensures
            n == total(self@),
    {
        let mut n: usize = 0;
        let mut i: usize = 0;
        while i < self.0.len()
            invariant
                i <= self.0@.len(),
                n == total(self@.take(i as int)),
                total(self@) <= usize::MAX,
            decreases self.0@.len() - i,
        {
            proof {
                assert(self@.take(i + 1).drop_last() =~= self@.take(i as int));
                lemma_total_prefix(self@, i + 1);
            }
            n = n + self.0[i].len();
            i += 1;
        }
        assert(self@.take(i as int) =~= self@);
        n
    }

    /// Whether every source named by `indexes` holds `value`. A combination
    /// that names no source is satisfied by nothing, and one that names a
    /// source that does not exist is not satisfied either.
    pub fn contains_with_indexes(&self, value: &T, indexes: &Idx) -> (b: bool)
        ensures
            b == satisfies(self@, value@, indexes@),
            indexes@.len() == 0 ==> !b,
    {
        if indexes.is_empty() {
            return false;
        }
        let mut k: usize = 0;
        while k < indexes.len()
            invariant
                k <= indexes@.len(),
                forall|m: int|
                    0 <= m < k ==> indexes@[m] < self@.len() && self@[indexes@[m] as int].contains(
                        value@,
                    ),
            decreases indexes@.len() - k,
        {
            let x: usize = indexes[k];
            if x >= self.0.len() {
                return false;
            }
            if !self.0[x].contains(value) {
                return false;
            }
            k += 1;
        }
        true
    }

    /// Turns the sets into the sequence of their membership records over the
    /// combinations `indexes`: one record for each value of the union.
    pub fn element_iter(self, indexes: Vec<Idx>) -> (it: MultiSetIterator<T>)
        ensures
            it.sets() == self@,
            it.combinations() == idx_views(indexes@),
            it.position() == 0,
            it.order().no_duplicates(),
            it.order().to_set() == union_of(self@),
            it.order().len() == union_of(self@).len(),
    {
        MultiSetIterator::new(self, indexes)
    }
}

/// A value together with the combinations of sources that it satisfies.
pub struct MultiSetElement<T: Value>(T, ValueSet<Idx>);

impl<T: Value> View for MultiSetElement<T> {
    type V = (T::V, Set<Seq<usize>>);

    closed spec fn view(&self) -> (T::V, Set<Seq<usize>>) {
        (self.0@, self.1@)
    }
}

impl<T: Value> MultiSetElement<T> {
    /// The value.
    pub fn element(&self) -> (e: &T)
        ensures
            e@ == self@.0,
    {
        &self.0
    }

    /// The combinations that the value satisfies.
    pub fn indexes(&self) -> (s: &ValueSet<Idx>)
        ensures
            s@ == self@.1,
    {
        &self.1
    }
}

/// The membership records of a `MultiSet` over a list of combinations, one
/// for each value of the union, produced one at a time in an order that is
/// fixed when the iterator is made.
pub struct MultiSetIterator<T: Value> {
    s: MultiSet<T>,
    u: ValueSet<T>,
    indexes: Vec<Idx>,
    i: usize,
}

impl<T: Value> MultiSetIterator<T> {
    #[verifier::type_invariant]
    spec fn inv(&self) -> bool {
        &&& self.u@ == union_of(self.s@)
        &&& self.i <= self.u.order().len()
    }

    /// The sets that the records are about.
    pub closed spec fn sets(&self) -> Seq<Set<T::V>> {
        self.s@
    }

    /// The values of the union, in the order in which their records come.
    pub closed spec fn order(&self) -> Seq<T::V> {
        self.u.order()
    }

    /// The combinations that each value is tested against.
    pub closed spec fn combinations(&self) -> Seq<Seq<usize>> {
        idx_views(self.indexes@)
    }

    /// The number of records produced so far.
    pub closed spec fn position(&self) -> nat {
        self.i as nat
    }

    fn new(s: MultiSet<T>, indexes: Vec<Idx>) -> (it: MultiSetIterator<T>)
        ensures
            it.sets() == s@,
            it.combinations() == idx_views(indexes@),
            it.position() == 0,
            it.order().no_duplicates(),
            it.order().to_set() == union_of(s@),
            it.order().len() == union_of(s@).len(),
    {
        let u = s.union();
        // Each value of the union stands once in the order of the set.
        let _ = u.as_slice();
        proof {
            u.order().unique_seq_to_set();
        }
        MultiSetIterator { s, u, indexes, i: 0 }
    }

    /// The combinations that each value is tested against.
    pub fn indexes(&self) -> (v: &Vec<Idx>)
        ensures
            idx_views(v@) == self.combinations(),
    {
        &self.indexes
    }

    /// Produces the record of the next value of the union, or `None` once
    /// every value has had its record.
    pub fn next(&mut self) -> (r: Option<MultiSetElement<T>>)
        ensures
            final(self).sets() == old(self).sets(),
            final(self).order() == old(self).order(),
            final(self).combinations() == old(self).combinations(),
            match r {
                Some(e) => {
                    &&& old(self).position() < old(self).order().len()
                    &&& e@ == record(
                        old(self).sets(),
                        old(self).order()[old(self).position() as int],
                        old(self).combinations(),
                    )
                    &&& final(self).position() == old(self).position() + 1
                },
                None => {
                    &&& old(self).position() == old(self).order().len()
                    &&& final(self).position() == old(self).position()
                },
            },
    {
        proof {
            use_type_invariant(&*self);
        }
        let items = self.u.as_slice();
        if self.i >= items.len() {
            return None;
        }
        let value = &items[self.i];
        let ghost combos = idx_views(self.indexes@);
        let mut hits: ValueSet<Idx> = ValueSet::new();
        let mut k: usize = 0;
        while k < self.indexes.len()
            invariant
                k <= self.indexes@.len(),
                combos == idx_views(self.indexes@),
                hits@ == satisfied(self.s@, value@, combos.take(k as int)),
            decreases self.indexes@.len() - k,
        {
            proof {
                lemma_satisfied_push(self.s@, value@, combos.take(k as int), combos[k as int]);
                assert(combos.take(k as int).push(combos[k as int]) =~= combos.take(k + 1));
            }
            if self.s.contains_with_indexes(value, &self.indexes[k]) {
                hits.insert(self.indexes[k].clone());
            }
            k += 1;
        }
        assert(combos.take(k as int) =~= combos);
        let e = MultiSetElement(value.copy(), hits);
        self.i = self.i + 1;
        Some(e)
    }

    /// Produces all the remaining records at once.
    pub fn collect(self) -> (v: Vec<MultiSetElement<T>>)
        ensures
            v@.len() == self.order().len() - self.position(),
            forall|k: int|
                0 <= k < v@.len() ==> (#[trigger] v@[k])@ == record(
                    self.sets(),
                    self.order()[self.position() + k],
                    self.combinations(),
                ),
    {
        let mut it = self;
        let mut v: Vec<MultiSetElement<T>> = Vec::new();
        proof {
            use_type_invariant(&it);
        }
        loop
            invariant
                it.sets() == self.sets(),
                it.order() == self.order(),
                it.combinations() == self.combinations(),
                self.position() <= it.position() <= self.order().len(),
                v@.len() == it.position() - self.position(),
                forall|k: int|
                    0 <= k < v@.len() ==> (#[trigger] v@[k])@ == record(
                        self.sets(),
                        self.order()[self.position() + k],
                        self.combinations(),
                    ),
            decreases self.order().len() - it.position(),
        {
            match it.next() {
                Some(e) => {
                    v.push(e);
                },
                None => {
                    return v;
                },
            }
        }
    }
}

/// Testing one more combination adds it to the satisfied ones exactly when
/// the value satisfies it.
pub proof fn lemma_satisfied_push<V>(
    sets: Seq<Set<V>>,
    v: V,
    combos: Seq<Seq<usize>>,
    c: Seq<usize>,
)
    ensures
        satisfied(sets, v, combos.push(c)) == if satisfies(sets, v, c) {
            satisfied(sets, v, combos).insert(c)
        } else {
            satisfied(sets, v, combos)
        },
{
    let more = combos.push(c);
    let want = if satisfies(sets, v, c) {
        satisfied(sets, v, combos).insert(c)
    } else {
        satisfied(sets, v, combos)
    };
    assert forall|x: Seq<usize>| satisfied(sets, v, more).contains(x) <==> want.contains(x) by {
        if more.contains(x) {
            let i = choose|i: int| 0 <= i < more.len() && more[i] == x;
            if i < combos.len() {
                assert(combos[i] == x);
            }
        }
        if combos.contains(x) {
            let i = choose|i: int| 0 <= i < combos.len() && combos[i] == x;
            assert(more[i] == x);
        }
        assert(more[combos.len() as int] == c);
    }
    assert(satisfied(sets, v, more) =~= want);
}

/// Where every combination of the list names at least one source, the
/// combinations that a value satisfies are exactly those of the list all of
/// whose sources hold the value.
pub proof fn lemma_satisfied_brute_force<V>(sets: Seq<Set<V>>, v: V, combos: Seq<Seq<usize>>)
    requires
        forall|k: int| 0 <= k < combos.len() ==> (#[trigger] combos[k]).len() > 0,
    ensures
        satisfied(sets, v, combos) == Set::new(
            |c: Seq<usize>|
                combos.contains(c) && forall|j: int|
                    has_index(c, j) ==> 0 <= j < sets.len() && sets[j].contains(v),
        ),
{
    let brute = Set::new(
        |c: Seq<usize>|
            combos.contains(c) && forall|j: int|
                has_index(c, j) ==> 0 <= j < sets.len() && sets[j].contains(v),
    );
    assert forall|c: Seq<usize>| satisfied(sets, v, combos).contains(c) <==> brute.contains(
        c,
    ) by {
        if combos.contains(c) {
            let i = choose|i: int| 0 <= i < combos.len() && combos[i] == c;
            assert(combos[i].len() > 0);
            if satisfies(sets, v, c) {
                assert forall|j: int| has_index(c, j) implies 0 <= j < sets.len()
                    && sets[j].contains(v) by {
                    let k = choose|k: int| 0 <= k < c.len() && c[k] == j;
                    assert(sets[c[k] as int].contains(v));
                }
            }
            if brute.contains(c) {
                assert forall|k: int| 0 <= k < c.len() implies c[k] < sets.len()
                    && sets[c[k] as int].contains(v) by {
                    assert(has_index(c, c[k] as int));
                }
            }
        }
    }
    assert(satisfied(sets, v, combos) =~= brute);
}

/// The union over one more set is the union so far, joined with that set.
pub proof fn lemma_union_push<V>(sets: Seq<Set<V>>, s: Set<V>)
    ensures
        union_of(sets.push(s)) == union_of(sets) + s,
{
    let more = sets.push(s);
    assert forall|v: V| union_of(more).contains(v) <==> (union_of(sets) + s).contains(v) by {
        if union_of(more).contains(v) {
            let i = choose|i: int| 0 <= i < more.len() && more[i].contains(v);
            if i < sets.len() {
                assert(sets[i].contains(v));
            }
        }
        if union_of(sets).contains(v) {
            let i = choose|i: int| 0 <= i < sets.len() && sets[i].contains(v);
            assert(more[i].contains(v));
        }
        if s.contains(v) {
            assert(more[sets.len() as int].contains(v));
        }
    }
    assert(union_of(more) =~= union_of(sets) + s);
}

/// The sizes of the first `i` sets add up to no more than those of all.
pub proof fn lemma_total_prefix<V>(sets: Seq<Set<V>>, i: int)
    requires
        0 <= i <= sets.len(),
    ensures
        total(sets.take(i)) <= total(sets),
    decreases sets.len() - i,
{
    if i < sets.len() {
        lemma_total_prefix(sets, i + 1);
        assert(sets.take(i + 1).drop_last() =~= sets.take(i));
    } else {
        assert(sets.take(i) =~= sets);
    }
}

} // verus!
