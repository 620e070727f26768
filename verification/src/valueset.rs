//! Sets of values, each value held once: kept in order of insertion, and
//! found again by a number that equal values share.

use std::collections::HashMap;
use vstd::prelude::*;
use vstd::string::StringSliceAdditionalSpecFns;
use vstd::utf8::encode_utf8;

verus! {

broadcast use vstd::std_specs::hash::group_hash_axioms;

/// A value that a set can hold: one that can be told apart from another,
/// copied, and given a number, each by its view.
pub trait Value: View + Sized {
    /// The number under which a value with the view `v` is filed.
    spec fn hash_of(v: Self::V) -> u64;

    /// Whether the two have the same view.
    fn same(&self, other: &Self) -> (r: bool)
        ensures
            r == (self@ == other@),
    ;

    /// A value with the same view.
    fn copy(&self) -> (r: Self)
        ensures
            r@ == self@,
    ;

    /// The number under which the value is filed.
    fn hash(&self) -> (h: u64)
        ensures
            h == Self::hash_of(self@),
    ;
}

/// The number of a byte string: its bytes as the digits of a numeral to the
/// base 31, modulo the prime 4294967291.
pub open spec fn hash_bytes(bytes: Seq<u8>) -> u64
    decreases bytes.len(),
{
    if bytes.len() == 0 {
        0
    } else {
        ((hash_bytes(bytes.drop_last()) * 31 + bytes.last()) % 4294967291) as u64
    }
}

impl Value for String {
    open spec fn hash_of(v: Seq<char>) -> u64 {
        hash_bytes(encode_utf8(v))
    }

    fn same(&self, other: &String) -> (r: bool) {
        *self == *other
    }

    fn copy(&self) -> (r: String) {
        self.clone()
    }

    fn hash(&self) -> (h: u64) {
        let bytes = self.as_str().as_bytes();
        let mut h: u64 = 0;
        let mut i: usize = 0;
        proof {
            assert(bytes@.take(0) =~= Seq::<u8>::empty());
        }
        while i < bytes.len()
            invariant
                i <= bytes@.len(),
                h == hash_bytes(bytes@.take(i as int)),
                h < 4294967291,
            decreases bytes@.len() - i,
        {
            proof {
                assert(bytes@.take(i + 1).drop_last() =~= bytes@.take(i as int));
            }
            h = (h * 31 + bytes[i] as u64) % 4294967291;
            i += 1;
        }
        proof {
            assert(bytes@.take(i as int) =~= bytes@);
        }
        h
    }
}

/// The views of a list of values.
pub open spec fn views<T: View>(s: Seq<T>) -> Seq<T::V> {
    s.map_values(|t: T| t@)
}

/// The values of a set and where each of them is found.
struct Filed<T> {
    items: Vec<T>,
    buckets: HashMap<u64, Vec<usize>>,
}

/// A set of values. It keeps them in order of insertion.
pub struct ValueSet<T: Value> {
    filed: Filed<T>,
}

impl<T: Value> View for ValueSet<T> {
    type V = Set<T::V>;

    closed spec fn view(&self) -> Set<T::V> {
        views(self.filed.items@).to_set()
    }
}

impl<T: Value> Clone for ValueSet<T> {
    fn clone(&self) -> (c: ValueSet<T>)
        ensures
            c@ == self@,
            c.order() == self.order(),
    {
        proof {
            use_type_invariant(self);
        }
        let mut c: ValueSet<T> = ValueSet::new();
        let mut i: usize = 0;
        while i < self.filed.items.len()
            invariant
                i <= self.filed.items@.len(),
                views(self.filed.items@).no_duplicates(),
                c.order() == views(self.filed.items@).take(i as int),
                c@ == c.order().to_set(),
            decreases self.filed.items@.len() - i,
        {
            proof {
                let all = views(self.filed.items@);
                assert(all[i as int] == self.filed.items@[i as int]@);
                if c@.contains(all[i as int]) {
                    let j = choose|j: int|
                        0 <= j < all.take(i as int).len() && all.take(i as int)[j] == all[i as int];
                    assert(all[j] == all[i as int]);
                }
                assert(all.take(i as int).push(all[i as int]) =~= all.take(i + 1));
            }
            c.insert(self.filed.items[i].copy());
            i += 1;
        }
        proof {
            assert(views(self.filed.items@).take(i as int) =~= views(self.filed.items@));
        }
        c
    }
}

impl<T: Value> ValueSet<T> {
    #[verifier::type_invariant]
    spec fn inv(&self) -> bool {
        let items = views(self.filed.items@);
        let buckets = self.filed.buckets@;
        &&& items.no_duplicates()
        &&& forall|i: int|
            0 <= i < items.len() ==> buckets.contains_key(T::hash_of(#[trigger] items[i]))
                && buckets[T::hash_of(items[i])]@.contains(i as usize)
        &&& forall|h: u64, j: int|
            buckets.contains_key(h) && 0 <= j < buckets[h]@.len() ==> (#[trigger] buckets[h]@[j])
                < items.len()
    }

    /// The values in the order in which they were inserted.
    pub closed spec fn order(&self) -> Seq<T::V> {
        views(self.filed.items@)
    }

    /// The empty set.
    pub fn new() -> (s: ValueSet<T>)
        ensures
            s@ == Set::<T::V>::empty(),
            s.order() == Seq::<T::V>::empty(),
    {
        let s = ValueSet { filed: Filed { items: Vec::new(), buckets: HashMap::new() } };
        assert(s@ =~= Set::<T::V>::empty());
        assert(s.order() =~= Seq::<T::V>::empty());
        s
    }

    /// The number of values in the set.
    pub fn len(&self) -> (n: usize)
        ensures
            n == self@.len(),
            n == self.order().len(),
    {
        proof {
            use_type_invariant(self);
            views(self.filed.items@).unique_seq_to_set();
        }
        self.filed.items.len()
    }

    /// Whether the set holds no value.
    pub fn is_empty(&self) -> (b: bool)
        ensures
            b == (self@.len() == 0),
    {
        self.len() == 0
    }

    /// Whether `value` is in the set.
    pub fn contains(&self, value: &T) -> (b: bool)
        ensures
            b == self@.contains(value@),
    {
        proof {
            use_type_invariant(self);
        }
        let ghost items = views(self.filed.items@);
        assert(items.len() == self.filed.items.len());
        let h = value.hash();
        match self.filed.buckets.get(&h) {
            None => {
                proof {
                    if items.contains(value@) {
                        let i = choose|i: int| 0 <= i < items.len() && items[i] == value@;
                        assert(self.filed.buckets@.contains_key(T::hash_of(items[i])));
                    }
                }
                false
            },
            Some(places) => {
                let mut j: usize = 0;
                while j < places.len()
                    invariant
                        j <= places@.len(),
                        items == views(self.filed.items@),
                        items.len() <= usize::MAX,
                        self.filed.buckets@.contains_key(h),
                        places@ == self.filed.buckets@[h]@,
                        forall|m: int|
                            0 <= m < places@.len() ==> (#[trigger] places@[m]) < items.len(),
                        forall|m: int| 0 <= m < j ==> items[places@[m] as int] != value@,
                    decreases places@.len() - j,
                {
                    let i: usize = places[j];
                    if self.filed.items[i].same(value) {
                        assert(items[i as int] == value@);
                        return true;
                    }
                    j += 1;
                }
                proof {
                    if items.contains(value@) {
                        let i = choose|i: int| 0 <= i < items.len() && items[i] == value@;
                        assert(self.filed.buckets@[T::hash_of(items[i])]@.contains(i as usize));
                        let m = choose|m: int|
                            0 <= m < places@.len() && places@[m] == i as usize;
                        assert(items[places@[m] as int] != value@);
                    }
                }
                false
            },
        }
    }

    /// Adds `value` to the set, and says whether it was not there before.
    pub fn insert(&mut self, value: T) -> (fresh: bool)
        ensures
            final(self)@ == old(self)@.insert(value@),
            fresh == !old(self)@.contains(value@),
            final(self).order() == if fresh {
                old(self).order().push(value@)
            } else {
                old(self).order()
            },
    {
        proof {
            use_type_invariant(&*self);
        }
        if self.contains(&value) {
            assert(self@ =~= self@.insert(value@));
            return false;
        }
        let h = value.hash();
        let mut filed = Filed { items: Vec::new(), buckets: HashMap::new() };
        core::mem::swap(&mut self.filed, &mut filed);
        let ghost before = views(filed.items@);
        let ghost filing = filed.buckets@;
        let place: usize = filed.items.len();
        let mut places: Vec<usize> = match filed.buckets.remove(&h) {
            Some(places) => places,
            None => Vec::new(),
        };
        let ghost there = places@;
        places.push(place);
        filed.items.push(value);
        filed.buckets.insert(h, places);
        proof {
            let items = views(filed.items@);
            let buckets = filed.buckets@;
            assert(items =~= before.push(value@));
            assert(buckets[h]@ == there.push(place));
            assert forall|i: int| 0 <= i < items.len() implies buckets.contains_key(
                T::hash_of(#[trigger] items[i]),
            ) && buckets[T::hash_of(items[i])]@.contains(i as usize) by {
                if i < before.len() {
                    assert(items[i] == before[i]);
                    let g = T::hash_of(before[i]);
                    assert(filing.contains_key(g) && filing[g]@.contains(i as usize));
                    if g == h {
                        let m = choose|m: int| 0 <= m < there.len() && there[m] == i as usize;
                        assert(there.push(place)[m] == i as usize);
                    }
                } else {
                    assert(there.push(place)[there.len() as int] == place);
                }
            }
            assert forall|g: u64, j: int|
                buckets.contains_key(g) && 0 <= j < buckets[g]@.len() implies (
            #[trigger] buckets[g]@[j]) < items.len() by {
                if g == h {
                    if j < there.len() {
                        assert(filing[h]@[j] < before.len());
                    }
                } else {
                    assert(filing[g]@[j] < before.len());
                }
            }
        }
        core::mem::swap(&mut self.filed, &mut filed);
        proof {
            Seq::lemma_to_set_insert_commutes(before, value@);
            assert(before + seq![value@] =~= before.push(value@));
        }
        true
    }

    /// The values, in the order in which they were inserted.
    pub fn as_slice(&self) -> (s: &[T])
        ensures
            views(s@) == self.order(),
            self.order().no_duplicates(),
            self.order().to_set() == self@,
    {
        proof {
            use_type_invariant(self);
        }
        self.filed.items.as_slice()
    }
}

} // verus!
