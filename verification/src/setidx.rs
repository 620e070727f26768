//! Combinations of source indices and their bit-vector and decimal encodings.

use crate::counting::{lemma_combinations_unique, lemma_too_deep};
use crate::valueset::Value;
use vstd::arithmetic::power2::{lemma2_to64, lemma_pow2_unfold, pow2};
use vstd::prelude::*;
use vstd::std_specs::cmp::PartialEqSpecImpl;
use vstd::string::StringExecFns;

verus! {

/// Whether the source index `i` occurs in the combination `c`.
pub open spec fn has_index(c: Seq<usize>, i: int) -> bool {
    exists|k: int| 0 <= k < c.len() && c[k] == i
}

/// The bit vector of width `n` for the combination `c`: position `i` is set
/// exactly when `i` occurs in `c`.
pub open spec fn bit_vector(c: Seq<usize>, n: nat) -> Seq<bool> {
    Seq::new(n, |i: int| has_index(c, i))
}

/// The bit vector written out: `'1'` for a set position and `'0'` for a
/// clear one, position 0 first.
pub open spec fn bit_string(bits: Seq<bool>) -> Seq<char> {
    Seq::new(bits.len(), |i: int| if bits[i] { '1' } else { '0' })
}

/// The bit vector read as a binary numeral whose most significant digit is
/// position 0: position `i` of `n` weighs `2^(n - 1 - i)`.
pub open spec fn decimal(bits: Seq<bool>) -> nat
    decreases bits.len(),
{
    if bits.len() == 0 {
        0
    } else {
        (if bits[0] { pow2((bits.len() - 1) as nat) } else { 0 }) + decimal(bits.drop_first())
    }
}

/// Whether two lists hold the same indices in the same order.
fn same_indices(a: &Vec<usize>, b: &Vec<usize>) -> (r: bool)
    ensures
        r == (a@ == b@),
{
    if a.len() != b.len() {
        return false;
    }
    let mut i: usize = 0;
    while i < a.len()
        invariant
            i <= a@.len(),
            a@.len() == b@.len(),
            forall|j: int| 0 <= j < i ==> a@[j] == b@[j],
        decreases a@.len() - i,
    {
        if a[i] != b[i] {
            return false;
        }
        i += 1;
    }
    assert(a@ =~= b@);
    true
}

/// A combination of source indices.
#[derive(Debug, Hash)]
pub struct Idx(Vec<usize>);

impl View for Idx {
    type V = Seq<usize>;

    closed spec fn view(&self) -> Seq<usize> {
        self.0@
    }
}

impl PartialEq for Idx {
    fn eq(&self, other: &Idx) -> (r: bool) {
        same_indices(&self.0, &other.0)
    }
}

impl PartialEqSpecImpl for Idx {
    open spec fn obeys_eq_spec() -> bool {
        true
    }

    open spec fn eq_spec(&self, other: &Idx) -> bool {
        self@ == other@
    }
}

impl Eq for Idx {

}

impl Clone for Idx {
    fn clone(&self) -> (c: Idx)
        ensures
            c@ == self@,
    {
        Idx(self.0.clone())
    }
}

/// A combination written as one bit per source.
#[derive(Debug)]
pub struct BIdx(Vec<bool>);

impl View for BIdx {
    type V = Seq<bool>;

    closed spec fn view(&self) -> Seq<bool> {
        self.0@
    }
}

impl PartialEq for BIdx {
    fn eq(&self, other: &BIdx) -> (r: bool) {
        if self.0.len() != other.0.len() {
            return false;
        }
        let mut i: usize = 0;
        while i < self.0.len()
            invariant
                i <= self.0@.len(),
                self.0@.len() == other.0@.len(),
                forall|j: int| 0 <= j < i ==> self.0@[j] == other.0@[j],
            decreases self.0@.len() - i,
        {
            if self.0[i] != other.0[i] {
                return false;
            }
            i += 1;
        }
        assert(self.0@ =~= other.0@);
        true
    }
}

impl PartialEqSpecImpl for BIdx {
    open spec fn obeys_eq_spec() -> bool {
        true
    }

    open spec fn eq_spec(&self, other: &BIdx) -> bool {
        self@ == other@
    }
}

impl Eq for BIdx {

}

/// The number of a list of indices: the indices, each modulo the prime
/// 4294967291, as the digits of a numeral to the base 1000003, modulo that
/// prime.
pub open spec fn hash_indices(c: Seq<usize>) -> u64
    decreases c.len(),
{
    if c.len() == 0 {
        0
    } else {
        ((hash_indices(c.drop_last()) * 1000003 + c.last() % 4294967291) % 4294967291) as u64
    }
}

impl Value for Idx {
    open spec fn hash_of(v: Seq<usize>) -> u64 {
        hash_indices(v)
    }

    fn hash(&self) -> (h: u64) {
        let mut h: u64 = 0;
        let mut i: usize = 0;
        proof {
            assert(self.0@.take(0) =~= Seq::<usize>::empty());
        }
        while i < self.0.len()
            invariant
                i <= self.0@.len(),
                h == hash_indices(self.0@.take(i as int)),
                h < 4294967291,
            decreases self.0@.len() - i,
        {
            proof {
                assert(self.0@.take(i + 1).drop_last() =~= self.0@.take(i as int));
            }
            h = (h * 1000003 + self.0[i] as u64 % 4294967291) % 4294967291;
            i += 1;
        }
        proof {
            assert(self.0@.take(i as int) =~= self.0@);
        }
        h
    }

    fn same(&self, other: &Idx) -> (r: bool) {
        same_indices(&self.0, &other.0)
    }

    fn copy(&self) -> (r: Idx) {
        self.clone()
    }
}

impl Idx {
    /// Wraps a list of source indices.
    pub fn new(v: Vec<usize>) -> (idx: Idx)
        ensures
            idx@ == v@,
    {
        Idx(v)
    }

    /// The number of indices in the combination.
    pub fn len(&self) -> (n: usize)
        ensures
            n == self@.len(),
    {
        self.0.len()
    }

    /// Whether the combination names no source at all.
    pub fn is_empty(&self) -> (b: bool)
        ensures
            b == (self@.len() == 0),
    {
        self.0.len() == 0
    }

    /// The bit vector of width `n`: position `i` is set exactly when `i`
    /// occurs in the combination. Indices at or beyond `n` leave no trace.
    pub fn to_bidx(&self, n: usize) -> (b: BIdx)
        ensures
            b@ == bit_vector(self@, n as nat),
    {
        let mut bits: Vec<bool> = Vec::new();
        let mut i: usize = 0;
        while i < n
            invariant
                i <= n,
                bits@.len() == i,
                forall|j: int| 0 <= j < i ==> !bits@[j],
            decreases n - i,
        {
            bits.push(false);
            i += 1;
        }
        let mut k: usize = 0;
        while k < self.0.len()
            invariant
                k <= self.0@.len(),
                bits@.len() == n,
                forall|j: int|
                    0 <= j < n ==> (#[trigger] bits@[j] <==> exists|m: int|
                        0 <= m < k && self.0@[m] == j),
            decreases self.0@.len() - k,
        {
            let x: usize = self.0[k];
            if x < n {
                bits.set(x, true);
            }
            k += 1;
        }
        assert(bits@ =~= bit_vector(self@, n as nat));
        BIdx(bits)
    }
}

impl From<Vec<usize>> for Idx {
    fn from(item: Vec<usize>) -> (idx: Idx)
        ensures
            idx@ == item@,
    {
        Idx(item)
    }
}

impl vstd::std_specs::convert::FromSpecImpl<Vec<usize>> for Idx {
    open spec fn obeys_from_spec() -> bool {
        true
    }

    closed spec fn from_spec(v: Vec<usize>) -> Idx {
        Idx(v)
    }
}

impl From<Idx> for Vec<usize> {
    fn from(item: Idx) -> (v: Vec<usize>)
        ensures
            v@ == item@,
    {
        item.0
    }
}

impl vstd::std_specs::convert::FromSpecImpl<Idx> for Vec<usize> {
    open spec fn obeys_from_spec() -> bool {
        true
    }

    closed spec fn from_spec(v: Idx) -> Vec<usize> {
        v.0
    }
}

impl core::ops::Index<usize> for Idx {
    type Output = usize;

    fn index(&self, i: usize) -> (x: &usize)
        ensures
            *x == self@[i as int],
    {
        &self.0[i]
    }
}

impl vstd::std_specs::core::IndexSpecImpl<usize> for Idx {
    open spec fn index_req(&self, i: &usize) -> bool {
        *i < self@.len()
    }
}

impl BIdx {
    /// Wraps a list of bits.
    pub fn new(v: Vec<bool>) -> (b: BIdx)
        ensures
            b@ == v@,
    {
        BIdx(v)
    }

    /// The bits as a string of `'1'` and `'0'`, position 0 first.
    pub fn to_string(&self) -> (s: String)
        ensures
            s@ == bit_string(self@),
    {
        let mut s = String::new();
        let mut i: usize = 0;
        while i < self.0.len()
            invariant
                i <= self.0@.len(),
                s@ == bit_string(self.0@.take(i as int)),
            decreases self.0@.len() - i,
        {
            proof {
                reveal_strlit("1");
                reveal_strlit("0");
            }
            if self.0[i] {
                s.append("1");
            } else {
                s.append("0");
            }
            i += 1;
            assert(s@ =~= bit_string(self.0@.take(i as int)));
        }
        assert(self.0@.take(i as int) =~= self.0@);
        s
    }

    /// The bits read as a binary numeral, or `None` where that number is too
    /// large for a `usize`.
    pub fn checked_to_decimal(&self) -> (r: Option<usize>)
        ensures
            match r {
                Some(v) => v == decimal(self@),
                None => decimal(self@) > usize::MAX,
            },
    {
        let mut acc: usize = 0;
        let mut i: usize = 0;
        while i < self.0.len()
            invariant
                i <= self.0@.len(),
                acc == decimal(self.0@.take(i as int)),
            decreases self.0@.len() - i,
        {
            let bit: usize = if self.0[i] { 1 } else { 0 };
            proof {
                assert(self.0@.take(i + 1) =~= self.0@.take(i as int).push(self.0@[i as int]));
                lemma_decimal_push(self.0@.take(i as int), self.0@[i as int]);
                lemma_decimal_prefix(self.0@, i + 1);
            }
            let doubled = match acc.checked_mul(2) {
                Some(d) => d,
                None => {
                    return None;
                },
            };
            acc = match doubled.checked_add(bit) {
                Some(a) => a,
                None => {
                    return None;
                },
            };
            i += 1;
        }
        assert(self.0@.take(i as int) =~= self.0@);
        Some(acc)
    }

    /// The bits read as a binary numeral.
    pub fn to_decimal(&self) -> (v: usize)
        requires
            decimal(self@) <= usize::MAX,
        ensures
            v == decimal(self@),
    {
        match self.checked_to_decimal() {
            Some(v) => v,
            None => 0,
        }
    }
}

/// The string of the bit vector of width `n` of a combination has `n`
/// characters, and character `i` is `'1'` where `i` occurs in the
/// combination and `'0'` where it does not.
pub proof fn lemma_bit_string_of_combination(c: Seq<usize>, n: nat)
    ensures
        bit_string(bit_vector(c, n)).len() == n,
        forall|i: int|
            0 <= i < n ==> (#[trigger] bit_string(bit_vector(c, n))[i] == '1' <==> has_index(c, i)),
        forall|i: int|
            0 <= i < n ==> (#[trigger] bit_string(bit_vector(c, n))[i] == '0' <==> !has_index(
                c,
                i,
            )),
{
}

/// Appending a digit doubles the numeral and adds the digit.
pub proof fn lemma_decimal_push(bits: Seq<bool>, b: bool)
    ensures
        decimal(bits.push(b)) == 2 * decimal(bits) + (if b { 1nat } else { 0nat }),
    decreases bits.len(),
{
    if bits.len() == 0 {
        assert(bits.push(b).drop_first() =~= Seq::<bool>::empty());
        assert(decimal(bits.push(b).drop_first()) == 0);
        lemma2_to64();
    } else {
        assert(bits.push(b).drop_first() =~= bits.drop_first().push(b));
        lemma_decimal_push(bits.drop_first(), b);
        lemma_pow2_unfold(bits.len());
    }
}

/// A numeral is at least as large as any of its prefixes.
pub proof fn lemma_decimal_prefix(bits: Seq<bool>, i: int)
    requires
        0 <= i <= bits.len(),
    ensures
        decimal(bits.take(i)) <= decimal(bits),
    decreases bits.len() - i,
{
    if i < bits.len() {
        lemma_decimal_prefix(bits, i + 1);
        assert(bits.take(i + 1) =~= bits.take(i).push(bits[i]));
        lemma_decimal_push(bits.take(i), bits[i]);
    } else {
        assert(bits.take(i) =~= bits);
    }
}

/// The largest pool of sources that combinations are drawn from. A
/// combination and the pool behind it are each held in a single allocation,
/// whose size in bytes has to stay below `isize::MAX`.
pub const MAX_SIZE: usize = usize::MAX / 16;

/// `c` is a strictly increasing sequence of indices taken from `lo..n`.
pub open spec fn increasing_within(c: Seq<usize>, lo: nat, n: nat) -> bool {
    &&& forall|a: int| 0 <= a < c.len() ==> lo <= #[trigger] c[a] < n
    &&& forall|a: int, b: int| 0 <= a < b < c.len() ==> c[a] < c[b]
}

/// `a` comes before `b` in lexicographic order: at the first position where
/// they differ `a` is smaller, or `a` ends there and `b` goes on.
pub open spec fn lex_less(a: Seq<usize>, b: Seq<usize>) -> bool {
    exists|p: int|
        0 <= p <= a.len() && p <= b.len() && #[trigger] a.take(p) == b.take(p) && (if p < a.len() {
            p < b.len() && a[p] < b[p]
        } else {
            p < b.len()
        })
}

/// Whether `s` lists the combinations of `k` out of `n` sources: its members
/// are the strictly increasing sequences of `k` indices below `n`, and they
/// stand in strictly increasing lexicographic order.
pub open spec fn lists_combinations(s: Seq<Seq<usize>>, n: nat, k: nat) -> bool {
    &&& forall|i: int|
        0 <= i < s.len() ==> (#[trigger] s[i]).len() == k && increasing_within(s[i], 0, n)
    &&& forall|c: Seq<usize>| c.len() == k && increasing_within(c, 0, n) ==> s.contains(c)
    &&& forall|i: int, j: int| 0 <= i < j < s.len() ==> lex_less(s[i], s[j])
}

/// Every strictly increasing sequence of `k` indices taken from `lo..n`, in
/// lexicographic order: first those that begin with `lo`, then the others.
pub open spec fn combinations_from(lo: nat, n: nat, k: nat) -> Seq<Seq<usize>>
    decreases n - lo,
{
    if k == 0 {
        seq![Seq::<usize>::empty()]
    } else if lo >= n {
        Seq::empty()
    } else {
        combinations_from(lo + 1, n, (k - 1) as nat).map_values(
            |c: Seq<usize>| seq![lo as usize] + c,
        ) + combinations_from(lo + 1, n, k)
    }
}

/// Every combination of `k` out of the `n` sources `0..n`, in lexicographic
/// order.
pub open spec fn combinations(n: nat, k: nat) -> Seq<Seq<usize>> {
    combinations_from(0, n, k)
}

/// The combinations of every depth from `lo` up to and including `hi`, the
/// shallower ones first.
pub open spec fn depths(n: nat, lo: nat, hi: nat) -> Seq<Seq<usize>>
    decreases hi + 1 - lo,
{
    if lo > hi {
        Seq::empty()
    } else {
        combinations(n, lo) + depths(n, lo + 1, hi)
    }
}

/// The depth at which generation starts: 1 unless one is asked for.
pub open spec fn first_depth(depth_begin: Option<usize>) -> nat {
    match depth_begin {
        Some(d) => d as nat,
        None => 1,
    }
}

/// The depth at which generation ends: the number of sources, or the depth
/// asked for where that is smaller.
pub open spec fn last_depth(size: usize, depth_end: Option<usize>) -> nat {
    match depth_end {
        Some(d) => if d < size { d as nat } else { size as nat },
        None => size as nat,
    }
}

/// Whether the combinations asked for can be generated: where the range of
/// depths is not empty, there may be no more than `MAX_SIZE` sources.
pub open spec fn can_generate(size: usize, depth_begin: Option<usize>, depth_end: Option<usize>) -> bool {
    first_depth(depth_begin) <= last_depth(size, depth_end) ==> size <= MAX_SIZE
}

/// What an `Indexes` made from these arguments yields, in order.
pub open spec fn generated(size: usize, depth_begin: Option<usize>, depth_end: Option<usize>) -> Seq<
    Seq<usize>,
> {
    depths(size as nat, first_depth(depth_begin), last_depth(size, depth_end))
}

/// The combinations held in a list of `Idx`.
pub open spec fn idx_views(v: Seq<Idx>) -> Seq<Seq<usize>> {
    v.map_values(|i: Idx| i@)
}

/// The lazy combination iterator of `itertools` over the range `0..n`.
#[verifier::external_body]
pub struct Pool {
    it: itertools::structs::Combinations<std::ops::Range<usize>>,
}

/// The combinations that a `Pool` has yet to yield, in the order in which it
/// will yield them.
pub uninterp spec fn pending(p: Pool) -> Seq<Seq<usize>>;

/// `Itertools::combinations` on the range `0..n`, for `k` no larger than `n`.
/// The iterator it returns yields each selection of `k` positions of the
/// range once, as the elements at those positions in increasing order of
/// position, and goes from one selection to the next in lexicographic
/// order. The elements of the range `0..n` are the positions themselves.
/// Nothing of this is proved here.
#[verifier::external_body]
fn pool_new(n: usize, k: usize) -> (p: Pool)
    requires
        k <= n <= MAX_SIZE,
    ensures
        lists_combinations(pending(p), n as nat, k as nat),
{
    Pool { it: itertools::Itertools::combinations(0..n, k) }
}

/// `Iterator::next` of the `itertools` combination iterator: hands out the
/// first pending combination, and `None` from the moment none is left.
/// Nothing of this is proved here.
#[verifier::external_body]
fn pool_next(p: &mut Pool) -> (r: Option<Vec<usize>>)
    ensures
        match r {
            Some(c) => {
                &&& pending(*old(p)).len() > 0
                &&& c@ == pending(*old(p))[0]
                &&& pending(*final(p)) == pending(*old(p)).drop_first()
            },
            None => pending(*old(p)).len() == 0 && pending(*final(p)).len() == 0,
        },
{
    p.it.next()
}

/// The combinations of one depth, produced one at a time.
pub struct Combinations {
    pool: Option<Pool>,
}

impl Combinations {
    /// The combinations not yet produced, in order.
    pub closed spec fn remaining(&self) -> Seq<Seq<usize>> {
        match self.pool {
            Some(p) => pending(p),
            None => Seq::empty(),
        }
    }

    /// Starts on the combinations of `r` out of `n` sources. Where there
    /// are any, `n` may not exceed `MAX_SIZE`.
    pub fn new(n: usize, r: usize) -> (c: Combinations)
        requires
            r <= n ==> n <= MAX_SIZE,
        ensures
            c.remaining() == combinations(n as nat, r as nat),
    {
        if r <= n {
            let pool = pool_new(n, r);
            proof {
                lemma_combinations_unique(pending(pool), n as nat, r as nat);
            }
            Combinations { pool: Some(pool) }
        } else {
            proof {
                lemma_too_deep(0, n as nat, r as nat);
            }
            Combinations { pool: None }
        }
    }

    /// Produces the next combination, or `None` once all have been produced.
    pub fn next(&mut self) -> (r: Option<Vec<usize>>)
        ensures
            match r {
                Some(c) => {
                    &&& old(self).remaining().len() > 0
                    &&& c@ == old(self).remaining()[0]
                    &&& final(self).remaining() == old(self).remaining().drop_first()
                },
                None => old(self).remaining().len() == 0 && final(self).remaining().len() == 0,
            },
    {
        match &mut self.pool {
            Some(p) => pool_next(p),
            None => None,
        }
    }

    /// Produces all the remaining combinations at once.
    pub fn collect(self) -> (v: Vec<Vec<usize>>)
        ensures
            v@.map_values(|c: Vec<usize>| c@) == self.remaining(),
    {
        let mut it = self;
        let mut v: Vec<Vec<usize>> = Vec::new();
        loop
            invariant
                v@.map_values(|c: Vec<usize>| c@) + it.remaining() == self.remaining(),
            decreases it.remaining().len(),
        {
            match it.next() {
                Some(c) => {
                    v.push(c);
                },
                None => {
                    assert(v@.map_values(|c: Vec<usize>| c@) =~= self.remaining());
                    return v;
                },
            }
            assert(v@.map_values(|c: Vec<usize>| c@) + it.remaining() =~= self.remaining());
        }
    }
}

/// The depths that are still to be enumerated, for a fixed number of sources.
struct DepthRange {
    n: usize,
    next: usize,
    last: usize,
    done: bool,
}

impl DepthRange {
    #[verifier::type_invariant]
    spec fn inv(&self) -> bool {
        !self.done ==> self.next <= self.last <= self.n <= MAX_SIZE
    }

    /// The combinations of all the depths that are left.
    closed spec fn rest(&self) -> Seq<Seq<usize>> {
        if self.done {
            Seq::empty()
        } else {
            depths(self.n as nat, self.next as nat, self.last as nat)
        }
    }

    /// Takes the shallowest depth that is left and starts on its combinations.
    fn pop(&mut self) -> (c: Option<Combinations>)
        ensures
            match c {
                Some(c) => {
                    &&& c.remaining() + final(self).rest() == old(self).rest()
                    &&& final(self).left() < old(self).left()
                },
                None => old(self).rest() == Seq::<Seq<usize>>::empty() && *final(self) == *old(
                    self,
                ),
            },
    {
        proof {
            use_type_invariant(&*self);
        }
        if self.done {
            return None;
        }
        let d: usize = self.next;
        if d == self.last {
            self.done = true;
        } else {
            self.next = d + 1;
        }
        assert(depths(self.n as nat, (d + 1) as nat, d as nat) =~= Seq::<Seq<usize>>::empty());
        Some(Combinations::new(self.n, d))
    }

    /// How many depths are left.
    closed spec fn left(&self) -> nat {
        if self.done {
            0
        } else {
            (self.last - self.next + 1) as nat
        }
    }
}

/// The combinations of a range of depths, produced one at a time: all of one
/// depth before any of the next.
pub struct Indexes {
    range: DepthRange,
    it: Option<Combinations>,
}

impl Indexes {
    /// The combinations not yet produced, in order.
    pub closed spec fn remaining(&self) -> Seq<Seq<usize>> {
        (match self.it {
            Some(c) => c.remaining(),
            None => Seq::empty(),
        }) + self.range.rest()
    }

    /// Starts on the combinations of `size` sources whose depth lies between
    /// `depth_begin` (1 if `None`) and `depth_end` (`size` if `None`, and
    /// never more than `size`).
    pub fn new(size: usize, depth_begin: Option<usize>, depth_end: Option<usize>) -> (g: Indexes)
        requires
            can_generate(size, depth_begin, depth_end),
        ensures
            g.remaining() == generated(size, depth_begin, depth_end),
    {
        let next: usize = match depth_begin {
            Some(d) => d,
            None => 1,
        };
        let last: usize = match depth_end {
            Some(d) => if d < size { d } else { size },
            None => size,
        };
        let range = DepthRange { n: size, next, last, done: next > last };
        let g = Indexes { range, it: None };
        assert(g.remaining() =~= generated(size, depth_begin, depth_end));
        g
    }

    /// As `new`, but `None` where the combinations cannot be generated.
    pub fn try_new(size: usize, depth_begin: Option<usize>, depth_end: Option<usize>) -> (g: Option<
        Indexes,
    >)
        ensures
            g is Some <==> can_generate(size, depth_begin, depth_end),
            g matches Some(g) ==> g.remaining() == generated(size, depth_begin, depth_end),
    {
        let empty = match (depth_begin, depth_end) {
            (Some(b), Some(e)) => b > e || b > size,
            (Some(b), None) => b > size,
            (None, Some(e)) => e < 1 || size < 1,
            (None, None) => size < 1,
        };
        if empty || size <= MAX_SIZE {
            Some(Indexes::new(size, depth_begin, depth_end))
        } else {
            None
        }
    }

    /// Produces the next combination, or `None` once all have been produced.
    pub fn next(&mut self) -> (r: Option<Idx>)
        ensures
            match r {
                Some(idx) => {
                    &&& old(self).remaining().len() > 0
                    &&& idx@ == old(self).remaining()[0]
                    &&& final(self).remaining() == old(self).remaining().drop_first()
                },
                None => old(self).remaining().len() == 0 && final(self).remaining().len() == 0,
            },
    {
        loop
            invariant
                self.remaining() == old(self).remaining(),
            decreases self.range.left(),
        {
            let cur = self.it.take();
            if let Some(mut c) = cur {
                let x = c.next();
                if let Some(v) = x {
                    self.it = Some(c);
                    assert(self.remaining() =~= old(self).remaining().drop_first());
                    return Some(Idx(v));
                }
            }
            match self.range.pop() {
                Some(c) => {
                    self.it = Some(c);
                },
                None => {
                    return None;
                },
            }
            assert(self.remaining() =~= old(self).remaining());
        }
    }

    /// Produces all the remaining combinations at once.
    pub fn collect(self) -> (v: Vec<Idx>)
        ensures
            idx_views(v@) == self.remaining(),
    {
        let mut g = self;
        let mut v: Vec<Idx> = Vec::new();
        loop
            invariant
                idx_views(v@) + g.remaining() == self.remaining(),
            decreases g.remaining().len(),
        {
            match g.next() {
                Some(idx) => {
                    v.push(idx);
                },
                None => {
                    assert(idx_views(v@) =~= self.remaining());
                    return v;
                },
            }
            assert(idx_views(v@) + g.remaining() =~= self.remaining());
        }
    }
}

} // verus!
