//! From input lines to the lines of the membership table.

use crate::multiset::{
    inserted, record, satisfied, satisfies, union_of, MultiSet, MultiSetElement, MultiSetIterator,
};
use crate::setidx::{
    bit_string, bit_vector, can_generate, decimal, generated, idx_views, Idx, Indexes,
};
use crate::text::{
    decimal_digits, joined, le, lemma_bytes_le_total, lemma_bytes_le_transitive, push_decimal,
    sorted, split, split_on, value_le,
};
use crate::valueset::views;
use std::path::PathBuf;
use vstd::prelude::*;
use vstd::seq_lib::{lemma_multiset_commutative, to_multiset_build, to_multiset_contains};
use vstd::string::StringExecFns;
use vstd::utf8::encode_utf8;

verus! {

/// A path of the standard library, carried through as it is.
#[verifier::external_type_specification]
#[verifier::external_body]
pub struct ExPathBuf(PathBuf);

/// Whether a value is taken into the sets: an empty one only where empty
/// values are asked for.
pub open spec fn kept(v: Seq<char>, use_empty: bool) -> bool {
    use_empty || v.len() > 0
}

/// The sets after the line `line` of source `i` has been read: its text is a
/// value of that source, unless it is empty and empty values are dropped.
pub open spec fn with_line(
    sets: Seq<Set<Seq<char>>>,
    i: nat,
    line: Seq<char>,
    use_empty: bool,
) -> Seq<Set<Seq<char>>> {
    if kept(line, use_empty) {
        inserted(sets, i, line)
    } else {
        sets
    }
}

/// The sets after a line of fields has been read: the field at position `k`
/// is a value of source `k`, unless it is empty and empty values are dropped.
pub open spec fn with_fields(
    sets: Seq<Set<Seq<char>>>,
    fields: Seq<Seq<char>>,
    use_empty: bool,
) -> Seq<Set<Seq<char>>>
    decreases fields.len(),
{
    if fields.len() == 0 {
        sets
    } else {
        with_line(
            with_fields(sets, fields.drop_last(), use_empty),
            (fields.len() - 1) as nat,
            fields.last(),
            use_empty,
        )
    }
}

/// Fills a `MultiSet` from input lines: the lines of one file per source, or
/// lines of separated fields, one field per source.
pub struct MultiSetGenerator<'a> {
    pub files: &'a [PathBuf],
    pub separator: char,
    pub use_empty: bool,
}

impl<'a> MultiSetGenerator<'a> {
    /// For the input files `files`, or lines of fields apart by `separator`
    /// if there is none; empty values are taken in only if `use_empty`.
    pub fn new(files: &'a [PathBuf], separator: char, use_empty: bool) -> (g: MultiSetGenerator<'a>)
        ensures
            g.files == files,
            g.separator == separator,
            g.use_empty == use_empty,
    {
        MultiSetGenerator { files, separator, use_empty }
    }

    /// Whether the input is lines of separated fields rather than files:
    /// that is so where no file is named.
    pub fn reads_fields(&self) -> (b: bool)
        ensures
            b == (self.files@.len() == 0),
    {
        self.files.len() == 0
    }

    /// Takes in one line of file `i`.
    pub fn insert_line(&self, s: &mut MultiSet<String>, i: usize, line: String)
        requires
            i < usize::MAX,
        ensures
            final(s)@ == with_line(old(s)@, i as nat, line@, self.use_empty),
    {
        if !self.use_empty && line.as_str().is_empty() {
            return ;
        }
        s.insert(i, line);
    }

    /// Takes in one line of fields.
    pub fn insert_fields(&self, s: &mut MultiSet<String>, line: &str)
        ensures
            final(s)@ == with_fields(old(s)@, split_on(line@, self.separator), self.use_empty),
    {
        let fields = split(line, self.separator);
        let ghost all = fields@;
        let n = fields.len();
        let mut k: usize = 0;
        proof {
            assert(views(all).take(0) =~= Seq::<Seq<char>>::empty());
        }
        for field in it: fields
            invariant
                n == all.len(),
                k == it.index(),
                it.seq() == all,
                views(all) == split_on(line@, self.separator),
                s@ == with_fields(old(s)@, views(all).take(k as int), self.use_empty),
        {
            proof {
                assert(views(all).take(k + 1).drop_last() =~= views(all).take(k as int));
            }
            self.insert_line(s, k, field);
            k += 1;
        }
        proof {
            assert(views(all).take(k as int) =~= views(all));
        }
    }
}

/// How a combination is written in the header: as the decimal value of its
/// bit vector, or as the bits themselves.
pub open spec fn label(c: Seq<usize>, size: nat, use_decimal_index: bool) -> Seq<char> {
    if use_decimal_index {
        decimal_digits(decimal(bit_vector(c, size)))
    } else {
        bit_string(bit_vector(c, size))
    }
}

/// The header: the labels of the combinations, with one space between each
/// two.
pub open spec fn header(combos: Seq<Seq<usize>>, size: nat, use_decimal_index: bool) -> Seq<char> {
    joined(combos.map_values(|c: Seq<usize>| label(c, size, use_decimal_index)), seq![' '])
}

/// Whether every label of the header can be written: a decimal label has to
/// fit in a `usize`.
pub open spec fn header_fits(combos: Seq<Seq<usize>>, size: nat, use_decimal_index: bool) -> bool {
    use_decimal_index ==> forall|k: int|
        0 <= k < combos.len() ==> decimal(bit_vector(#[trigger] combos[k], size)) <= usize::MAX
}

/// Writes the header of the table for a list of combinations of `size`
/// sources.
pub struct HeaderGenerator<'a> {
    pub indexes: &'a Vec<Idx>,
    pub size: usize,
    pub use_decimal_index: bool,
}

impl<'a> HeaderGenerator<'a> {
    /// For the combinations `indexes` of `size` sources, labelled in decimal
    /// if `use_decimal_index` and as bits if not.
    pub fn new(indexes: &'a Vec<Idx>, size: usize, use_decimal_index: bool) -> (g: HeaderGenerator<
        'a,
    >)
        ensures
            g.indexes == indexes,
            g.size == size,
            g.use_decimal_index == use_decimal_index,
    {
        HeaderGenerator { indexes, size, use_decimal_index }
    }

    /// The header, or `None` where a decimal label does not fit in a `usize`.
    pub fn generate(&self) -> (h: Option<String>)
        ensures
            h is Some <==> header_fits(
                idx_views(self.indexes@),
                self.size as nat,
                self.use_decimal_index,
            ),
            h matches Some(text) ==> text@ == header(
                idx_views(self.indexes@),
                self.size as nat,
                self.use_decimal_index,
            ),
    {
        let ghost combos = idx_views(self.indexes@);
        let ghost labels = combos.map_values(
            |c: Seq<usize>| label(c, self.size as nat, self.use_decimal_index),
        );
        let mut text = String::new();
        let mut k: usize = 0;
        while k < self.indexes.len()
            invariant
                k <= self.indexes@.len(),
                combos == idx_views(self.indexes@),
                labels == combos.map_values(
                    |c: Seq<usize>| label(c, self.size as nat, self.use_decimal_index),
                ),
                header_fits(combos.take(k as int), self.size as nat, self.use_decimal_index),
                text@ == joined(labels.take(k as int), seq![' ']),
            decreases self.indexes@.len() - k,
        {
            proof {
                reveal_strlit(" ");
                assert(labels.take(k + 1).drop_last() =~= labels.take(k as int));
            }
            if k > 0 {
                text.append(" ");
            }
            let bits = self.indexes[k].to_bidx(self.size);
            if self.use_decimal_index {
                match bits.checked_to_decimal() {
                    Some(v) => {
                        push_decimal(&mut text, v);
                    },
                    None => {
                        assert(decimal(bit_vector(combos[k as int], self.size as nat))
                            > usize::MAX);
                        return None;
                    },
                }
            } else {
                text.append(bits.to_string().as_str());
            }
            k += 1;
            assert(text@ =~= joined(labels.take(k as int), seq![' ']));
        }
        proof {
            assert(combos.take(k as int) =~= combos);
            assert(labels.take(k as int) =~= labels);
        }
        Some(text)
    }
}

/// One mark for each combination: `1` where `v` satisfies it, `0` where not.
pub open spec fn marks(sets: Seq<Set<Seq<char>>>, v: Seq<char>, combos: Seq<Seq<usize>>) -> Seq<
    Seq<char>,
> {
    combos.map_values(|c: Seq<usize>| if satisfies(sets, v, c) { seq!['1'] } else { seq!['0'] })
}

/// The row of the table for the value `v`: the value, a space, and its marks
/// with one space between each two.
pub open spec fn row(sets: Seq<Set<Seq<char>>>, v: Seq<char>, combos: Seq<Seq<usize>>) -> Seq<
    char,
> {
    v + seq![' '] + joined(marks(sets, v, combos), seq![' '])
}

/// The values of a list of records.
spec fn values(records: Seq<MultiSetElement<String>>) -> Seq<Seq<char>> {
    records.map_values(|e: MultiSetElement<String>| e@.0)
}

/// Whether each record of the list is the record of its value.
spec fn records_of(
    records: Seq<MultiSetElement<String>>,
    sets: Seq<Set<Seq<char>>>,
    combos: Seq<Seq<usize>>,
) -> bool {
    forall|k: int|
        0 <= k < records.len() ==> (#[trigger] records[k])@ == record(sets, records[k]@.0, combos)
}

/// A copy of a list of combinations.
fn clone_indexes(indexes: &Vec<Idx>) -> (copy: Vec<Idx>)
    ensures
        idx_views(copy@) == idx_views(indexes@),
{
    let mut copy: Vec<Idx> = Vec::new();
    let mut k: usize = 0;
    while k < indexes.len()
        invariant
            k <= indexes@.len(),
            idx_views(copy@) == idx_views(indexes@).take(k as int),
        decreases indexes@.len() - k,
    {
        let ghost before = idx_views(copy@);
        copy.push(indexes[k].clone());
        assert(idx_views(copy@) =~= before.push(indexes@[k as int]@));
        k += 1;
        assert(idx_views(copy@) =~= idx_views(indexes@).take(k as int));
    }
    assert(idx_views(indexes@).take(k as int) =~= idx_views(indexes@));
    copy
}

/// The row of a record.
fn row_text(e: &MultiSetElement<String>, indexes: &Vec<Idx>, Ghost(sets): Ghost<
    Seq<Set<Seq<char>>>,
>) -> (text: String)
    requires
        e@ == record(sets, e@.0, idx_views(indexes@)),
    ensures
        text@ == row(sets, e@.0, idx_views(indexes@)),
{
    let ghost combos = idx_views(indexes@);
    let ghost all = marks(sets, e@.0, combos);
    let mut text = e.element().clone();
    proof {
        reveal_strlit(" ");
        reveal_strlit("1");
        reveal_strlit("0");
    }
    text.append(" ");
    let ghost head = text@;
    let mut k: usize = 0;
    while k < indexes.len()
        invariant
            k <= indexes@.len(),
            combos == idx_views(indexes@),
            all == marks(sets, e@.0, combos),
            e@ == record(sets, e@.0, combos),
            head == e@.0 + seq![' '],
            " "@ == seq![' '],
            "1"@ == seq!['1'],
            "0"@ == seq!['0'],
            text@ == head + joined(all.take(k as int), seq![' ']),
        decreases indexes@.len() - k,
    {
        proof {
            assert(all.take(k + 1).drop_last() =~= all.take(k as int));
            assert(combos[k as int] == indexes@[k as int]@);
            assert(combos.contains(combos[k as int]));
        }
        if k > 0 {
            text.append(" ");
        }
        if e.indexes().contains(&indexes[k]) {
            text.append("1");
        } else {
            text.append("0");
        }
        k += 1;
        assert(text@ =~= head + joined(all.take(k as int), seq![' ']));
    }
    assert(all.take(k as int) =~= all);
    text
}

/// Whether each value of the list comes no earlier than those after it.
spec fn sorted_down(values: Seq<Seq<char>>) -> bool {
    forall|i: int, j: int| 0 <= i <= j < values.len() ==> value_le(values[j], values[i])
}

/// Merges two lists of records, each in the order of its values, into one,
/// last value first.
fn merge_down(
    a: Vec<MultiSetElement<String>>,
    b: Vec<MultiSetElement<String>>,
    Ghost(sets): Ghost<Seq<Set<Seq<char>>>>,
    Ghost(combos): Ghost<Seq<Seq<usize>>>,
) -> (out: Vec<MultiSetElement<String>>)
    requires
        records_of(a@, sets, combos),
        records_of(b@, sets, combos),
        sorted(values(a@)),
        sorted(values(b@)),
    ensures
        records_of(out@, sets, combos),
        sorted_down(values(out@)),
        values(out@).to_multiset() == values(a@).to_multiset().add(values(b@).to_multiset()),
{
    let mut a = a;
    let mut b = b;
    let ghost all = values(a@).to_multiset().add(values(b@).to_multiset());
    let mut out: Vec<MultiSetElement<String>> = Vec::new();
    proof {
        assert(values(out@) =~= Seq::<Seq<char>>::empty());
        broadcast use vstd::seq_lib::group_to_multiset_ensures;

        assert(values(out@).to_multiset().add(values(a@).to_multiset()).add(
            values(b@).to_multiset(),
        ) =~= all);
    }
    while a.len() > 0 || b.len() > 0
        invariant
            records_of(a@, sets, combos),
            records_of(b@, sets, combos),
            records_of(out@, sets, combos),
            sorted(values(a@)),
            sorted(values(b@)),
            sorted_down(values(out@)),
            forall|i: int, j: int|
                0 <= i < a@.len() && 0 <= j < out@.len() ==> value_le(
                    #[trigger] values(a@)[i],
                    #[trigger] values(out@)[j],
                ),
            forall|i: int, j: int|
                0 <= i < b@.len() && 0 <= j < out@.len() ==> value_le(
                    #[trigger] values(b@)[i],
                    #[trigger] values(out@)[j],
                ),
            values(out@).to_multiset().add(values(a@).to_multiset()).add(
                values(b@).to_multiset(),
            ) == all,
        decreases a@.len() + b@.len(),
    {
        let ghost a0 = a@;
        let ghost b0 = b@;
        let ghost out0 = out@;
        let from_a = if a.len() == 0 {
            false
        } else if b.len() == 0 {
            true
        } else {
            !le(a[a.len() - 1].element().as_str(), b[b.len() - 1].element().as_str())
        };
        let popped = if from_a {
            a.pop()
        } else {
            b.pop()
        };
        let e = match popped {
            Some(e) => e,
            None => {
                return out;
            },
        };
        out.push(e);
        proof {
            let x = e@.0;
            assert(values(out@) =~= values(out0).push(x));
            to_multiset_build(values(out0), x);
            if from_a {
                assert(a0 =~= a@.push(e));
                assert(values(a0) =~= values(a@).push(x));
                to_multiset_build(values(a@), x);
                assert(b@ == b0);
            } else {
                assert(b0 =~= b@.push(e));
                assert(values(b0) =~= values(b@).push(x));
                to_multiset_build(values(b@), x);
                assert(a@ == a0);
            }
            assert(values(out@).to_multiset().add(values(a@).to_multiset()).add(
                values(b@).to_multiset(),
            ) =~= all);
            lemma_bytes_le_total(encode_utf8(x), encode_utf8(x));
            assert forall|i: int, j: int| 0 <= i <= j < a@.len() implies value_le(
                values(a@)[i],
                values(a@)[j],
            ) by {
                assert(values(a@)[i] == values(a0)[i]);
                assert(values(a@)[j] == values(a0)[j]);
            }
            assert forall|i: int, j: int| 0 <= i <= j < b@.len() implies value_le(
                values(b@)[i],
                values(b@)[j],
            ) by {
                assert(values(b@)[i] == values(b0)[i]);
                assert(values(b@)[j] == values(b0)[j]);
            }
            assert forall|i: int| 0 <= i < a@.len() implies value_le(
                #[trigger] values(a@)[i],
                x,
            ) by {
                if from_a {
                    assert(values(a@)[i] == values(a0)[i]);
                    assert(x == values(a0)[a0.len() - 1]);
                } else {
                    let top = values(a0)[a0.len() - 1];
                    assert(value_le(values(a0)[i], top));
                    assert(x == values(b0)[b0.len() - 1]);
                    assert(value_le(top, x));
                    lemma_bytes_le_transitive(
                        encode_utf8(values(a@)[i]),
                        encode_utf8(top),
                        encode_utf8(x),
                    );
                }
            }
            assert forall|i: int| 0 <= i < b@.len() implies value_le(
                #[trigger] values(b@)[i],
                x,
            ) by {
                if from_a {
                    let top = values(b0)[b0.len() - 1];
                    assert(value_le(values(b0)[i], top));
                    assert(x == values(a0)[a0.len() - 1]);
                    lemma_bytes_le_total(encode_utf8(x), encode_utf8(top));
                    lemma_bytes_le_transitive(
                        encode_utf8(values(b@)[i]),
                        encode_utf8(top),
                        encode_utf8(x),
                    );
                } else {
                    assert(values(b@)[i] == values(b0)[i]);
                    assert(x == values(b0)[b0.len() - 1]);
                }
            }
            assert forall|i: int, j: int| 0 <= i <= j < out@.len() implies value_le(
                values(out@)[j],
                values(out@)[i],
            ) by {
                if j < out0.len() {
                    assert(values(out@)[i] == values(out0)[i]);
                    assert(values(out@)[j] == values(out0)[j]);
                } else if i < out0.len() {
                    assert(values(out@)[i] == values(out0)[i]);
                    if from_a {
                        assert(value_le(values(a0)[a0.len() - 1], values(out0)[i]));
                    } else {
                        assert(value_le(values(b0)[b0.len() - 1], values(out0)[i]));
                    }
                }
            }
            assert forall|i: int, j: int| 0 <= i < a@.len() && 0 <= j < out@.len() implies value_le(
                #[trigger] values(a@)[i],
                #[trigger] values(out@)[j],
            ) by {
                if j < out0.len() {
                    assert(values(out@)[j] == values(out0)[j]);
                    assert(values(a@)[i] == values(a0)[i]);
                }
            }
            assert forall|i: int, j: int| 0 <= i < b@.len() && 0 <= j < out@.len() implies value_le(
                #[trigger] values(b@)[i],
                #[trigger] values(out@)[j],
            ) by {
                if j < out0.len() {
                    assert(values(out@)[j] == values(out0)[j]);
                    assert(values(b@)[i] == values(b0)[i]);
                }
            }
            assert forall|k: int| 0 <= k < out@.len() implies (#[trigger] out@[k])@ == record(
                sets,
                out@[k]@.0,
                combos,
            ) by {
                if k < out0.len() {
                    assert(out@[k] == out0[k]);
                } else if from_a {
                    assert(e == a0[a0.len() - 1]);
                } else {
                    assert(e == b0[b0.len() - 1]);
                }
            }
        }
    }
    proof {
        assert(values(a@) =~= Seq::<Seq<char>>::empty());
        assert(values(b@) =~= Seq::<Seq<char>>::empty());
        broadcast use vstd::seq_lib::group_to_multiset_ensures;

        assert(values(out@).to_multiset() =~= all);
    }
    out
}

/// The records in the opposite order.
fn reversed(records: Vec<MultiSetElement<String>>) -> (out: Vec<MultiSetElement<String>>)
    ensures
        out@ == records@.reverse(),
{
    let mut rest = records;
    let mut out: Vec<MultiSetElement<String>> = Vec::new();
    while rest.len() > 0
        invariant
            rest@ == records@.take(rest@.len() as int),
            out@ == records@.reverse().take(out@.len() as int),
            out@.len() + rest@.len() == records@.len(),
        decreases rest@.len(),
    {
        let ghost k = out@.len();
        match rest.pop() {
            Some(e) => {
                out.push(e);
            },
            None => {
                return out;
            },
        }
        proof {
            assert(records@.reverse()[k as int] == records@[records@.len() - 1 - k]);
            assert(out@ =~= records@.reverse().take(out@.len() as int));
            assert(rest@ =~= records@.take(rest@.len() as int));
        }
    }
    assert(out@ =~= records@.reverse());
    out
}

/// The records in the order of their values.
fn sort_records(
    records: Vec<MultiSetElement<String>>,
    Ghost(sets): Ghost<Seq<Set<Seq<char>>>>,
    Ghost(combos): Ghost<Seq<Seq<usize>>>,
) -> (out: Vec<MultiSetElement<String>>)
    requires
        records_of(records@, sets, combos),
    ensures
        records_of(out@, sets, combos),
        sorted(values(out@)),
        values(out@).to_multiset() == values(records@).to_multiset(),
    decreases records@.len(),
{
    if records.len() <= 1 {
        proof {
            if records@.len() == 1 {
                lemma_bytes_le_total(
                    encode_utf8(values(records@)[0]),
                    encode_utf8(values(records@)[0]),
                );
            }
        }
        return records;
    }
    let mut left = records;
    let right = left.split_off(left.len() / 2);
    proof {
        assert(records@ =~= left@ + right@);
        assert(values(records@) =~= values(left@) + values(right@));
        lemma_multiset_commutative(values(left@), values(right@));
    }
    let left = sort_records(left, Ghost(sets), Ghost(combos));
    let right = sort_records(right, Ghost(sets), Ghost(combos));
    let down = merge_down(left, right, Ghost(sets), Ghost(combos));
    let out = reversed(down);
    proof {
        assert(values(out@) =~= values(down@).reverse());
        values(down@).lemma_reverse_to_multiset();
        assert forall|i: int, j: int| 0 <= i <= j < values(out@).len() implies value_le(
            values(out@)[i],
            values(out@)[j],
        ) by {
            let n = values(down@).len();
            assert(values(out@)[i] == values(down@)[n - 1 - i]);
            assert(values(out@)[j] == values(down@)[n - 1 - j]);
        }
        assert forall|k: int| 0 <= k < out@.len() implies (#[trigger] out@[k])@ == record(
            sets,
            out@[k]@.0,
            combos,
        ) by {
            assert(out@[k] == down@[down@.len() - 1 - k]);
        }
    }
    out
}

/// Records that were all made and put in the order of their values.
struct Sorted {
    records: Vec<MultiSetElement<String>>,
    indexes: Vec<Idx>,
    pos: usize,
    sets: Ghost<Seq<Set<Seq<char>>>>,
}

impl Sorted {
    #[verifier::type_invariant]
    spec fn inv(&self) -> bool {
        &&& self.pos <= self.records@.len()
        &&& records_of(self.records@, self.sets@, idx_views(self.indexes@))
    }

    /// The values whose rows are still to come.
    closed spec fn pending(&self) -> Seq<Seq<char>> {
        values(self.records@).skip(self.pos as int)
    }

    /// The row of the next record.
    fn next(&mut self) -> (r: Option<String>)
        ensures
            final(self).sets == old(self).sets,
            final(self).indexes == old(self).indexes,
            match r {
                Some(text) => {
                    &&& old(self).pending().len() > 0
                    &&& text@ == row(
                        old(self).sets@,
                        old(self).pending()[0],
                        idx_views(old(self).indexes@),
                    )
                    &&& final(self).pending() == old(self).pending().drop_first()
                },
                None => old(self).pending().len() == 0 && final(self).pending().len() == 0,
            },
    {
        proof {
            use_type_invariant(&*self);
        }
        if self.pos >= self.records.len() {
            return None;
        }
        let text = row_text(&self.records[self.pos], &self.indexes, Ghost(self.sets@));
        self.pos = self.pos + 1;
        assert(self.pending() =~= old(self).pending().drop_first());
        Some(text)
    }
}

/// Where the records of the rows come from.
enum Records {
    /// Each record is made when its row is asked for.
    Lazy(MultiSetIterator<String>),
    /// All the records were made beforehand and sorted.
    Sorted(Sorted),
}

/// The rows of the table, produced one at a time.
pub struct ElementStringerIntoIterator {
    records: Records,
}

impl ElementStringerIntoIterator {
    /// The sets that the rows are about.
    pub closed spec fn sets(&self) -> Seq<Set<Seq<char>>> {
        match self.records {
            Records::Lazy(it) => it.sets(),
            Records::Sorted(s) => s.sets@,
        }
    }

    /// The combinations that make up the columns.
    pub closed spec fn combinations(&self) -> Seq<Seq<usize>> {
        match self.records {
            Records::Lazy(it) => it.combinations(),
            Records::Sorted(s) => idx_views(s.indexes@),
        }
    }

    /// The values whose rows are still to come, in the order of the rows.
    pub closed spec fn pending(&self) -> Seq<Seq<char>> {
        match self.records {
            Records::Lazy(it) => it.order().skip(it.position() as int),
            Records::Sorted(s) => s.pending(),
        }
    }

    /// Produces the next row, or `None` once every value has had its row.
    pub fn next(&mut self) -> (r: Option<String>)
        ensures
            final(self).sets() == old(self).sets(),
            final(self).combinations() == old(self).combinations(),
            match r {
                Some(text) => {
                    &&& old(self).pending().len() > 0
                    &&& text@ == row(old(self).sets(), old(self).pending()[0], old(
                        self,
                    ).combinations())
                    &&& final(self).pending() == old(self).pending().drop_first()
                },
                None => old(self).pending().len() == 0 && final(self).pending().len() == 0,
            },
    {
        match &mut self.records {
            Records::Lazy(it) => {
                let ghost before = *it;
                match it.next() {
                    Some(e) => {
                        let text = row_text(&e, it.indexes(), Ghost(it.sets()));
                        assert(it.order().skip(it.position() as int) =~= before.order().skip(
                            before.position() as int,
                        ).drop_first());
                        Some(text)
                    },
                    None => None,
                }
            },
            Records::Sorted(s) => s.next(),
        }
    }
}

/// Writes the rows of the table for a `MultiSet` and a list of combinations,
/// in the order of the values if asked to.
pub struct ElementStringer<'a> {
    pub use_sort: bool,
    pub indexes: &'a Vec<Idx>,
    pub ms: &'a MultiSet<String>,
}

impl<'a> ElementStringer<'a> {
    /// For the sets `ms` and the combinations `indexes`, the rows sorted if
    /// `use_sort`.
    pub fn new(indexes: &'a Vec<Idx>, ms: &'a MultiSet<String>, use_sort: bool) -> (e:
        ElementStringer<'a>)
        ensures
            e.indexes == indexes,
            e.ms == ms,
            e.use_sort == use_sort,
    {
        ElementStringer { use_sort, indexes, ms }
    }

    /// Starts on the rows: one for each value of the union. They are worked
    /// out from a copy of the sets and of the combinations.
    pub fn into_iter(self) -> (rows: ElementStringerIntoIterator)
        ensures
            rows.sets() == self.ms@,
            rows.combinations() == idx_views(self.indexes@),
            rows.pending().no_duplicates(),
            rows.pending().to_set() == union_of(self.ms@),
            rows.pending().len() == union_of(self.ms@).len(),
            self.use_sort ==> sorted(rows.pending()),
    {
        let it = self.ms.clone().element_iter(clone_indexes(self.indexes));
        if self.use_sort {
            let ghost order = it.order();
            let ghost sets = it.sets();
            let ghost combos = it.combinations();
            let records = it.collect();
            proof {
                assert(values(records@) =~= order);
            }
            let records = sort_records(records, Ghost(sets), Ghost(combos));
            proof {
                lemma_same_values(order, values(records@));
                values(records@).unique_seq_to_set();
            }
            let s = Sorted {
                records,
                indexes: clone_indexes(self.indexes),
                pos: 0,
                sets: Ghost(sets),
            };
            assert(s.pending() =~= values(s.records@));
            ElementStringerIntoIterator { records: Records::Sorted(s) }
        } else {
            assert(it.order().skip(0) =~= it.order());
            ElementStringerIntoIterator { records: Records::Lazy(it) }
        }
    }
}

/// A list with the same values as one in which nothing occurs twice, each as
/// often, holds nothing twice either, and the same set of values.
proof fn lemma_same_values(a: Seq<Seq<char>>, b: Seq<Seq<char>>)
    requires
        a.no_duplicates(),
        b.to_multiset() == a.to_multiset(),
    ensures
        b.no_duplicates(),
        b.to_set() == a.to_set(),
{
    a.lemma_multiset_has_no_duplicates();
    b.lemma_multiset_has_no_duplicates_conv();
    assert forall|x: Seq<char>| b.to_set().contains(x) <==> a.to_set().contains(x) by {
        to_multiset_contains(a, x);
        to_multiset_contains(b, x);
    }
    assert(b.to_set() =~= a.to_set());
}

/// The first line of the table: the token `u`, a space, and the header.
pub open spec fn header_line(combos: Seq<Seq<usize>>, size: nat, use_decimal_index: bool) -> Seq<
    char,
> {
    seq!['u', ' '] + header(combos, size, use_decimal_index)
}

/// What a run is asked to do, and the steps of a run that need no input or
/// output: which combinations to test, the header, and the rows.
pub struct Executor {
    pub files: Vec<PathBuf>,
    pub use_decimal_index: bool,
    pub depth_begin: Option<usize>,
    pub depth_end: Option<usize>,
    pub separator: char,
    pub use_empty: bool,
    pub use_sort: bool,
}

impl Executor {
    /// A run with these options.
    pub fn new(
        files: Vec<PathBuf>,
        use_decimal_index: bool,
        depth_begin: Option<usize>,
        depth_end: Option<usize>,
        separator: char,
        use_empty: bool,
        use_sort: bool,
    ) -> (e: Executor)
        ensures
            e.files == files,
            e.use_decimal_index == use_decimal_index,
            e.depth_begin == depth_begin,
            e.depth_end == depth_end,
            e.separator == separator,
            e.use_empty == use_empty,
            e.use_sort == use_sort,
    {
        Executor {
            files,
            use_decimal_index,
            depth_begin,
            depth_end,
            separator,
            use_empty,
            use_sort,
        }
    }

    /// What takes in the input lines of this run.
    pub fn generator(&self) -> (g: MultiSetGenerator<'_>)
        ensures
            g.files@ == self.files@,
            g.separator == self.separator,
            g.use_empty == self.use_empty,
    {
        MultiSetGenerator::new(self.files.as_slice(), self.separator, self.use_empty)
    }

    /// The combinations to test for `size` sources, in the order of the
    /// columns, or `None` where there are more sources than combinations
    /// can be drawn from.
    pub fn indexes(&self, size: usize) -> (v: Option<Vec<Idx>>)
        ensures
            v is Some <==> can_generate(size, self.depth_begin, self.depth_end),
            v matches Some(list) ==> idx_views(list@) == generated(
                size,
                self.depth_begin,
                self.depth_end,
            ),
    {
        match Indexes::try_new(size, self.depth_begin, self.depth_end) {
            Some(g) => Some(g.collect()),
            None => None,
        }
    }

    /// The first line of the table, or `None` where a decimal label does not
    /// fit in a `usize`.
    pub fn header(&self, indexes: &Vec<Idx>, size: usize) -> (h: Option<String>)
        ensures
            h is Some <==> header_fits(idx_views(indexes@), size as nat, self.use_decimal_index),
            h matches Some(text) ==> text@ == header_line(
                idx_views(indexes@),
                size as nat,
                self.use_decimal_index,
            ),
    {
        match HeaderGenerator::new(indexes, size, self.use_decimal_index).generate() {
            Some(h) => {
                proof {
                    reveal_strlit("u ");
                }
                let mut text = String::from_str("u ");
                text.append(h.as_str());
                assert(text@ =~= header_line(
                    idx_views(indexes@),
                    size as nat,
                    self.use_decimal_index,
                ));
                Some(text)
            },
            None => None,
        }
    }

    /// The rows of the table for the sets `ms`, one for each value of the
    /// union, in the order of the values if the run asks for that.
    pub fn rows(&self, indexes: &Vec<Idx>, ms: &MultiSet<String>) -> (rows:
        ElementStringerIntoIterator)
        ensures
            rows.sets() == ms@,
            rows.combinations() == idx_views(indexes@),
            rows.pending().no_duplicates(),
            rows.pending().to_set() == union_of(ms@),
            rows.pending().len() == union_of(ms@).len(),
            self.use_sort ==> sorted(rows.pending()),
    {
        ElementStringer::new(indexes, ms, self.use_sort).into_iter()
    }
}

} // verus!
