//! The text of a membership table: fields of an input line, numbers in
//! decimal, and parts joined by a separator.

use crate::valueset::views;
use vstd::prelude::*;
use vstd::string::{StrSliceExecFns, StringExecFns, StringSliceAdditionalSpecFns};
use vstd::utf8::encode_utf8;

verus! {

/// The fields of `s`: the stretches of characters between one occurrence of
/// `sep` and the next, with the stretch before the first and the one after
/// the last. There is one field more than there are separators.
pub open spec fn split_on(s: Seq<char>, sep: char) -> Seq<Seq<char>>
    decreases s.len(),
{
    if s.len() == 0 {
        seq![Seq::<char>::empty()]
    } else {
        let fields = split_on(s.drop_last(), sep);
        if s.last() == sep {
            fields.push(Seq::<char>::empty())
        } else {
            fields.drop_last().push(fields.last().push(s.last()))
        }
    }
}

/// Splits `line` into its fields.
pub fn split(line: &str, sep: char) -> (fields: Vec<String>)
    ensures
        views(fields@) == split_on(line@, sep),
{
    let n = line.unicode_len();
    let mut fields: Vec<String> = Vec::new();
    let mut start: usize = 0;
    let mut i: usize = 0;
    proof {
        assert(line@.take(0) =~= Seq::<char>::empty());
        assert(line@.subrange(0, 0) =~= Seq::<char>::empty());
        assert(views(fields@).push(Seq::<char>::empty()) =~= seq![Seq::<char>::empty()]);
    }
    for c in it: line.chars()
        invariant
            n == line@.len(),
            i == it.index(),
            start <= i <= n,
            it.seq() == line@,
            views(fields@).push(line@.subrange(start as int, i as int)) == split_on(
                line@.take(i as int),
                sep,
            ),
    {
        assert(line@.take(i + 1).drop_last() =~= line@.take(i as int));
        if c == sep {
            let ghost before = views(fields@);
            fields.push(line.substring_char(start, i).to_owned());
            assert(views(fields@) =~= before.push(line@.subrange(start as int, i as int)));
            start = i + 1;
            assert(line@.subrange(start as int, start as int) =~= Seq::<char>::empty());
        } else {
            assert(line@.subrange(start as int, i + 1) =~= line@.subrange(
                start as int,
                i as int,
            ).push(line@[i as int]));
            assert(views(fields@).push(line@.subrange(start as int, i as int)).drop_last()
                =~= views(fields@));
        }
        i += 1;
    }
    let ghost before = views(fields@);
    fields.push(line.substring_char(start, n).to_owned());
    assert(views(fields@) =~= before.push(line@.subrange(start as int, n as int)));
    assert(line@.take(n as int) =~= line@);
    fields
}


/// The decimal digit for a number below ten.
pub open spec fn digit(d: nat) -> char {
    if d == 0 {
        '0'
    } else if d == 1 {
        '1'
    } else if d == 2 {
        '2'
    } else if d == 3 {
        '3'
    } else if d == 4 {
        '4'
    } else if d == 5 {
        '5'
    } else if d == 6 {
        '6'
    } else if d == 7 {
        '7'
    } else if d == 8 {
        '8'
    } else {
        '9'
    }
}

/// `n` written in decimal, without leading zeros.
pub open spec fn decimal_digits(n: nat) -> Seq<char>
    decreases n,
{
    if n < 10 {
        seq![digit(n)]
    } else {
        decimal_digits(n / 10).push(digit(n % 10))
    }
}

/// The parts one after the other, with `sep` between each two.
pub open spec fn joined(parts: Seq<Seq<char>>, sep: Seq<char>) -> Seq<char>
    decreases parts.len(),
{
    if parts.len() == 0 {
        Seq::empty()
    } else if parts.len() == 1 {
        parts[0]
    } else {
        joined(parts.drop_last(), sep) + sep + parts.last()
    }
}

/// Whether `a` comes no later than `b` when the two are compared byte by
/// byte, a proper prefix coming first.
pub open spec fn bytes_le(a: Seq<u8>, b: Seq<u8>) -> bool
    decreases a.len(),
{
    if a.len() == 0 {
        true
    } else if b.len() == 0 {
        false
    } else if a[0] != b[0] {
        a[0] < b[0]
    } else {
        bytes_le(a.drop_first(), b.drop_first())
    }
}

/// The order of strings: that of their UTF-8 encodings, byte by byte.
pub open spec fn value_le(a: Seq<char>, b: Seq<char>) -> bool {
    bytes_le(encode_utf8(a), encode_utf8(b))
}

/// Whether each value of the list comes no later than those after it.
pub open spec fn sorted(values: Seq<Seq<char>>) -> bool {
    forall|i: int, j: int| 0 <= i <= j < values.len() ==> value_le(values[i], values[j])
}

/// The one-character string of a decimal digit.
fn digit_str(d: usize) -> (s: &'static str)
    requires
        d < 10,
    ensures
        s@ == seq![digit(d as nat)],
{
    proof {
        reveal_strlit("0");
        reveal_strlit("1");
        reveal_strlit("2");
        reveal_strlit("3");
        reveal_strlit("4");
        reveal_strlit("5");
        reveal_strlit("6");
        reveal_strlit("7");
        reveal_strlit("8");
        reveal_strlit("9");
    }
    let s = if d == 0 {
        "0"
    } else if d == 1 {
        "1"
    } else if d == 2 {
        "2"
    } else if d == 3 {
        "3"
    } else if d == 4 {
        "4"
    } else if d == 5 {
        "5"
    } else if d == 6 {
        "6"
    } else if d == 7 {
        "7"
    } else if d == 8 {
        "8"
    } else {
        "9"
    };
    assert(s@ =~= seq![digit(d as nat)]);
    s
}

/// Appends `n` in decimal to `s`.
pub fn push_decimal(s: &mut String, n: usize)
    ensures
        final(s)@ == old(s)@ + decimal_digits(n as nat),
    decreases n,
{
    if n >= 10 {
        push_decimal(s, n / 10);
    }
    s.append(digit_str(n % 10));
    assert(s@ =~= old(s)@ + decimal_digits(n as nat));
}

/// Whether `a` comes no later than `b` in the order of strings.
pub fn le(a: &str, b: &str) -> (r: bool)
    ensures
        r == value_le(a@, b@),
{
    let x = a.as_bytes();
    let y = b.as_bytes();
    let mut i: usize = 0;
    proof {
        assert(x@.skip(0) =~= x@);
        assert(y@.skip(0) =~= y@);
    }
    while i < x.len() && i < y.len()
        invariant
            i <= x@.len(),
            i <= y@.len(),
            x@ == encode_utf8(a@),
            y@ == encode_utf8(b@),
            bytes_le(x@, y@) == bytes_le(x@.skip(i as int), y@.skip(i as int)),
        decreases x@.len() - i,
    {
        proof {
            assert(x@.skip(i as int).drop_first() =~= x@.skip(i + 1));
            assert(y@.skip(i as int).drop_first() =~= y@.skip(i + 1));
            assert(x@.skip(i as int)[0] == x@[i as int]);
            assert(y@.skip(i as int)[0] == y@[i as int]);
        }
        if x[i] != y[i] {
            return x[i] < y[i];
        }
        i += 1;
    }
    i >= x.len()
}

/// The fields of a line, joined by the separator, are the line again, and no
/// field holds the separator.
pub proof fn lemma_split_joined(s: Seq<char>, sep: char)
    ensures
        split_on(s, sep).len() >= 1,
        joined(split_on(s, sep), seq![sep]) == s,
        forall|k: int|
            0 <= k < split_on(s, sep).len() ==> !(#[trigger] split_on(s, sep)[k]).contains(sep),
    decreases s.len(),
{
    let fields = split_on(s, sep);
    if s.len() == 0 {
        assert(joined(fields, seq![sep]) =~= s);
    } else {
        let before = split_on(s.drop_last(), sep);
        lemma_split_joined(s.drop_last(), sep);
        if s.last() == sep {
            assert(fields.drop_last() =~= before);
            assert(joined(fields, seq![sep]) =~= s);
        } else {
            let field = before.last().push(s.last());
            assert(fields.last() == field);
            if before.len() == 1 {
                assert(fields.len() == 1);
                assert(before[0] == s.drop_last());
                assert(fields[0] =~= s);
            } else {
                assert(fields.drop_last() =~= before.drop_last());
                let head = joined(before.drop_last(), seq![sep]) + seq![sep];
                assert(joined(before, seq![sep]) == head + before.last());
                assert(joined(fields, seq![sep]) == head + field);
                assert(head + field =~= (head + before.last()).push(s.last()));
                assert(s.drop_last().push(s.last()) =~= s);
            }
            assert forall|k: int| 0 <= k < fields.len() implies !(#[trigger] fields[k]).contains(
                sep,
            ) by {
                if k < fields.len() - 1 {
                    assert(fields[k] == before[k]);
                } else {
                    if field.contains(sep) {
                        let i = choose|i: int| 0 <= i < field.len() && field[i] == sep;
                        assert(before.last()[i] == sep);
                    }
                }
            }
        }
    }
}

/// Of two strings, one comes no later than the other.
pub proof fn lemma_bytes_le_total(a: Seq<u8>, b: Seq<u8>)
    ensures
        bytes_le(a, b) || bytes_le(b, a),
    decreases a.len(),
{
    if a.len() > 0 && b.len() > 0 && a[0] == b[0] {
        lemma_bytes_le_total(a.drop_first(), b.drop_first());
    }
}

/// The order of strings is transitive.
pub proof fn lemma_bytes_le_transitive(a: Seq<u8>, b: Seq<u8>, c: Seq<u8>)
    requires
        bytes_le(a, b),
        bytes_le(b, c),
    ensures
        bytes_le(a, c),
    decreases a.len(),
{
    if a.len() > 0 && b.len() > 0 && c.len() > 0 && a[0] == b[0] && b[0] == c[0] {
        lemma_bytes_le_transitive(a.drop_first(), b.drop_first(), c.drop_first());
    }
}


/// Two byte strings of which each comes no later than the other are the
/// same.
pub proof fn lemma_bytes_le_antisymmetric(a: Seq<u8>, b: Seq<u8>)
    requires
        bytes_le(a, b),
        bytes_le(b, a),
    ensures
        a == b,
    decreases a.len(),
{
    if a.len() > 0 && b.len() > 0 {
        lemma_bytes_le_antisymmetric(a.drop_first(), b.drop_first());
        assert(a =~= seq![a[0]] + a.drop_first());
        assert(b =~= seq![b[0]] + b.drop_first());
    } else {
        assert(a =~= b);
    }
}

/// Two strings of which each comes no later than the other are the same: a
/// sorted list of strings is in the one order that its strings can be in.
pub proof fn lemma_value_le_antisymmetric(a: Seq<char>, b: Seq<char>)
    requires
        value_le(a, b),
        value_le(b, a),
    ensures
        a == b,
{
    lemma_bytes_le_antisymmetric(encode_utf8(a), encode_utf8(b));
    vstd::utf8::encode_utf8_decode_utf8(a);
    vstd::utf8::encode_utf8_decode_utf8(b);
}

} // verus!
