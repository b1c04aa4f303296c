//! Laws of the operations on text.
use crate::text::{
    decimal, digits_value, ends_with, first_index, is_digit, joined, lemma_occurs,
    lemma_occurs_inside, lemma_together_push, occurs, parsed_unsigned,
    split, split_at_first, text_at_most, together, unsigned_digits,
};
use vstd::prelude::*;

verus! {

/// A text ends with another exactly when something before it makes the whole.
pub proof fn endings_are_suffixes(s: Seq<char>, suffix: Seq<char>)
    ensures
        ends_with(s, suffix) <==> exists|front: Seq<char>| s == #[trigger] (front + suffix),
{
    if ends_with(s, suffix) {
        let front = s.take(s.len() - suffix.len());
        assert(s =~= front + suffix);
    }
    if exists|front: Seq<char>| s == #[trigger] (front + suffix) {
        let front = choose|front: Seq<char>| s == #[trigger] (front + suffix);
        assert(s.skip(s.len() - suffix.len()) =~= suffix);
    }
}

/// A text occurs in another exactly when something before it and something
/// after it make the whole.
pub proof fn occurrences_are_inside(part: Seq<char>, whole: Seq<char>)
    ensures
        occurs(part, whole) <==> exists|before: Seq<char>, after: Seq<char>|
            whole == #[trigger] (before + part + after),
{
    if occurs(part, whole) {
        let i = choose|i: int|
            0 <= i <= whole.len() - part.len() && #[trigger] whole.subrange(i, i + part.len())
                == part;
        let before = whole.take(i);
        let after = whole.skip(i + part.len());
        let cut = whole.subrange(i, i + part.len());
        assert(whole =~= before + cut + after);
        assert(whole == before + part + after);
    }
    if exists|before: Seq<char>, after: Seq<char>| whole == #[trigger] (before + part + after) {
        let (before, after) = choose|before: Seq<char>, after: Seq<char>|
            whole == #[trigger] (before + part + after);
        let i = before.len() as int;
        assert(whole.subrange(i, i + part.len()) =~= part);
    }
}

proof fn lemma_first_index_is_first(s: Seq<char>, c: char)
    ensures
        first_index(s, c) <= s.len(),
        first_index(s, c) < s.len() ==> s[first_index(s, c) as int] == c,
        forall|i: int| 0 <= i < first_index(s, c) ==> s[i] != c,
    decreases s.len(),
{
    if s.len() > 0 && s[0] != c {
        lemma_first_index_is_first(s.skip(1), c);
        assert forall|i: int| 0 <= i < first_index(s, c) implies s[i] != c by {
            if i > 0 {
                assert(s[i] == s.skip(1)[i - 1]);
            }
        }
    }
}

/// Cutting a text at the first occurrence of a character leaves what stands
/// before it, which does not hold the character, and what stands after it. A
/// text is not cut exactly when it does not hold the character.
pub proof fn cuts_are_at_the_first(s: Seq<char>, c: char)
    ensures
        match split_at_first(s, c) {
            Some((before, after)) => s == before.push(c) + after && !before.contains(c),
            None => !s.contains(c),
        },
{
    lemma_first_index_is_first(s, c);
    let i = first_index(s, c) as int;
    if i < s.len() {
        assert(s =~= s.take(i).push(c) + s.skip(i + 1));
    }
}

/// Joining is concatenation: the parts of two lists are joined by joining each
/// list and putting the separator between; a single part is joined to itself.
pub proof fn joining_is_concatenation(a: Seq<Seq<char>>, b: Seq<Seq<char>>, sep: Seq<char>)
    requires
        a.len() > 0,
        b.len() > 0,
    ensures
        joined(a + b, sep) == joined(a, sep) + sep + joined(b, sep),
        joined(seq![a[0]], sep) == a[0],
        joined(Seq::empty(), sep) == Seq::<char>::empty(),
    decreases b.len(),
{
    let all = a + b;
    if b.len() == 1 {
        assert(all.drop_last() =~= a);
        assert(all.last() == b[0]);
    } else {
        let front = b.drop_last();
        joining_is_concatenation(a, front, sep);
        assert(all.drop_last() =~= a + front);
        assert(all.last() == b.last());
        assert(joined(all, sep) == joined(a + front, sep) + sep + b.last());
        assert(joined(b, sep) == joined(front, sep) + sep + b.last());
        assert(joined(all, sep) =~= joined(a, sep) + sep + joined(b, sep));
    }
}

/// Every part occurs in what the parts are joined to.
pub proof fn joined_parts_occur(parts: Seq<Seq<char>>, sep: Seq<char>, k: int)
    requires
        0 <= k < parts.len(),
    ensures
        occurs(parts[k], joined(parts, sep)),
    decreases parts.len(),
{
    let whole = joined(parts, sep);
    if parts.len() == 1 {
        assert(whole =~= Seq::<char>::empty() + parts[k] + Seq::<char>::empty());
        lemma_occurs(Seq::empty(), parts[k], Seq::empty());
    } else if k == parts.len() - 1 {
        assert(whole =~= (joined(parts.drop_last(), sep) + sep) + parts[k] + Seq::<char>::empty());
        lemma_occurs(joined(parts.drop_last(), sep) + sep, parts[k], Seq::empty());
    } else {
        let front = parts.drop_last();
        joined_parts_occur(front, sep, k);
        assert(front[k] == parts[k]);
        assert(whole =~= Seq::<char>::empty() + joined(front, sep) + (sep + parts.last()));
        lemma_occurs_inside(parts[k], Seq::empty(), joined(front, sep), sep + parts.last());
    }
}

/// Parts put together are concatenated.
pub proof fn putting_together_is_concatenation(a: Seq<Seq<char>>, b: Seq<Seq<char>>)
    ensures
        together(a + b) == together(a) + together(b),
        a.len() == 1 ==> together(a) == a[0],
        a.len() == 0 ==> together(a) == Seq::<char>::empty(),
    decreases b.len(),
{
    if a.len() == 1 {
        let none = a.drop_last();
        assert(none.len() == 0);
        assert(together(none) =~= Seq::<char>::empty());
        assert(together(a) =~= a[0]);
    }
    if b.len() == 0 {
        assert(a + b =~= a);
        assert(together(a + b) =~= together(a) + together(b));
    } else {
        putting_together_is_concatenation(a, b.drop_last());
        assert((a + b).drop_last() =~= a + b.drop_last());
        assert(together(a + b) =~= together(a) + together(b));
    }
}

proof fn lemma_split_rejoins(s: Seq<char>, sep: char)
    ensures
        split(s, sep).len() > 0,
        joined(split(s, sep), seq![sep]) == s,
        forall|i: int| 0 <= i < split(s, sep).len() ==> !(#[trigger] split(s, sep)[i]).contains(sep),
    decreases s.len(),
{
    let pieces = split(s, sep);
    if s.len() == 0 {
        assert(pieces[0] == Seq::<char>::empty());
        assert(s =~= Seq::<char>::empty());
    } else {
        let before = split(s.drop_last(), sep);
        lemma_split_rejoins(s.drop_last(), sep);
        let glue = seq![sep];
        assert(s =~= s.drop_last().push(s.last()));
        if s.last() == sep {
            assert(pieces.drop_last() =~= before);
            assert(joined(pieces, glue) == joined(before, glue) + glue + Seq::<char>::empty());
            assert(joined(pieces, glue) =~= s);
            assert forall|i: int| 0 <= i < pieces.len() implies !(#[trigger] pieces[i]).contains(
                sep,
            ) by {
                if i < before.len() {
                    assert(pieces[i] == before[i]);
                }
            }
        } else {
            assert(pieces.drop_last() =~= before.drop_last());
            assert(pieces.last() == before.last().push(s.last()));
            if before.len() == 1 {
                assert(pieces.len() == 1);
                assert(joined(pieces, glue) =~= s);
            } else {
                assert(joined(before, glue) == joined(before.drop_last(), glue) + glue
                    + before.last());
                assert(joined(pieces, glue) =~= s);
            }
            assert forall|i: int| 0 <= i < pieces.len() implies !(#[trigger] pieces[i]).contains(
                sep,
            ) by {
                assert(!before[i].contains(sep));
                if i == before.len() - 1 {
                    let piece = pieces[i];
                    if piece.contains(sep) {
                        let k = choose|k: int| 0 <= k < piece.len() && piece[k] == sep;
                        assert(before.last()[k] == sep);
                    }
                }
            }
        }
    }
}

/// Joining undoes splitting, and no piece holds the separator.
pub proof fn join_undoes_split(s: Seq<char>, sep: char)
    ensures
        split(s, sep).len() > 0,
        joined(split(s, sep), seq![sep]) == s,
        forall|i: int| 0 <= i < split(s, sep).len() ==> !(#[trigger] split(s, sep)[i]).contains(sep),
{
    lemma_split_rejoins(s, sep);
}

/// Texts are in order by the first character in which they differ, and a text
/// comes before its continuations.
pub proof fn texts_differ_at_a_character(
    front: Seq<char>,
    a: char,
    b: char,
    rest: Seq<char>,
    other: Seq<char>,
)
    ensures
        text_at_most(front, front + rest),
        rest.len() > 0 ==> !text_at_most(front + rest, front),
        a != b ==> (text_at_most(front.push(a) + rest, front.push(b) + other) <==> a < b),
    decreases front.len(),
{
    let left = front.push(a) + rest;
    let right = front.push(b) + other;
    let longer = front + rest;
    if front.len() > 0 {
        let tail = front.skip(1);
        texts_differ_at_a_character(tail, a, b, rest, other);
        assert(left.skip(1) =~= tail.push(a) + rest);
        assert(right.skip(1) =~= tail.push(b) + other);
        assert(longer.skip(1) =~= tail + rest);
        assert(left[0] == right[0]);
        assert(longer[0] == front[0]);
    } else {
        assert(longer =~= rest);
        assert(left[0] == a);
        assert(right[0] == b);
    }
}

/// A number is written by writing what is left of it without its last digit,
/// and then that digit.
pub proof fn numbers_are_written_digit_by_digit(n: nat, d: nat)
    requires
        d < 10,
    ensures
        n > 0 ==> decimal(10 * n + d) == decimal(n).push(('0' as int + d) as char),
        decimal(d) == seq![('0' as int + d) as char],
{
    assert((10 * n + d) / 10 == n);
    assert((10 * n + d) % 10 == d);
}

/// A number is read digit by digit: one more digit makes it ten times as large
/// and adds the digit, a plus sign before it changes nothing, and what holds
/// anything but digits is no number.
pub proof fn numbers_are_read_digit_by_digit(s: Seq<char>, c: char, max: nat)
    requires
        s.len() > 0,
        s[0] != '+',
    ensures
        parsed_unsigned(s.push(c), max) == (match parsed_unsigned(s, max) {
            Some(v) if '0' <= c <= '9' && 10 * v + (c as int - '0' as int) <= max => Some(
                (10 * v + (c as int - '0' as int)) as nat,
            ),
            _ => None::<nat>,
        }),
        parsed_unsigned(seq!['+'] + s, max) == parsed_unsigned(s, max),
        parsed_unsigned(seq![c], max) == (if '0' <= c <= '9' && c as int - '0' as int <= max {
            Some((c as int - '0' as int) as nat)
        } else {
            None::<nat>
        }),
        parsed_unsigned(Seq::empty(), max) is None,
{
    let longer = s.push(c);
    assert(unsigned_digits(s) == s);
    assert(unsigned_digits(longer) == longer);
    assert(longer.drop_last() =~= s);
    assert(longer.last() == c);
    assert forall|i: int| 0 <= i < s.len() implies s[i] == longer[i] by {}
    assert((forall|i: int| 0 <= i < longer.len() ==> is_digit(longer[i])) <==> (forall|i: int|
        0 <= i < s.len() ==> is_digit(s[i])) && is_digit(c)) by {
        if forall|i: int| 0 <= i < longer.len() ==> is_digit(longer[i]) {
            assert(longer[s.len() as int] == c);
            assert forall|i: int| 0 <= i < s.len() implies is_digit(s[i]) by {
                assert(is_digit(longer[i]));
            }
        }
    }
    assert((seq!['+'] + s).skip(1) =~= s);
    let one = seq![c];
    assert(one.drop_last() =~= Seq::<char>::empty());
    assert(digits_value(one.drop_last()) == 0);
    assert(one.skip(1) =~= Seq::<char>::empty());
    assert((forall|i: int| 0 <= i < one.len() ==> is_digit(one[i])) <==> is_digit(c)) by {
        assert(one[0] == c);
    }
    assert(digits_value(longer) == (digits_value(s) * 10 + (c as int - 48)) as nat);
}

// ---------------------------------------------------------------------------
// Texts in a row
// ---------------------------------------------------------------------------

/// Whatever stands in a row among the parts occurs in what they make together.
pub proof fn lemma_in_a_row(parts: Seq<Seq<char>>, i: int)
    requires
        0 <= i,
        i + 3 <= parts.len(),
    ensures
        occurs(parts[i] + parts[i + 1] + parts[i + 2], together(parts)),
{
    let before = parts.take(i);
    let row = parts.subrange(i, i + 3);
    let after = parts.skip(i + 3);
    let (a, b, c) = (parts[i], parts[i + 1], parts[i + 2]);
    assert(parts =~= before + (row + after));
    putting_together_is_concatenation(before, row + after);
    putting_together_is_concatenation(row, after);
    let none = Seq::<Seq<char>>::empty();
    assert(row =~= none.push(a).push(b).push(c));
    lemma_together_push(none, a);
    lemma_together_push(none.push(a), b);
    lemma_together_push(none.push(a).push(b), c);
    assert(together(none) =~= Seq::<char>::empty());
    assert(together(row) =~= a + b + c);
    assert(together(parts) =~= together(before) + together(row) + together(after));
    lemma_occurs(together(before), together(row), together(after));
}

/// Nine parts put together are added one after another.
pub proof fn lemma_parts_chain(
    p0: Seq<char>,
    p1: Seq<char>,
    p2: Seq<char>,
    p3: Seq<char>,
    p4: Seq<char>,
    p5: Seq<char>,
    p6: Seq<char>,
    p7: Seq<char>,
    p8: Seq<char>,
)
    ensures
        together(Seq::empty().push(p0)) == p0,
        together(Seq::empty().push(p0).push(p1).push(p2).push(p3).push(p4).push(p5).push(p6).push(p7).push(p8))
            == p0 + p1 + p2 + p3 + p4 + p5 + p6 + p7 + p8,
{
    let none = Seq::<Seq<char>>::empty();
    assert(together(none) =~= Seq::<char>::empty());
    let s0 = none.push(p0);
    lemma_together_push(none, p0);
    assert(together(s0) =~= p0);
    let s1 = s0.push(p1);
    lemma_together_push(s0, p1);
    let s2 = s1.push(p2);
    lemma_together_push(s1, p2);
    let s3 = s2.push(p3);
    lemma_together_push(s2, p3);
    let s4 = s3.push(p4);
    lemma_together_push(s3, p4);
    let s5 = s4.push(p5);
    lemma_together_push(s4, p5);
    let s6 = s5.push(p6);
    lemma_together_push(s5, p6);
    let s7 = s6.push(p7);
    lemma_together_push(s6, p7);
    lemma_together_push(s7, p8);
}

/// Eight more parts are added one after another.
pub proof fn lemma_longer_chain(
    parts: Seq<Seq<char>>,
    p0: Seq<char>,
    p1: Seq<char>,
    p2: Seq<char>,
    p3: Seq<char>,
    p4: Seq<char>,
    p5: Seq<char>,
    p6: Seq<char>,
    p7: Seq<char>,
)
    ensures
        together(parts.push(p0).push(p1).push(p2).push(p3).push(p4).push(p5).push(p6).push(p7))
            == together(parts) + p0 + p1 + p2 + p3 + p4 + p5 + p6 + p7,
{
    let s0 = parts.push(p0);
    lemma_together_push(parts, p0);
    let s1 = s0.push(p1);
    lemma_together_push(s0, p1);
    let s2 = s1.push(p2);
    lemma_together_push(s1, p2);
    let s3 = s2.push(p3);
    lemma_together_push(s2, p3);
    let s4 = s3.push(p4);
    lemma_together_push(s3, p4);
    let s5 = s4.push(p5);
    lemma_together_push(s4, p5);
    let s6 = s5.push(p6);
    lemma_together_push(s5, p6);
    lemma_together_push(s6, p7);
}

/// Five parts put together are added one after another.
pub proof fn lemma_five_parts(
    p0: Seq<char>,
    p1: Seq<char>,
    p2: Seq<char>,
    p3: Seq<char>,
    p4: Seq<char>,
)
    ensures
        together(Seq::empty().push(p0).push(p1).push(p2).push(p3).push(p4)) == p0 + p1 + p2 + p3
            + p4,
{
    let none = Seq::<Seq<char>>::empty();
    assert(together(none) =~= Seq::<char>::empty());
    let s0 = none.push(p0);
    lemma_together_push(none, p0);
    assert(together(s0) =~= p0);
    let s1 = s0.push(p1);
    lemma_together_push(s0, p1);
    let s2 = s1.push(p2);
    lemma_together_push(s1, p2);
    let s3 = s2.push(p3);
    lemma_together_push(s2, p3);
    lemma_together_push(s3, p4);
}

/// What occurs in something that occurs in a text occurs in the text.
pub proof fn occurrences_nest(part: Seq<char>, middle: Seq<char>, whole: Seq<char>)
    requires
        occurs(part, middle),
        occurs(middle, whole),
    ensures
        occurs(part, whole),
{
    occurrences_are_inside(middle, whole);
    let (before, after) = choose|before: Seq<char>, after: Seq<char>|
        whole == #[trigger] (before + middle + after);
    lemma_occurs_inside(part, before, middle, after);
}

} // verus!
