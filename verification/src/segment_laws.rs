//! The order of the segments of a case spec does not matter.
use crate::case_parse::{case_read, field_read, segment_read, segments_read, FieldsModel};
use crate::text::{split, split_at_first};
use vstd::prelude::*;

verus! {

/// Tells the segments that say something.
pub open spec fn says_something() -> spec_fn(Seq<char>) -> bool {
    |segment: Seq<char>| segment.len() > 0
}

/// The segments of a case spec that say something.
pub open spec fn parts_of(case_spec: Seq<char>) -> Seq<Seq<char>> {
    split(case_spec, ';').filter(says_something())
}

/// The key of a segment.
pub open spec fn key_of(segment: Seq<char>) -> Seq<char> {
    match split_at_first(segment, '=') {
        Some((key, _)) => key,
        None => Seq::empty(),
    }
}

/// Whether every segment is a key and a value, and no two have the same key.
pub open spec fn has_distinct_keys(parts: Seq<Seq<char>>) -> bool {
    &&& forall|i: int| 0 <= i < parts.len() ==> split_at_first(#[trigger] parts[i], '=') is Some
    &&& forall|i: int, j: int|
        0 <= i < j < parts.len() ==> key_of(#[trigger] parts[i]) != key_of(#[trigger] parts[j])
}

/// Whether two readings both fail, or give the same.
pub open spec fn same_reading<T>(a: Result<T, Seq<char>>, b: Result<T, Seq<char>>) -> bool {
    match (a, b) {
        (Ok(x), Ok(y)) => x == y,
        (Err(_), Err(_)) => true,
        _ => false,
    }
}

/// What is read after a reading.
spec fn then_read(
    reading: Result<FieldsModel, Seq<char>>,
    segment: Seq<char>,
) -> Result<FieldsModel, Seq<char>> {
    match reading {
        Ok(fields) => segment_read(fields, segment),
        Err(message) => Err(message),
    }
}

proof fn lemma_read_push(parts: Seq<Seq<char>>, segment: Seq<char>)
    ensures
        segments_read(parts.push(segment)) == then_read(segments_read(parts), segment),
{
    assert(parts.push(segment).drop_last() =~= parts);
}

/// Fields with different keys can be read in either order.
proof fn lemma_fields_commute(
    fields: FieldsModel,
    k: Seq<char>,
    v: Seq<char>,
    l: Seq<char>,
    w: Seq<char>,
)
    requires
        k != l,
    ensures
        same_reading(
            match field_read(fields, k, v) {
                Ok(f) => field_read(f, l, w),
                Err(e) => Err(e),
            },
            match field_read(fields, l, w) {
                Ok(f) => field_read(f, k, v),
                Err(e) => Err(e),
            },
        ),
{
}

proof fn lemma_segments_commute(
    reading: Result<FieldsModel, Seq<char>>,
    x: Seq<char>,
    y: Seq<char>,
)
    requires
        split_at_first(x, '=') is Some,
        split_at_first(y, '=') is Some,
        key_of(x) != key_of(y),
    ensures
        same_reading(then_read(then_read(reading, x), y), then_read(then_read(reading, y), x)),
{
    if let Ok(fields) = reading {
        let (k, v) = split_at_first(x, '=')->0;
        let (l, w) = split_at_first(y, '=')->0;
        lemma_fields_commute(fields, k, v, l, w);
    }
}

/// A segment can be read last, where none behind it has its key.
proof fn lemma_read_last(front: Seq<Seq<char>>, x: Seq<char>, back: Seq<Seq<char>>)
    requires
        split_at_first(x, '=') is Some,
        forall|i: int|
            0 <= i < back.len() ==> split_at_first(#[trigger] back[i], '=') is Some && key_of(
                back[i],
            ) != key_of(x),
    ensures
        same_reading(
            segments_read(front.push(x) + back),
            segments_read((front + back).push(x)),
        ),
    decreases back.len(),
{
    if back.len() == 0 {
        assert(front.push(x) + back =~= (front + back).push(x));
    } else {
        let rest = back.drop_last();
        let y = back.last();
        assert(back[back.len() - 1] == y);
        assert forall|i: int| 0 <= i < rest.len() implies split_at_first(
            #[trigger] rest[i],
            '=',
        ) is Some && key_of(rest[i]) != key_of(x) by {
            assert(rest[i] == back[i]);
        }
        lemma_read_last(front, x, rest);
        assert(front.push(x) + back =~= (front.push(x) + rest).push(y));
        assert(front + back =~= (front + rest).push(y));
        lemma_read_push(front.push(x) + rest, y);
        lemma_read_push((front + rest).push(x), y);
        lemma_read_push(front + rest, x);
        lemma_read_push((front + rest).push(y), x);
        lemma_read_push(front + rest, y);
        lemma_segments_commute(segments_read(front + rest), x, y);
    }
}

proof fn lemma_removed_keys(parts: Seq<Seq<char>>, k: int)
    requires
        has_distinct_keys(parts),
        0 <= k < parts.len(),
    ensures
        has_distinct_keys(parts.remove(k)),
{
    let rest = parts.remove(k);
    assert forall|i: int| 0 <= i < rest.len() implies split_at_first(
        #[trigger] rest[i],
        '=',
    ) is Some by {
        assert(rest[i] == if i < k {
            parts[i]
        } else {
            parts[i + 1]
        });
    }
    assert forall|i: int, j: int| 0 <= i < j < rest.len() implies key_of(#[trigger] rest[i])
        != key_of(#[trigger] rest[j]) by {
        let p = if i < k {
            i
        } else {
            i + 1
        };
        let q = if j < k {
            j
        } else {
            j + 1
        };
        assert(rest[i] == parts[p] && rest[j] == parts[q]);
    }
}

proof fn lemma_parts_commute(a: Seq<Seq<char>>, b: Seq<Seq<char>>)
    requires
        has_distinct_keys(a),
        a.to_multiset() == b.to_multiset(),
    ensures
        same_reading(segments_read(a), segments_read(b)),
    decreases b.len(),
{
    broadcast use vstd::seq_lib::group_to_multiset_ensures;

    a.to_multiset_ensures();
    b.to_multiset_ensures();
    if b.len() == 0 {
        assert(a =~= b);
    } else {
        let x = b.last();
        let rest = b.drop_last();
        assert(b.contains(x));
        assert(a.to_multiset().count(x) > 0);
        assert(a.contains(x));
        let k = choose|k: int| 0 <= k < a.len() && a[k] == x;
        let front = a.take(k);
        let back = a.skip(k + 1);
        assert(a =~= front.push(x) + back);
        assert(a.remove(k) =~= front + back);
        assert forall|i: int| 0 <= i < back.len() implies split_at_first(
            #[trigger] back[i],
            '=',
        ) is Some && key_of(back[i]) != key_of(x) by {
            assert(back[i] == a[k + 1 + i]);
            assert(key_of(a[k]) != key_of(a[k + 1 + i]));
        }
        assert(a[k] == x);
        lemma_read_last(front, x, back);
        lemma_removed_keys(a, k);
        assert(rest.push(x) =~= b);
        assert(rest.to_multiset() =~= b.to_multiset().remove(x));
        assert(a.remove(k).to_multiset() =~= a.to_multiset().remove(x));
        lemma_parts_commute(a.remove(k), rest);
        lemma_read_push(front + back, x);
        lemma_read_push(rest, x);
    }
}

/// Segments that say nothing change nothing.
pub proof fn empty_segments_change_nothing(segments: Seq<Seq<char>>)
    ensures
        segments_read(segments) == segments_read(segments.filter(says_something())),
    decreases segments.len(),
{
    reveal(Seq::filter);
    if segments.len() > 0 {
        let front = segments.drop_last();
        empty_segments_change_nothing(front);
        lemma_read_push(front.filter(says_something()), segments.last());
    }
}

/// Segments with different keys can come in any order, and with any number of
/// empty segments between them: either both specs are rejected, or both give
/// the same case.
pub proof fn the_order_of_segments_does_not_matter(seed: u64, a: Seq<char>, b: Seq<char>)
    requires
        has_distinct_keys(parts_of(a)),
        parts_of(a).to_multiset() == parts_of(b).to_multiset(),
    ensures
        same_reading(case_read(seed, a), case_read(seed, b)),
{
    empty_segments_change_nothing(split(a, ';'));
    empty_segments_change_nothing(split(b, ';'));
    lemma_parts_commute(parts_of(a), parts_of(b));
}

} // verus!
