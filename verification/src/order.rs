//! Sorting and the tidying of sorted lists.
use crate::text::{text_at_most, text_leq, text_order_is_total};
use vstd::prelude::*;

verus! {

/// A type whose values can be put in order.
pub trait Ranked: Sized {
    /// Whether `self` may stand before `other`.
    spec fn at_most(self, other: Self) -> bool;

    /// Any two values are related, and the relation is transitive.
    proof fn order_holds(a: Self, b: Self, c: Self)
        ensures
            a.at_most(b) || b.at_most(a),
            a.at_most(b) && b.at_most(c) ==> a.at_most(c),
    ;

    /// Whether `self` may stand before `other`.
    fn leq(&self, other: &Self) -> (r: bool)
        ensures
            r == self.at_most(*other),
    ;
}

impl Ranked for usize {
    open spec fn at_most(self, other: Self) -> bool {
        self <= other
    }

    proof fn order_holds(a: Self, b: Self, c: Self) {
    }

    fn leq(&self, other: &Self) -> (r: bool) {
        *self <= *other
    }
}

/// Pairs are ordered by their first component, then by their second.
impl Ranked for (usize, usize) {
    open spec fn at_most(self, other: Self) -> bool {
        self.0 < other.0 || (self.0 == other.0 && self.1 <= other.1)
    }

    proof fn order_holds(a: Self, b: Self, c: Self) {
    }

    fn leq(&self, other: &Self) -> (r: bool) {
        self.0 < other.0 || (self.0 == other.0 && self.1 <= other.1)
    }
}

/// Triplets are ordered by their components, the first counting most.
impl Ranked for (usize, usize, u8) {
    open spec fn at_most(self, other: Self) -> bool {
        self.0 < other.0 || (self.0 == other.0 && (self.1 < other.1 || (self.1 == other.1 && self.2
            <= other.2)))
    }

    proof fn order_holds(a: Self, b: Self, c: Self) {
    }

    fn leq(&self, other: &Self) -> (r: bool) {
        self.0 < other.0 || (self.0 == other.0 && (self.1 < other.1 || (self.1 == other.1 && self.2
            <= other.2)))
    }
}

/// Strings are ordered lexicographically.
impl Ranked for String {
    open spec fn at_most(self, other: Self) -> bool {
        text_at_most(self@, other@)
    }

    proof fn order_holds(a: Self, b: Self, c: Self) {
        text_order_is_total(a@, b@, c@);
    }

    fn leq(&self, other: &Self) -> (r: bool) {
        text_leq(self.as_str(), other.as_str())
    }
}

/// Whether no element has to stand before an earlier one.
pub open spec fn in_order<T>(s: Seq<T>, leq: spec_fn(T, T) -> bool) -> bool {
    forall|i: int, j: int| 0 <= i < j < s.len() ==> leq(#[trigger] s[i], #[trigger] s[j])
}

/// Whether the elements come in order and no two neighbours are the same.
pub open spec fn in_strict_order<T>(s: Seq<T>, leq: spec_fn(T, T) -> bool) -> bool {
    &&& in_order(s, leq)
    &&& s.no_duplicates()
}

/// `x` put into `s`, behind everything but the trailing elements that it may
/// stand before and that may not stand before it.
pub open spec fn put_in_order<T>(s: Seq<T>, x: T, leq: spec_fn(T, T) -> bool) -> Seq<T>
    decreases s.len(),
{
    if s.len() == 0 || leq(s.last(), x) {
        s.push(x)
    } else {
        put_in_order(s.drop_last(), x, leq).push(s.last())
    }
}

/// The elements of `s` in order; elements that may stand either way round
/// keep the order they had.
pub open spec fn sorted<T>(s: Seq<T>, leq: spec_fn(T, T) -> bool) -> Seq<T>
    decreases s.len(),
{
    if s.len() == 0 {
        s
    } else {
        put_in_order(sorted(s.drop_last(), leq), s.last(), leq)
    }
}

/// The order of a [`Ranked`] type.
pub open spec fn rank<T: Ranked>() -> spec_fn(T, T) -> bool {
    |a: T, b: T| a.at_most(b)
}

/// `s` without the elements that repeat the one just before them.
pub open spec fn deduplicated<T>(s: Seq<T>) -> Seq<T>
    decreases s.len(),
{
    if s.len() <= 1 {
        s
    } else if s[s.len() - 2] == s.last() {
        deduplicated(s.drop_last())
    } else {
        deduplicated(s.drop_last()).push(s.last())
    }
}

// ---------------------------------------------------------------------------
// Facts about sorting
// ---------------------------------------------------------------------------

/// A relation that puts things in order: it relates any two, and is transitive.
pub open spec fn is_order<T>(leq: spec_fn(T, T) -> bool) -> bool {
    &&& forall|a: T, b: T| #[trigger] leq(a, b) || leq(b, a)
    &&& forall|a: T, b: T, c: T| #[trigger] leq(a, b) && #[trigger] leq(b, c) ==> leq(a, c)
}

pub proof fn lemma_rank_is_order<T: Ranked>()
    ensures
        is_order(rank::<T>()),
{
    let leq = rank::<T>();
    assert forall|a: T, b: T| #[trigger] leq(a, b) || leq(b, a) by {
        T::order_holds(a, b, a);
    }
    assert forall|a: T, b: T, c: T| #[trigger] leq(a, b) && #[trigger] leq(b, c) implies leq(
        a,
        c,
    ) by {
        T::order_holds(a, b, c);
    }
}

proof fn lemma_put_in_order<T>(s: Seq<T>, x: T, leq: spec_fn(T, T) -> bool)
    requires
        is_order(leq),
        in_order(s, leq),
    ensures
        in_order(put_in_order(s, x, leq), leq),
        put_in_order(s, x, leq).to_multiset() == s.to_multiset().insert(x),
        put_in_order(s, x, leq).len() == s.len() + 1,
    decreases s.len(),
{
    broadcast use vstd::seq_lib::group_to_multiset_ensures;

    let result = put_in_order(s, x, leq);
    if s.len() == 0 || leq(s.last(), x) {
        assert forall|i: int, j: int| 0 <= i < j < result.len() implies leq(
            #[trigger] result[i],
            #[trigger] result[j],
        ) by {
            if j == s.len() && i < s.len() - 1 {
                assert(leq(s[i], s.last()));
                assert(leq(s.last(), x));
            }
        }
    } else {
        let front = s.drop_last();
        lemma_put_in_order(front, x, leq);
        let placed = put_in_order(front, x, leq);
        assert(leq(x, s.last()));
        assert(s == front.push(s.last()));
        assert(result.to_multiset() =~= s.to_multiset().insert(x));
        assert forall|i: int| 0 <= i < placed.len() implies leq(#[trigger] placed[i], s.last()) by {
            assert(placed.to_multiset().count(placed[i]) > 0) by {
                assert(placed.contains(placed[i]));
            }
            if placed[i] != x {
                assert(front.to_multiset().count(placed[i]) > 0);
                assert(front.contains(placed[i]));
                let k = choose|k: int| 0 <= k < front.len() && front[k] == placed[i];
                assert(s[k] == placed[i]);
                assert(leq(s[k], s[s.len() - 1]));
            }
        }
    }
}

/// Sorting keeps exactly the elements there were, each as often, and leaves
/// them in order.
pub proof fn sorting_orders<T>(s: Seq<T>, leq: spec_fn(T, T) -> bool)
    requires
        is_order(leq),
    ensures
        in_order(sorted(s, leq), leq),
        sorted(s, leq).to_multiset() == s.to_multiset(),
        sorted(s, leq).len() == s.len(),
        forall|x: T| sorted(s, leq).contains(x) <==> s.contains(x),
    decreases s.len(),
{
    broadcast use vstd::seq_lib::group_to_multiset_ensures;

    if s.len() > 0 {
        sorting_orders(s.drop_last(), leq);
        lemma_put_in_order(sorted(s.drop_last(), leq), s.last(), leq);
        assert(s == s.drop_last().push(s.last()));
    }
    assert forall|x: T| sorted(s, leq).contains(x) <==> s.contains(x) by {
        assert(sorted(s, leq).contains(x) <==> sorted(s, leq).to_multiset().count(x) > 0);
        assert(s.contains(x) <==> s.to_multiset().count(x) > 0);
    }
}

/// What is in order already stays as it is.
pub proof fn sorting_keeps_sorted<T>(s: Seq<T>, leq: spec_fn(T, T) -> bool)
    requires
        in_order(s, leq),
    ensures
        sorted(s, leq) == s,
    decreases s.len(),
{
    if s.len() > 0 {
        let front = s.drop_last();
        assert(in_order(front, leq)) by {
            assert forall|i: int, j: int| 0 <= i < j < front.len() implies leq(
                #[trigger] front[i],
                #[trigger] front[j],
            ) by {
                assert(leq(s[i], s[j]));
            }
        }
        sorting_keeps_sorted(front, leq);
        if front.len() > 0 {
            assert(leq(s[s.len() - 2], s[s.len() - 1]));
        }
        assert(front.push(s.last()) == s);
    }
}

proof fn lemma_put_filtered<T>(
    s: Seq<T>,
    x: T,
    leq: spec_fn(T, T) -> bool,
    keep: spec_fn(T) -> bool,
)
    requires
        is_order(leq),
        in_order(s, leq),
        forall|a: T, b: T| keep(a) && keep(b) ==> #[trigger] leq(a, b),
    ensures
        put_in_order(s, x, leq).filter(keep) == s.push(x).filter(keep),
    decreases s.len(),
{
    reveal(Seq::filter);
    if s.len() == 0 || leq(s.last(), x) {
    } else {
        let front = s.drop_last();
        assert(in_order(front, leq));
        lemma_put_filtered(front, x, leq, keep);
        let placed = put_in_order(front, x, leq);
        assert(placed.push(s.last()).drop_last() == placed);
        assert(front.push(x).drop_last() == front);
        assert(s.push(x).drop_last() == s);
        assert(!(keep(s.last()) && keep(x)));
        assert(s.filter(keep) == if keep(s.last()) {
            front.filter(keep).push(s.last())
        } else {
            front.filter(keep)
        });
        assert(front.push(x).filter(keep) == if keep(x) {
            front.filter(keep).push(x)
        } else {
            front.filter(keep)
        });
    }
}

/// Sorting is stable: elements that may stand either way round keep the order
/// they had.
pub proof fn sorting_is_stable<T>(
    s: Seq<T>,
    leq: spec_fn(T, T) -> bool,
    keep: spec_fn(T) -> bool,
)
    requires
        is_order(leq),
        forall|a: T, b: T| keep(a) && keep(b) ==> #[trigger] leq(a, b),
    ensures
        sorted(s, leq).filter(keep) == s.filter(keep),
    decreases s.len(),
{
    reveal(Seq::filter);
    if s.len() > 0 {
        let front = s.drop_last();
        sorting_orders(front, leq);
        sorting_is_stable(front, leq, keep);
        lemma_put_filtered(sorted(front, leq), s.last(), leq, keep);
        assert(sorted(front, leq).push(s.last()).drop_last() == sorted(front, leq));
    }
}

/// There is one way to put given elements in order, where no two different
/// ones may stand either way round.
pub proof fn lemma_order_is_unique<T>(a: Seq<T>, b: Seq<T>, leq: spec_fn(T, T) -> bool)
    requires
        is_order(leq),
        in_order(a, leq),
        in_order(b, leq),
        a.to_multiset() == b.to_multiset(),
        forall|x: T, y: T|
            a.contains(x) && a.contains(y) && leq(x, y) && #[trigger] leq(y, x) ==> x == y,
    ensures
        a == b,
    decreases a.len(),
{
    broadcast use vstd::seq_lib::group_to_multiset_ensures;

    a.to_multiset_ensures();
    b.to_multiset_ensures();
    assert(a.len() == b.len());
    if a.len() > 0 {
        let x = a.last();
        let y = b.last();
        assert(a.contains(x));
        assert(b.contains(y));
        assert(b.contains(x) <==> b.to_multiset().count(x) > 0);
        assert(a.contains(y) <==> a.to_multiset().count(y) > 0);
        let k = choose|k: int| 0 <= k < b.len() && b[k] == x;
        let j = choose|j: int| 0 <= j < a.len() && a[j] == y;
        assert(leq(x, x) && leq(y, y));
        assert(leq(b[k], b[b.len() - 1]));
        assert(leq(a[j], a[a.len() - 1]));
        assert(x == y);
        assert(a =~= a.drop_last().push(x));
        assert(b =~= b.drop_last().push(y));
        assert(a.drop_last().to_multiset() =~= a.to_multiset().remove(x));
        assert(b.drop_last().to_multiset() =~= b.to_multiset().remove(x));
        assert forall|p: T, q: T|
            a.drop_last().contains(p) && a.drop_last().contains(q) && leq(p, q)
                && #[trigger] leq(q, p) implies p == q by {
            let m = choose|m: int| 0 <= m < a.drop_last().len() && a.drop_last()[m] == p;
            let n = choose|n: int| 0 <= n < a.drop_last().len() && a.drop_last()[n] == q;
            assert(a[m] == p && a[n] == q);
        }
        lemma_order_is_unique(a.drop_last(), b.drop_last(), leq);
    } else {
        assert(a =~= b);
    }
}

/// Mapping respects how often each element occurs.
pub proof fn lemma_mapped_multiset<T, U>(a: Seq<T>, b: Seq<T>, f: spec_fn(T) -> U)
    requires
        a.to_multiset() == b.to_multiset(),
    ensures
        a.map_values(f).to_multiset() == b.map_values(f).to_multiset(),
    decreases a.len(),
{
    broadcast use vstd::seq_lib::group_to_multiset_ensures;

    a.to_multiset_ensures();
    b.to_multiset_ensures();
    assert(a.len() == b.len());
    if a.len() > 0 {
        let x = a.last();
        assert(a.contains(x));
        assert(b.contains(x) <==> b.to_multiset().count(x) > 0);
        let k = choose|k: int| 0 <= k < b.len() && b[k] == x;
        let front = a.drop_last();
        let rest = b.remove(k);
        assert(a =~= front.push(x));
        assert(front.to_multiset() =~= a.to_multiset().remove(x));
        assert(rest.to_multiset() =~= b.to_multiset().remove(x));
        lemma_mapped_multiset(front, rest, f);
        assert(a.map_values(f) =~= front.map_values(f).push(f(x)));
        assert(rest.map_values(f) =~= b.map_values(f).remove(k));
        assert(b.map_values(f)[k] == f(x));
        assert(b.map_values(f).contains(f(x)));
        assert(rest.map_values(f).to_multiset() =~= b.map_values(f).to_multiset().remove(f(x)));
        assert(b.map_values(f).to_multiset().count(f(x)) > 0);
        assert(b.map_values(f).to_multiset() =~= rest.map_values(f).to_multiset().insert(f(x)));
    } else {
        assert(a.map_values(f) =~= b.map_values(f));
    }
}

/// Sorting commutes with a mapping that respects the order.
pub proof fn lemma_sorting_mapped<T, U>(
    s: Seq<T>,
    f: spec_fn(T) -> U,
    leq: spec_fn(T, T) -> bool,
    image_leq: spec_fn(U, U) -> bool,
)
    requires
        forall|a: T, b: T| #[trigger] leq(a, b) == image_leq(f(a), f(b)),
    ensures
        sorted(s, leq).map_values(f) == sorted(s.map_values(f), image_leq),
    decreases s.len(),
{
    if s.len() > 0 {
        let front = s.drop_last();
        lemma_sorting_mapped(front, f, leq, image_leq);
        lemma_put_mapped(sorted(front, leq), s.last(), f, leq, image_leq);
        assert(s.map_values(f).drop_last() =~= front.map_values(f));
    } else {
        assert(s.map_values(f) =~= sorted(s.map_values(f), image_leq));
    }
}

proof fn lemma_put_mapped<T, U>(
    s: Seq<T>,
    x: T,
    f: spec_fn(T) -> U,
    leq: spec_fn(T, T) -> bool,
    image_leq: spec_fn(U, U) -> bool,
)
    requires
        forall|a: T, b: T| #[trigger] leq(a, b) == image_leq(f(a), f(b)),
    ensures
        put_in_order(s, x, leq).map_values(f) == put_in_order(s.map_values(f), f(x), image_leq),
    decreases s.len(),
{
    let image = s.map_values(f);
    if s.len() == 0 || leq(s.last(), x) {
        if s.len() > 0 {
            assert(image.last() == f(s.last()));
        }
        assert(s.push(x).map_values(f) =~= image.push(f(x)));
    } else {
        lemma_put_mapped(s.drop_last(), x, f, leq, image_leq);
        assert(image.last() == f(s.last()));
        assert(image.drop_last() =~= s.drop_last().map_values(f));
        assert(put_in_order(s.drop_last(), x, leq).push(s.last()).map_values(f)
            =~= put_in_order(s.drop_last(), x, leq).map_values(f).push(f(s.last())));
    }
}

// ---------------------------------------------------------------------------
// Facts about removing repetitions
// ---------------------------------------------------------------------------

/// A list without repetitions stays as it is.
pub proof fn deduplication_keeps_distinct<T>(s: Seq<T>)
    requires
        s.no_duplicates(),
    ensures
        deduplicated(s) == s,
    decreases s.len(),
{
    if s.len() > 1 {
        let front = s.drop_last();
        assert(front.no_duplicates());
        deduplication_keeps_distinct(front);
        assert(front.push(s.last()) == s);
    }
}

/// Of a list in an order that tells different elements apart, each element
/// is left once, in the same order.
pub proof fn deduplication_of_sorted<T>(s: Seq<T>, leq: spec_fn(T, T) -> bool)
    requires
        in_order(s, leq),
        forall|a: T, b: T| #[trigger] leq(a, b) && leq(b, a) ==> a == b,
    ensures
        in_strict_order(deduplicated(s), leq),
        forall|x: T| deduplicated(s).contains(x) <==> s.contains(x),
        s.len() > 0 ==> deduplicated(s).len() > 0 && deduplicated(s).last() == s.last(),
    decreases s.len(),
{
    if s.len() > 1 {
        let front = s.drop_last();
        let x = s.last();
        assert(front.last() == s[s.len() - 2]);
        assert(in_order(front, leq));
        deduplication_of_sorted(front, leq);
        let shorter = deduplicated(front);
        let result = deduplicated(s);
        assert forall|y: T| result.contains(y) <==> s.contains(y) by {
            if s.contains(y) && y != x {
                let k = choose|k: int| 0 <= k < s.len() && s[k] == y;
                assert(front[k] == y);
                assert(front.contains(y));
                let m = choose|m: int| 0 <= m < shorter.len() && shorter[m] == y;
                assert(result[m] == y);
            }
            if s.contains(y) && y == x {
                assert(result.last() == y);
            }
            if result.contains(y) {
                if y == x {
                    assert(s[s.len() - 1] == y);
                } else {
                    let m = choose|m: int| 0 <= m < result.len() && result[m] == y;
                    assert(shorter[m] == y);
                    assert(front.contains(y));
                    let k = choose|k: int| 0 <= k < front.len() && front[k] == y;
                    assert(s[k] == y);
                }
            }
        }
        if front.last() != x {
            assert forall|i: int| 0 <= i < shorter.len() implies leq(#[trigger] shorter[i], x)
                && shorter[i] != x by {
                assert(shorter.contains(shorter[i]));
                assert(front.contains(shorter[i]));
                let k = choose|k: int| 0 <= k < front.len() && front[k] == shorter[i];
                assert(s[k] == shorter[i]);
                assert(leq(s[k], s[s.len() - 1]));
                if shorter[i] == x {
                    if k < front.len() - 1 {
                        assert(leq(s[k], s[s.len() - 2]));
                    }
                    assert(leq(s[s.len() - 2], s[s.len() - 1]));
                    assert(front.last() == x);
                }
            }
            assert(in_order(result, leq));
            assert(result.no_duplicates());
        }
    }
}

// ---------------------------------------------------------------------------
// Executable counterparts
// ---------------------------------------------------------------------------

/// Of neighbours that are the same one is kept, and everything else stays as it
/// is.
pub proof fn only_repeating_neighbours_are_dropped<T>(s: Seq<T>, x: T)
    ensures
        s.len() > 0 && s.last() == x ==> deduplicated(s.push(x)) == deduplicated(s),
        s.len() == 0 || s.last() != x ==> deduplicated(s.push(x)) == deduplicated(s).push(x),
        s.len() == 0 ==> deduplicated(s) == s,
{
    let all = s.push(x);
    assert(all.drop_last() =~= s);
    assert(all.last() == x);
    if s.len() > 0 {
        assert(all[all.len() - 2] == s.last());
    } else {
        assert(deduplicated(all) =~= deduplicated(s).push(x));
    }
}

/// Sorts a list; elements that may stand either way round keep their order.
pub fn sort_ranked<T: Ranked>(v: Vec<T>) -> (result: Vec<T>)
    ensures
        result@ == sorted(v@, rank::<T>()),
{
    let ghost all = v@;
    let mut result: Vec<T> = Vec::new();
    assert(all.take(0) == Seq::<T>::empty());
    for x in it: v
        invariant
            it.seq() == all,
            result@ == sorted(all.take(it.index()), rank::<T>()),
    {
        let ghost k = it.index();
        assert(all.take(k + 1).drop_last() == all.take(k));
        let ghost before = result@;
        let mut at: usize = result.len();
        assert(before.take(before.len() as int) == before);
        assert(before.skip(before.len() as int) == Seq::<T>::empty());
        assert(put_in_order(before, x, rank::<T>()) == put_in_order(
            before.take(at as int),
            x,
            rank::<T>(),
        ) + before.skip(at as int)) by {
            let placed = put_in_order(before, x, rank::<T>());
            assert(placed + Seq::<T>::empty() =~= placed);
        }
        while at > 0 && !result[at - 1].leq(&x)
            invariant
                result@ == before,
                at <= result@.len(),
                put_in_order(before, x, rank::<T>()) == put_in_order(
                    before.take(at as int),
                    x,
                    rank::<T>(),
                ) + before.skip(at as int),
            decreases at,
        {
            assert(before.take(at as int).drop_last() == before.take(at - 1));
            assert(before.take(at as int).last() == before[at - 1]);
            assert(seq![before[at - 1]] + before.skip(at as int) == before.skip(at - 1));
            assert(put_in_order(before.take(at - 1), x, rank::<T>()).push(before[at - 1])
                + before.skip(at as int) =~= put_in_order(before.take(at - 1), x, rank::<T>())
                + before.skip(at - 1));
            at = at - 1;
        }
        proof {
            if at > 0 {
                assert(before.take(at as int).last() == before[at - 1]);
            }
            assert(before.take(at as int).push(x) + before.skip(at as int) =~= before.insert(
                at as int,
                x,
            ));
        }
        result.insert(at, x);
    }
    assert(all.take(all.len() as int) == all);
    result
}

/// Removes elements that repeat the one just before them.
pub fn remove_repeats(v: &Vec<usize>) -> (result: Vec<usize>)
    ensures
        result@ == deduplicated(v@),
{
    let mut result: Vec<usize> = Vec::new();
    for i in 0..v.len()
        invariant
            result@ == deduplicated(v@.take(i as int)),
    {
        let ghost longer = v@.take(i + 1);
        assert(longer.drop_last() == v@.take(i as int));
        if i == 0 || v[i - 1] != v[i] {
            result.push(v[i]);
            assert(i == 0 ==> result@ =~= longer);
        }
    }
    assert(v@.take(v@.len() as int) == v@);
    result
}

/// Removes pairs that repeat the one just before them.
pub fn remove_repeated_pairs(v: &Vec<(usize, usize)>) -> (result: Vec<(usize, usize)>)
    ensures
        result@ == deduplicated(v@),
{
    let mut result: Vec<(usize, usize)> = Vec::new();
    for i in 0..v.len()
        invariant
            result@ == deduplicated(v@.take(i as int)),
    {
        let ghost longer = v@.take(i + 1);
        assert(longer.drop_last() == v@.take(i as int));
        if i == 0 || v[i - 1].0 != v[i].0 || v[i - 1].1 != v[i].1 {
            result.push(v[i]);
            assert(i == 0 ==> result@ =~= longer);
        }
    }
    assert(v@.take(v@.len() as int) == v@);
    result
}

/// Whether a pair is in a list.
pub fn has_pair(v: &Vec<(usize, usize)>, a: usize, b: usize) -> (found: bool)
    ensures
        found == v@.contains((a, b)),
{
    for i in 0..v.len()
        invariant
            forall|j: int| 0 <= j < i ==> v@[j] != (a, b),
    {
        if v[i].0 == a && v[i].1 == b {
            assert(v@[i as int] == (a, b));
            return true;
        }
    }
    false
}

/// Whether a number is in a list.
pub fn has_number(v: &Vec<usize>, n: usize) -> (found: bool)
    ensures
        found == v@.contains(n),
{
    for i in 0..v.len()
        invariant
            forall|j: int| 0 <= j < i ==> v@[j] != n,
    {
        if v[i] == n {
            return true;
        }
    }
    false
}

} // verus!
