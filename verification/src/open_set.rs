//! The cells that wait to be expanded, best score last.
//!
//! The cells are kept in an `indexmap::IndexSet`, which remembers the order
//! in which they came and can be sorted in place. The functions that hand a
//! call to the set are not proved: each states what the documentation of
//! `IndexSet` says of the call, over the sequence of cells that the set
//! holds.

use std::cmp::Ordering;
use vstd::prelude::*;
use crate::coord::Coord;
use crate::tables::CoordMap;

verus! {

/// `indexmap::IndexSet`, of which nothing but its name is known here.
#[verifier::external_type_specification]
#[verifier::external_body]
#[verifier::reject_recursive_types(T)]
#[verifier::reject_recursive_types(S)]
pub struct ExIndexSet<T, S>(indexmap::IndexSet<T, S>);

/// The cells in the set, in the order in which the set holds them.
pub uninterp spec fn open_set_order(s: indexmap::IndexSet<(i32, i32, i32)>) -> Seq<Coord>;

/// The score under which `c` is filed: the one that `scores` holds for it,
/// or the largest there is where it holds none.
pub open spec fn score_of(scores: Map<Coord, u64>, c: Coord) -> u64 {
    if scores.contains_key(c) {
        scores[c]
    } else {
        u64::MAX
    }
}

/// How cell `a` stands to cell `b` in the waiting order: before it where its
/// score is the larger one, so that the best cell comes last.
pub open spec fn waiting_order(scores: Map<Coord, u64>, a: Coord, b: Coord) -> Ordering {
    if score_of(scores, b) < score_of(scores, a) {
        Ordering::Less
    } else if score_of(scores, b) == score_of(scores, a) {
        Ordering::Equal
    } else {
        Ordering::Greater
    }
}

/// No cell of `order` has a larger score than one before it.
pub open spec fn best_last(order: Seq<Coord>, scores: Map<Coord, u64>) -> bool {
    forall|i: int, j: int|
        0 <= i < j < order.len() ==> score_of(scores, #[trigger] order[i]) >= score_of(
            scores,
            #[trigger] order[j],
        )
}

/// Cells of equal score stand in `after` as they stood in `before`.
pub open spec fn equals_keep_place(before: Seq<Coord>, after: Seq<Coord>, scores: Map<Coord, u64>) -> bool {
    forall|i: int, j: int|
        0 <= i < j < after.len() && score_of(scores, #[trigger] after[i]) == score_of(
            scores,
            #[trigger] after[j],
        ) ==> before.index_of(after[i]) < before.index_of(after[j])
}

/// `after` is `before` as the stable sort for waiting leaves it: the same
/// cells, the best last, and cells of equal score in the places they had.
pub open spec fn is_sorted_waiting(before: Seq<Coord>, after: Seq<Coord>, scores: Map<Coord, u64>) -> bool {
    &&& after.to_multiset() == before.to_multiset()
    &&& best_last(after, scores)
    &&& equals_keep_place(before, after, scores)
}

/// The cells of `order` as the stable sort for waiting leaves them. Where no
/// cell stands twice in `order` there is such an order, and never more than
/// one: see [`lemma_sort_exists`] and [`lemma_sort_is_unique`].
pub open spec fn sorted_waiting(order: Seq<Coord>, scores: Map<Coord, u64>) -> Seq<Coord> {
    choose|t: Seq<Coord>| is_sorted_waiting(order, t, scores)
}

/// In the sorted order `x` stands before `y`: its score is larger, or the
/// same and it stood before `y` in `order`.
pub open spec fn stands_before(order: Seq<Coord>, scores: Map<Coord, u64>, x: Coord, y: Coord) -> bool {
    score_of(scores, x) > score_of(scores, y) || (score_of(scores, x) == score_of(scores, y) && order.index_of(x)
        < order.index_of(y))
}

/// Each cell of `t` stands before those that follow it.
pub open spec fn in_sorted_order(order: Seq<Coord>, scores: Map<Coord, u64>, t: Seq<Coord>) -> bool {
    forall|i: int, j: int| 0 <= i < j < t.len() ==> stands_before(order, scores, #[trigger] t[i], #[trigger] t[j])
}

/// Two sequences of the same cells that are both in sorted order are the
/// same sequence.
proof fn lemma_sorted_order_is_unique(order: Seq<Coord>, scores: Map<Coord, u64>, a: Seq<Coord>, b: Seq<Coord>)
    requires
        a.to_multiset() == b.to_multiset(),
        in_sorted_order(order, scores, a),
        in_sorted_order(order, scores, b),
    ensures
        a == b,
    decreases a.len(),
{
    broadcast use vstd::multiset::group_multiset_axioms;

    vstd::seq_lib::to_multiset_len(a);
    vstd::seq_lib::to_multiset_len(b);
    if a.len() == 0 {
        assert(a =~= b);
    } else {
        let n = a.len() - 1;
        let x = a[n];
        let y = b[n];
        vstd::seq_lib::to_multiset_contains(a, x);
        vstd::seq_lib::to_multiset_contains(b, x);
        vstd::seq_lib::to_multiset_contains(a, y);
        vstd::seq_lib::to_multiset_contains(b, y);
        assert(a.contains(x));
        assert(b.contains(y));
        let j = choose|j: int| 0 <= j < b.len() && b[j] == x;
        let i = choose|i: int| 0 <= i < a.len() && a[i] == y;
        if j < n {
            assert(stands_before(order, scores, b[j], b[n]));
            if i < n {
                assert(stands_before(order, scores, a[i], a[n]));
            }
        }
        assert(x == y);
        let shorter_a = a.drop_last();
        let shorter_b = b.drop_last();
        assert(a =~= shorter_a.push(x));
        assert(b =~= shorter_b.push(x));
        vstd::seq_lib::to_multiset_build(shorter_a, x);
        vstd::seq_lib::to_multiset_build(shorter_b, x);
        assert(shorter_a.to_multiset() =~= shorter_b.to_multiset()) by {
            assert forall|v: Coord| shorter_a.to_multiset().count(v) == shorter_b.to_multiset().count(v) by {
                assert(shorter_a.to_multiset().insert(x).count(v) == shorter_b.to_multiset().insert(x).count(v));
            }
        }
        assert forall|p: int, q: int| 0 <= p < q < shorter_a.len() implies stands_before(
            order,
            scores,
            #[trigger] shorter_a[p],
            #[trigger] shorter_a[q],
        ) by {
            assert(stands_before(order, scores, a[p], a[q]));
        }
        assert forall|p: int, q: int| 0 <= p < q < shorter_b.len() implies stands_before(
            order,
            scores,
            #[trigger] shorter_b[p],
            #[trigger] shorter_b[q],
        ) by {
            assert(stands_before(order, scores, b[p], b[q]));
        }
        lemma_sorted_order_is_unique(order, scores, shorter_a, shorter_b);
        assert(a =~= b);
    }
}

/// The stable sort for waiting leaves the cells in one order only.
pub proof fn lemma_sort_is_unique(before: Seq<Coord>, scores: Map<Coord, u64>, a: Seq<Coord>, b: Seq<Coord>)
    requires
        is_sorted_waiting(before, a, scores),
        is_sorted_waiting(before, b, scores),
    ensures
        a == b,
{
    assert forall|i: int, j: int| 0 <= i < j < a.len() implies stands_before(
        before,
        scores,
        #[trigger] a[i],
        #[trigger] a[j],
    ) by {
        assert(score_of(scores, a[i]) >= score_of(scores, a[j]));
    }
    assert forall|i: int, j: int| 0 <= i < j < b.len() implies stands_before(
        before,
        scores,
        #[trigger] b[i],
        #[trigger] b[j],
    ) by {
        assert(score_of(scores, b[i]) >= score_of(scores, b[j]));
    }
    lemma_sorted_order_is_unique(before, scores, a, b);
}

/// An order that the stable sort for waiting leaves is the sorted order.
pub proof fn lemma_sorted_is_the_sort(before: Seq<Coord>, scores: Map<Coord, u64>, after: Seq<Coord>)
    requires
        is_sorted_waiting(before, after, scores),
    ensures
        after == sorted_waiting(before, scores),
{
    lemma_sort_is_unique(before, scores, after, sorted_waiting(before, scores));
}

/// The cell that stands last after the sort waits, and no waiting cell has
/// a lower score.
pub proof fn lemma_last_has_lowest_score(before: Seq<Coord>, scores: Map<Coord, u64>, after: Seq<Coord>)
    requires
        is_sorted_waiting(before, after, scores),
        before.len() > 0,
    ensures
        after.len() == before.len(),
        before.contains(after.last()),
        forall|o: Coord| #[trigger] before.contains(o) ==> score_of(scores, after.last()) <= score_of(scores, o),
{
    vstd::seq_lib::to_multiset_len(before);
    vstd::seq_lib::to_multiset_len(after);
    let last = after.len() - 1;
    assert(after.contains(after[last]));
    vstd::seq_lib::to_multiset_contains(before, after[last]);
    vstd::seq_lib::to_multiset_contains(after, after[last]);
    assert forall|o: Coord| #[trigger] before.contains(o) implies score_of(scores, after.last()) <= score_of(
        scores,
        o,
    ) by {
        vstd::seq_lib::to_multiset_contains(before, o);
        vstd::seq_lib::to_multiset_contains(after, o);
        let i = choose|i: int| 0 <= i < after.len() && after[i] == o;
        if i < last {
            assert(score_of(scores, after[i]) >= score_of(scores, after[last]));
        }
    }
}

/// How many cells at the front of `t` have a score of `v` or more.
pub open spec fn front_at_least(t: Seq<Coord>, scores: Map<Coord, u64>, v: u64) -> int
    decreases t.len(),
{
    if t.len() == 0 || score_of(scores, t[0]) < v {
        0
    } else {
        1 + front_at_least(t.drop_first(), scores, v)
    }
}

/// The cells that [`front_at_least`] counts have a score of `v` or more,
/// and the cell after them, if there is one, has a lower score.
proof fn lemma_front_at_least(t: Seq<Coord>, scores: Map<Coord, u64>, v: u64)
    ensures
        0 <= front_at_least(t, scores, v) <= t.len(),
        forall|i: int| 0 <= i < front_at_least(t, scores, v) ==> score_of(scores, #[trigger] t[i]) >= v,
        front_at_least(t, scores, v) < t.len() ==> score_of(scores, t[front_at_least(t, scores, v)]) < v,
    decreases t.len(),
{
    if t.len() == 0 || score_of(scores, t[0]) < v {
    } else {
        let r = t.drop_first();
        let p = front_at_least(t, scores, v);
        lemma_front_at_least(r, scores, v);
        assert forall|i: int| 0 <= i < p implies score_of(scores, #[trigger] t[i]) >= v by {
            if i > 0 {
                assert(t[i] == r[i - 1]);
            }
        }
        if p < t.len() {
            assert(t[p] == r[p - 1]);
        }
    }
}

/// In a sequence that holds no cell twice, a cell is found where it stands.
proof fn lemma_found_where_it_stands(s: Seq<Coord>, i: int)
    requires
        s.no_duplicates(),
        0 <= i < s.len(),
    ensures
        s.index_of(s[i]) == i,
{
    let j = s.index_of(s[i]);
    assert(0 <= j < s.len() && s[j] == s[i]);
}

/// A cell of a sequence that holds no cell twice, other than the last,
/// stands where it stands in the sequence without its last cell, and that
/// is before the last cell.
proof fn lemma_place_kept(order: Seq<Coord>, a: Coord)
    requires
        order.no_duplicates(),
        order.len() > 0,
        order.drop_last().contains(a),
    ensures
        order.index_of(a) == order.drop_last().index_of(a),
        order.index_of(a) < order.len() - 1,
        order.index_of(order.last()) == order.len() - 1,
{
    let rest = order.drop_last();
    let m = choose|m: int| 0 <= m < rest.len() && rest[m] == a;
    assert(order[m] == a);
    lemma_found_where_it_stands(order, m);
    lemma_found_where_it_stands(rest, m);
    lemma_found_where_it_stands(order, order.len() - 1);
}

/// The waiting cells can be sorted: where no cell waits twice, the sorted
/// order is an order that the stable sort leaves.
pub proof fn lemma_sort_exists(order: Seq<Coord>, scores: Map<Coord, u64>)
    requires
        order.no_duplicates(),
    ensures
        is_sorted_waiting(order, sorted_waiting(order, scores), scores),
    decreases order.len(),
{
    if order.len() == 0 {
        assert(is_sorted_waiting(order, order, scores));
    } else {
        let rest = order.drop_last();
        let x = order.last();
        lemma_sort_exists(rest, scores);
        let t0 = sorted_waiting(rest, scores);
        let v = score_of(scores, x);
        let p = front_at_least(t0, scores, v);
        lemma_front_at_least(t0, scores, v);
        let t = t0.insert(p, x);
        t0.insert_ensures(p, x);
        vstd::seq_lib::to_multiset_insert(t0, p, x);
        assert(order =~= rest.push(x));
        vstd::seq_lib::to_multiset_build(rest, x);
        assert(t.to_multiset() == order.to_multiset());
        assert forall|i: int| 0 <= i < t.len() && i != p implies rest.contains(#[trigger] t[i]) by {
            let a = t[i];
            if i < p {
                assert(a == t0[i]);
            } else {
                assert(a == t0[i - 1]);
            }
            assert(t0.contains(a));
            vstd::seq_lib::to_multiset_contains(t0, a);
            vstd::seq_lib::to_multiset_contains(rest, a);
        }
        assert forall|i: int, j: int| 0 <= i < j < t.len() implies score_of(scores, #[trigger] t[i]) >= score_of(
            scores,
            #[trigger] t[j],
        ) by {
            if j < p {
                assert(t[i] == t0[i] && t[j] == t0[j]);
            } else if j == p {
                assert(t[i] == t0[i]);
            } else {
                assert(t[j] == t0[j - 1]);
                if j - 1 > p {
                    assert(score_of(scores, t0[p]) >= score_of(scores, t0[j - 1]));
                }
                if i < p {
                    assert(t[i] == t0[i]);
                    assert(score_of(scores, t0[i]) >= score_of(scores, t0[j - 1]));
                } else if i > p {
                    assert(t[i] == t0[i - 1]);
                    assert(score_of(scores, t0[i - 1]) >= score_of(scores, t0[j - 1]));
                }
            }
        }
        assert forall|i: int, j: int|
            0 <= i < j < t.len() && score_of(scores, #[trigger] t[i]) == score_of(
                scores,
                #[trigger] t[j],
            ) implies order.index_of(t[i]) < order.index_of(t[j]) by {
            if j == p {
                lemma_place_kept(order, t[i]);
            } else if i == p {
                assert(t[j] == t0[j - 1]);
                if j - 1 > p {
                    assert(score_of(scores, t0[p]) >= score_of(scores, t0[j - 1]));
                }
            } else {
                lemma_place_kept(order, t[i]);
                lemma_place_kept(order, t[j]);
                let a = if i < p {
                    i
                } else {
                    i - 1
                };
                let b = if j < p {
                    j
                } else {
                    j - 1
                };
                assert(t[i] == t0[a] && t[j] == t0[b]);
                assert(rest.index_of(t0[a]) < rest.index_of(t0[b]));
            }
        }
        assert(is_sorted_waiting(order, t, scores));
    }
}

/// The test that every cell but `c` passes.
pub open spec fn other_than(c: Coord) -> spec_fn(Coord) -> bool {
    |x: Coord| x != c
}

/// `order` without `c`, the rest in place.
pub open spec fn without(order: Seq<Coord>, c: Coord) -> Seq<Coord> {
    order.filter(other_than(c))
}

/// Taking out a cell that does not wait changes nothing.
pub proof fn lemma_without_absent(order: Seq<Coord>, c: Coord)
    requires
        !order.contains(c),
    ensures
        without(order, c) == order,
    decreases order.len(),
{
    reveal_with_fuel(Seq::filter, 2);
    if order.len() > 0 {
        let rest = order.drop_last();
        assert(order[order.len() - 1] != c);
        assert forall|x: Coord| rest.contains(x) implies order.contains(x) by {
            let i = choose|i: int| 0 <= i < rest.len() && rest[i] == x;
            assert(order[i] == x);
        }
        lemma_without_absent(rest, c);
        assert(rest.push(order.last()) =~= order);
    }
}

/// Taking out the last of the waiting cells leaves the others as they
/// stand, where no cell waits twice.
pub proof fn lemma_without_last(order: Seq<Coord>)
    requires
        order.no_duplicates(),
        order.len() > 0,
    ensures
        without(order, order.last()) == order.drop_last(),
{
    reveal_with_fuel(Seq::filter, 2);
    let rest = order.drop_last();
    let last = order.len() - 1;
    assert forall|i: int| 0 <= i < rest.len() implies rest[i] != order.last() by {
        assert(order[i] != order[last]);
    }
    lemma_without_absent(rest, order.last());
}

/// Sorting the waiting cells leaves the same cells waiting, none of them
/// twice where none waited twice.
pub proof fn lemma_sorted_holds_the_same(before: Seq<Coord>, scores: Map<Coord, u64>, after: Seq<Coord>)
    requires
        is_sorted_waiting(before, after, scores),
        before.no_duplicates(),
    ensures
        after.no_duplicates(),
        after.len() == before.len(),
        forall|x: Coord| #![trigger after.contains(x)] #![trigger before.contains(x)]
            after.contains(x) <==> before.contains(x),
{
    before.lemma_multiset_has_no_duplicates();
    after.lemma_multiset_has_no_duplicates_conv();
    vstd::seq_lib::to_multiset_len(before);
    vstd::seq_lib::to_multiset_len(after);
    assert forall|x: Coord| after.contains(x) <==> before.contains(x) by {
        vstd::seq_lib::to_multiset_contains(before, x);
        vstd::seq_lib::to_multiset_contains(after, x);
    }
}

/// Compares two cells for the waiting order.
pub fn compare_waiting(scores: &CoordMap, a: Coord, b: Coord) -> (o: Ordering)
    ensures
        o == waiting_order(scores@, a, b),
{
    let sa: u64 = match scores.get(a) {
        Some(v) => v,
        None => u64::MAX,
    };
    let sb: u64 = match scores.get(b) {
        Some(v) => v,
        None => u64::MAX,
    };
    if sb < sa {
        Ordering::Less
    } else if sb == sa {
        Ordering::Equal
    } else {
        Ordering::Greater
    }
}

/// `IndexSet::new`: a set that holds nothing.
#[verifier::external_body]
pub(crate) fn open_new() -> (s: indexmap::IndexSet<(i32, i32, i32)>)
    ensures
        open_set_order(s).len() == 0,
{
    indexmap::IndexSet::new()
}

/// `IndexSet::is_empty`: whether the set holds nothing.
#[verifier::external_body]
pub(crate) fn open_is_empty(s: &indexmap::IndexSet<(i32, i32, i32)>) -> (b: bool)
    ensures
        b == (open_set_order(*s).len() == 0),
{
    s.is_empty()
}

/// `IndexSet::insert`: a cell that the set does not hold yet goes to the
/// end and the call returns `true`; with a cell that it holds, the set stays
/// as it is and the call returns `false`.
#[verifier::external_body]
pub(crate) fn open_insert(s: &mut indexmap::IndexSet<(i32, i32, i32)>, c: Coord) -> (fresh: bool)
    ensures
        fresh == !open_set_order(*old(s)).contains(c),
        fresh ==> open_set_order(*final(s)) == open_set_order(*old(s)).push(c),
        !fresh ==> open_set_order(*final(s)) == open_set_order(*old(s)),
{
    s.insert(c.key())
}

/// `IndexSet::last`: the cell at the end, if the set holds any.
#[verifier::external_body]
pub(crate) fn open_last(s: &indexmap::IndexSet<(i32, i32, i32)>) -> (c: Option<Coord>)
    ensures
        open_set_order(*s).len() == 0 ==> c.is_none(),
        open_set_order(*s).len() > 0 ==> c == Some(open_set_order(*s).last()),
{
    s.last().copied().map(Coord::from_key)
}

/// `IndexSet::shift_remove`: takes `c` out, keeps the other cells in their
/// order, and returns whether the set held `c`.
#[verifier::external_body]
pub(crate) fn open_shift_remove(s: &mut indexmap::IndexSet<(i32, i32, i32)>, c: Coord) -> (held: bool)
    ensures
        held == open_set_order(*old(s)).contains(c),
        open_set_order(*final(s)) == without(open_set_order(*old(s)), c),
{
    s.shift_remove(&c.key())
}

/// `IndexSet::sort_by`, with [`compare_waiting`] over `scores` as the
/// comparison: the set holds the same cells afterwards, no cell has a larger
/// score than one before it, and cells of equal score have kept their order
/// (the sort is stable).
#[verifier::external_body]
pub(crate) fn open_sort_by_score(s: &mut indexmap::IndexSet<(i32, i32, i32)>, scores: &CoordMap)
    ensures
        open_set_order(*final(s)).to_multiset() == open_set_order(*old(s)).to_multiset(),
        best_last(open_set_order(*final(s)), scores@),
        equals_keep_place(open_set_order(*old(s)), open_set_order(*final(s)), scores@),
{
    s.sort_by(|a, b| compare_waiting(scores, Coord::from_key(*a), Coord::from_key(*b)))
}

} // verus!
