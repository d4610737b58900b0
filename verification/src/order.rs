//! Orders: byte strings in dictionary order, and a merge sort for any order
//! that is total and transitive.

use vstd::prelude::*;
use vstd::seq_lib::to_multiset_build;

verus! {

/// `a` is no later than `b` in dictionary order, where the bytes before `from`
/// are the same in both.
pub open spec fn lex_le_from(a: Seq<u8>, b: Seq<u8>, from: int) -> bool
    decreases a.len() - from,
{
    if from < 0 || from >= a.len() {
        true
    } else if from >= b.len() {
        false
    } else if a[from] != b[from] {
        a[from] < b[from]
    } else {
        lex_le_from(a, b, from + 1)
    }
}

/// `a` is no later than `b` in dictionary order: at the first place where they
/// differ `a` has the smaller byte, or `a` ends there.
pub open spec fn lex_le(a: Seq<u8>, b: Seq<u8>) -> bool {
    lex_le_from(a, b, 0)
}

/// Of two byte strings, one is no later than the other.
pub proof fn lemma_lex_total(a: Seq<u8>, b: Seq<u8>, from: int)
    requires
        0 <= from,
    ensures
        lex_le_from(a, b, from) || lex_le_from(b, a, from),
    decreases a.len() - from,
{
    if from < a.len() && from < b.len() && a[from] == b[from] {
        lemma_lex_total(a, b, from + 1);
    }
}

/// Dictionary order is transitive.
pub proof fn lemma_lex_transitive(a: Seq<u8>, b: Seq<u8>, c: Seq<u8>, from: int)
    requires
        0 <= from,
        lex_le_from(a, b, from),
        lex_le_from(b, c, from),
    ensures
        lex_le_from(a, c, from),
    decreases a.len() - from,
{
    if from < a.len() && from < b.len() && from < c.len() && a[from] == b[from] && b[from]
        == c[from] {
        lemma_lex_transitive(a, b, c, from + 1);
    }
}

/// Whether `a` is no later than `b` in dictionary order.
pub fn bytes_le(a: &[u8], b: &[u8]) -> (r: bool)
    ensures
        r == lex_le(a@, b@),
{
    let mut i: usize = 0;
    while i < a.len() && i < b.len()
        invariant
            i <= a.len(),
            i <= b.len(),
            lex_le(a@, b@) == lex_le_from(a@, b@, i as int),
        decreases a.len() - i,
    {
        if a[i] != b[i] {
            return a[i] < b[i];
        }
        i = i + 1;
    }
    i >= a.len()
}

/// An order on `T` by which values can be sorted: of two values one may stand
/// before the other, and standing before is transitive.
pub trait Ranking<T> {
    /// `a` may stand before `b`.
    spec fn le(a: T, b: T) -> bool;

    /// Decides `le`.
    fn is_le(a: &T, b: &T) -> (r: bool)
        ensures
            r == Self::le(*a, *b),
    ;

    /// Of two values, one may stand before the other.
    proof fn lemma_total(a: T, b: T)
        ensures
            Self::le(a, b) || Self::le(b, a),
    ;

    /// What may stand before a value may stand before all that the value may
    /// stand before.
    proof fn lemma_transitive(a: T, b: T, c: T)
        requires
            Self::le(a, b),
            Self::le(b, c),
        ensures
            Self::le(a, c),
    ;
}

/// The order `R` as a relation.
pub open spec fn rank<T, R: Ranking<T>>() -> spec_fn(T, T) -> bool {
    |a: T, b: T| R::le(a, b)
}

/// `le` is an order by which values can be sorted: of two values one may
/// stand before the other, and standing before is transitive.
pub open spec fn is_ranking<T>(le: spec_fn(T, T) -> bool) -> bool {
    &&& forall|a: T, b: T| #[trigger] le(a, b) || le(b, a)
    &&& forall|a: T, b: T, c: T| #[trigger] le(a, b) && #[trigger] le(b, c) ==> le(a, c)
}

/// The order of a `Ranking` is one by which values can be sorted.
pub proof fn lemma_rank_is_ranking<T, R: Ranking<T>>()
    ensures
        is_ranking(rank::<T, R>()),
{
    let le = rank::<T, R>();
    assert forall|a: T, b: T| #[trigger] le(a, b) || le(b, a) by {
        R::lemma_total(a, b);
    }
    assert forall|a: T, b: T, c: T| #[trigger] le(a, b) && #[trigger] le(b, c) implies le(
        a,
        c,
    ) by {
        R::lemma_transitive(a, b, c);
    }
}

/// Every value of `s` may stand before all that follow it.
pub open spec fn in_order<T>(s: Seq<T>, le: spec_fn(T, T) -> bool) -> bool {
    forall|i: int, j: int| 0 <= i <= j < s.len() ==> le(#[trigger] s[i], #[trigger] s[j])
}

/// Every value of `s` may stand before all that follow it, in the order `R`.
pub open spec fn ordered<T, R: Ranking<T>>(s: Seq<T>) -> bool {
    in_order(s, rank::<T, R>())
}

/// `s` with `x` put in: behind the last value that may stand before it.
pub open spec fn inserted<T>(s: Seq<T>, x: T, le: spec_fn(T, T) -> bool) -> Seq<T>
    decreases s.len(),
{
    if s.len() == 0 {
        seq![x]
    } else if le(s.last(), x) {
        s.push(x)
    } else {
        inserted(s.drop_last(), x, le).push(s.last())
    }
}

/// The values of `s` in the order `le`: each is put in behind the values
/// before it that may stand before it, so that values that may stand either
/// way keep the order in which they came.
pub open spec fn arranged<T>(s: Seq<T>, le: spec_fn(T, T) -> bool) -> Seq<T>
    decreases s.len(),
{
    if s.len() == 0 {
        Seq::empty()
    } else {
        inserted(arranged(s.drop_last(), le), s.last(), le)
    }
}

/// `s` with the values of `more` put in, one after the other.
spec fn all_inserted<T>(s: Seq<T>, more: Seq<T>, le: spec_fn(T, T) -> bool) -> Seq<T>
    decreases more.len(),
{
    if more.len() == 0 {
        s
    } else {
        inserted(all_inserted(s, more.drop_last(), le), more.last(), le)
    }
}

/// One sequence from two, filled from the end: the later of the two last
/// values comes last, and that of `right` where they may stand either way.
spec fn merged<T>(left: Seq<T>, right: Seq<T>, le: spec_fn(T, T) -> bool) -> Seq<T>
    decreases left.len() + right.len(),
{
    if left.len() == 0 {
        right
    } else if right.len() == 0 {
        left
    } else if le(left.last(), right.last()) {
        merged(left, right.drop_last(), le).push(right.last())
    } else {
        merged(left.drop_last(), right, le).push(left.last())
    }
}

/// A value that is put in is there once more, the others are there as often
/// as before, and values that were in order still are.
pub proof fn lemma_inserted<T>(s: Seq<T>, x: T, le: spec_fn(T, T) -> bool)
    requires
        is_ranking(le),
    ensures
        inserted(s, x, le).len() == s.len() + 1,
        inserted(s, x, le).to_multiset() == s.to_multiset().insert(x),
        in_order(s, le) ==> in_order(inserted(s, x, le), le),
        forall|y: T| inserted(s, x, le).contains(y) <==> y == x || s.contains(y),
    decreases s.len(),
{
    broadcast use vstd::multiset::group_multiset_axioms;

    let after = inserted(s, x, le);
    if s.len() == 0 {
        assert(after == s.push(x));
        to_multiset_build(s, x);
        assert(le(x, x) || le(x, x));
    } else if le(s.last(), x) {
        to_multiset_build(s, x);
        if in_order(s, le) {
            assert forall|i: int, j: int| 0 <= i <= j < after.len() implies le(
                #[trigger] after[i],
                #[trigger] after[j],
            ) by {
                if j == s.len() {
                    if i < s.len() {
                        assert(le(s[i], s[s.len() - 1]));
                        assert(le(s[i], s.last()) && le(s.last(), x));
                    } else {
                        assert(le(x, x) || le(x, x));
                    }
                } else {
                    assert(le(s[i], s[j]));
                }
            }
        }
    } else {
        let front = s.drop_last();
        let last = s.last();
        lemma_inserted(front, x, le);
        let mid = inserted(front, x, le);
        assert(s == front.push(last));
        to_multiset_build(front, last);
        to_multiset_build(mid, last);
        assert(after.to_multiset() =~= s.to_multiset().insert(x));
        if in_order(s, le) {
            assert forall|i: int, j: int| 0 <= i <= j < front.len() implies le(
                #[trigger] front[i],
                #[trigger] front[j],
            ) by {
                assert(le(s[i], s[j]));
            }
            assert(le(last, x) || le(x, last));
            assert forall|i: int, j: int| 0 <= i <= j < after.len() implies le(
                #[trigger] after[i],
                #[trigger] after[j],
            ) by {
                if j < mid.len() {
                    assert(le(mid[i], mid[j]));
                } else if i < mid.len() {
                    assert(mid.contains(mid[i]));
                    if mid[i] != x {
                        assert(front.contains(mid[i]));
                        let k = choose|k: int| 0 <= k < front.len() && front[k] == mid[i];
                        assert(le(s[k], s[s.len() - 1]));
                    }
                } else {
                    assert(le(last, last) || le(last, last));
                }
            }
        }
    }
    assert forall|y: T| after.contains(y) <==> y == x || s.contains(y) by {
        vstd::seq_lib::to_multiset_contains(after, y);
        vstd::seq_lib::to_multiset_contains(s, y);
    }
}

/// The values of a sequence, arranged, are in order, and each is there as
/// often as it was.
pub proof fn lemma_arranged<T>(s: Seq<T>, le: spec_fn(T, T) -> bool)
    requires
        is_ranking(le),
    ensures
        in_order(arranged(s, le), le),
        arranged(s, le).to_multiset() == s.to_multiset(),
        arranged(s, le).len() == s.len(),
        forall|y: T| arranged(s, le).contains(y) <==> s.contains(y),
    decreases s.len(),
{
    if s.len() > 0 {
        lemma_arranged(s.drop_last(), le);
        lemma_inserted(arranged(s.drop_last(), le), s.last(), le);
        assert(s == s.drop_last().push(s.last()));
        to_multiset_build(s.drop_last(), s.last());
    } else {
        assert(arranged(s, le) =~= s);
    }
    assert forall|y: T| arranged(s, le).contains(y) <==> s.contains(y) by {
        vstd::seq_lib::to_multiset_contains(arranged(s, le), y);
        vstd::seq_lib::to_multiset_contains(s, y);
    }
}

/// Nothing is merged into a sequence from an empty one.
proof fn lemma_merged_empty<T>(s: Seq<T>, le: spec_fn(T, T) -> bool)
    ensures
        merged(s, Seq::empty(), le) == s,
        merged(Seq::empty(), s, le) == s,
{
}

/// Putting a value into the second of two sequences and merging them is
/// merging them and putting the value in.
proof fn lemma_merged_inserted<T>(left: Seq<T>, right: Seq<T>, x: T, le: spec_fn(T, T) -> bool)
    requires
        is_ranking(le),
    ensures
        merged(left, inserted(right, x, le), le) == inserted(merged(left, right, le), x, le),
    decreases left.len() + right.len(),
{
    let put = inserted(right, x, le);
    let both = merged(left, right, le);
    if left.len() == 0 {
        assert(merged(left, put, le) == put);
        assert(both == right);
    } else if right.len() == 0 {
        assert(both == left);
        assert(put == seq![x]);
        assert(put.last() == x);
        assert(put.drop_last() == right);
        if le(left.last(), x) {
            assert(merged(left, put, le) == merged(left, right, le).push(x));
            assert(inserted(left, x, le) == left.push(x));
        } else {
            lemma_merged_inserted(left.drop_last(), right, x, le);
            lemma_merged_empty(left.drop_last(), le);
            assert(merged(left, put, le) == merged(left.drop_last(), put, le).push(left.last()));
            assert(inserted(left, x, le) == inserted(left.drop_last(), x, le).push(left.last()));
        }
    } else if le(right.last(), x) {
        assert(put == right.push(x));
        assert(put.last() == x);
        assert(put.drop_last() == right);
        if le(left.last(), x) {
            assert(merged(left, put, le) == both.push(x));
            // The last of the two that are merged is the last of one of them.
            if le(left.last(), right.last()) {
                assert(both == merged(left, right.drop_last(), le).push(right.last()));
                assert(both.last() == right.last());
            } else {
                assert(both == merged(left.drop_last(), right, le).push(left.last()));
                assert(both.last() == left.last());
            }
            assert(both.len() > 0);
            assert(inserted(both, x, le) == both.push(x));
        } else {
            lemma_merged_inserted(left.drop_last(), right, x, le);
            assert(merged(left, put, le) == merged(left.drop_last(), put, le).push(left.last()));
            assert(le(left.last(), x) || le(x, left.last()));
            if le(left.last(), right.last()) {
                assert(le(left.last(), right.last()) && le(right.last(), x));
            }
            let pushed = merged(left.drop_last(), right, le).push(left.last());
            assert(both == pushed);
            assert(pushed.last() == left.last());
            assert(pushed.drop_last() == merged(left.drop_last(), right, le));
            assert(inserted(both, x, le) == inserted(pushed.drop_last(), x, le).push(
                pushed.last(),
            ));
        }
    } else {
        let last = right.last();
        assert(put == inserted(right.drop_last(), x, le).push(last));
        assert(put.last() == last);
        assert(put.drop_last() == inserted(right.drop_last(), x, le));
        if le(left.last(), last) {
            lemma_merged_inserted(left, right.drop_last(), x, le);
            assert(merged(left, put, le) == merged(left, put.drop_last(), le).push(last));
            let pushed = merged(left, right.drop_last(), le).push(last);
            assert(both == pushed);
            assert(pushed.last() == last);
            assert(pushed.drop_last() == merged(left, right.drop_last(), le));
            assert(inserted(both, x, le) == inserted(pushed.drop_last(), x, le).push(
                pushed.last(),
            ));
        } else {
            lemma_merged_inserted(left.drop_last(), right, x, le);
            assert(merged(left, put, le) == merged(left.drop_last(), put, le).push(left.last()));
            assert(le(left.last(), last) || le(last, left.last()));
            assert(le(last, x) || le(x, last));
            if le(left.last(), x) {
                assert(le(left.last(), x) && le(x, last));
            }
            let pushed = merged(left.drop_last(), right, le).push(left.last());
            assert(both == pushed);
            assert(pushed.last() == left.last());
            assert(pushed.drop_last() == merged(left.drop_last(), right, le));
            assert(inserted(both, x, le) == inserted(pushed.drop_last(), x, le).push(
                pushed.last(),
            ));
        }
    }
}

/// Merging a sequence with an arranged one is putting the values of that one
/// in, one after the other.
proof fn lemma_merged_all_inserted<T>(left: Seq<T>, more: Seq<T>, le: spec_fn(T, T) -> bool)
    requires
        is_ranking(le),
    ensures
        merged(left, arranged(more, le), le) == all_inserted(left, more, le),
    decreases more.len(),
{
    if more.len() == 0 {
        lemma_merged_empty(left, le);
    } else {
        lemma_merged_all_inserted(left, more.drop_last(), le);
        lemma_merged_inserted(left, arranged(more.drop_last(), le), more.last(), le);
    }
}

/// Arranging two sequences, one after the other, is arranging the first and
/// putting the values of the second in.
proof fn lemma_arranged_concat<T>(first: Seq<T>, more: Seq<T>, le: spec_fn(T, T) -> bool)
    ensures
        arranged(first + more, le) == all_inserted(arranged(first, le), more, le),
    decreases more.len(),
{
    if more.len() == 0 {
        assert(first + more == first);
    } else {
        lemma_arranged_concat(first, more.drop_last(), le);
        assert((first + more).drop_last() == first + more.drop_last());
        assert((first + more).last() == more.last());
    }
}

/// Arranging commutes with a change of values that keeps the order: where
/// `f` of a value may stand before `f` of another exactly where the value may
/// stand before the other, the values of `s`, arranged and changed by `f`,
/// are the changed values, arranged.
pub proof fn lemma_arranged_mapped<A, B>(
    s: Seq<A>,
    f: spec_fn(A) -> B,
    le_a: spec_fn(A, A) -> bool,
    le_b: spec_fn(B, B) -> bool,
)
    requires
        is_ranking(le_a),
        forall|i: int, j: int|
            0 <= i < s.len() && 0 <= j < s.len() ==> le_a(#[trigger] s[i], #[trigger] s[j])
                == le_b(f(s[i]), f(s[j])),
    ensures
        arranged(s, le_a).map_values(f) == arranged(s.map_values(f), le_b),
    decreases s.len(),
{
    if s.len() == 0 {
        assert(arranged(s, le_a).map_values(f) =~= arranged(s.map_values(f), le_b));
    } else {
        let front = s.drop_last();
        let last = s.last();
        assert forall|i: int, j: int| 0 <= i < front.len() && 0 <= j < front.len() implies le_a(
            #[trigger] front[i],
            #[trigger] front[j],
        ) == le_b(f(front[i]), f(front[j])) by {
            assert(front[i] == s[i] && front[j] == s[j]);
        }
        lemma_arranged_mapped(front, f, le_a, le_b);
        lemma_arranged(front, le_a);
        let sorted = arranged(front, le_a);
        assert forall|i: int| 0 <= i < sorted.len() implies le_a(#[trigger] sorted[i], last)
            == le_b(f(sorted[i]), f(last)) by {
            assert(sorted.contains(sorted[i]));
            assert(front.contains(sorted[i]));
            let k = choose|k: int| 0 <= k < front.len() && front[k] == sorted[i];
            assert(s[k] == sorted[i]);
            assert(s[s.len() - 1] == last);
        }
        lemma_inserted_mapped(sorted, last, f, le_a, le_b);
        assert(s.map_values(f).drop_last() == front.map_values(f));
        assert(s.map_values(f).last() == f(last));
    }
}

/// Putting a value in commutes with a change of values that keeps the order.
proof fn lemma_inserted_mapped<A, B>(
    s: Seq<A>,
    x: A,
    f: spec_fn(A) -> B,
    le_a: spec_fn(A, A) -> bool,
    le_b: spec_fn(B, B) -> bool,
)
    requires
        forall|i: int| 0 <= i < s.len() ==> le_a(#[trigger] s[i], x) == le_b(f(s[i]), f(x)),
    ensures
        inserted(s, x, le_a).map_values(f) == inserted(s.map_values(f), f(x), le_b),
    decreases s.len(),
{
    let mapped = s.map_values(f);
    if s.len() == 0 {
        assert(inserted(s, x, le_a).map_values(f) =~= inserted(mapped, f(x), le_b));
    } else {
        assert(mapped.last() == f(s.last()));
        assert(le_a(s[s.len() - 1], x) == le_b(f(s[s.len() - 1]), f(x)));
        if le_a(s.last(), x) {
            assert(s.push(x).map_values(f) =~= mapped.push(f(x)));
        } else {
            let front = s.drop_last();
            assert forall|i: int| 0 <= i < front.len() implies le_a(#[trigger] front[i], x)
                == le_b(f(front[i]), f(x)) by {
                assert(front[i] == s[i]);
            }
            lemma_inserted_mapped(front, x, f, le_a, le_b);
            assert(mapped.drop_last() =~= front.map_values(f));
            assert(inserted(front, x, le_a).push(s.last()).map_values(f) =~= inserted(
                front,
                x,
                le_a,
            ).map_values(f).push(f(s.last())));
        }
    }
}

/// The values of `v`, last first.
pub fn reversed<T>(v: Vec<T>) -> (r: Vec<T>)
    ensures
        r@ == v@.reverse(),
{
    let mut rest = v;
    let mut out: Vec<T> = Vec::new();
    let ghost all = rest@;
    while rest.len() > 0
        invariant
            rest@.len() + out@.len() == all.len(),
            rest@ == all.take(rest@.len() as int),
            forall|k: int| 0 <= k < out@.len() ==> out@[k] == all[all.len() - 1 - k],
        decreases rest.len(),
    {
        let x = rest.pop().unwrap();
        out.push(x);
    }
    assert(out@ == all.reverse());
    out
}

/// One sequence from two that are in order: the values of both, in order,
/// with those of `left` first among values that may stand either way.
fn merge<T, R: Ranking<T>>(left: Vec<T>, right: Vec<T>) -> (r: Vec<T>)
    ensures
        r@ == merged(left@, right@, rank::<T, R>()),
{
    let mut left = left;
    let mut right = right;
    let ghost le = rank::<T, R>();
    let ghost all = merged(left@, right@, le);
    // Filled from the largest value down.
    let mut out: Vec<T> = Vec::new();
    proof {
        assert(merged(left@, right@, le) + out@.reverse() == all);
    }
    while left.len() > 0 || right.len() > 0
        invariant
            le == rank::<T, R>(),
            merged(left@, right@, le) + out@.reverse() == all,
        decreases left.len() + right.len(),
    {
        let ghost left_before = left@;
        let ghost right_before = right@;
        let ghost out_before = out@;
        let from_right: bool = if left.len() == 0 {
            true
        } else if right.len() == 0 {
            false
        } else {
            R::is_le(&left[left.len() - 1], &right[right.len() - 1])
        };
        let x = if from_right {
            right.pop().unwrap()
        } else {
            left.pop().unwrap()
        };
        out.push(x);
        proof {
            lemma_merged_empty(left_before, le);
            lemma_merged_empty(right_before, le);
            lemma_merged_empty(left@, le);
            lemma_merged_empty(right@, le);
            if from_right {
                assert(right_before == right@.push(x));
            } else {
                assert(left_before == left@.push(x));
            }
            assert(merged(left_before, right_before, le) == merged(left@, right@, le).push(x));
            assert(out@.reverse() == seq![x] + out_before.reverse());
            assert(merged(left@, right@, le).push(x) + out_before.reverse() == merged(
                left@,
                right@,
                le,
            ) + (seq![x] + out_before.reverse()));
        }
    }
    let ghost filled = out@;
    let sorted = reversed(out);
    proof {
        assert(Seq::<T>::empty() + filled.reverse() == filled.reverse());
    }
    sorted
}

/// The values of `v` in the order `R`.
///
/// Values that may stand either way keep the order in which they came. What
/// comes back holds each value of `v` as often as `v` does, and each of its
/// values may stand before all that follow it.
pub fn sort<T, R: Ranking<T>>(v: Vec<T>) -> (r: Vec<T>)
    ensures
        r@ == arranged(v@, rank::<T, R>()),
        ordered::<T, R>(r@),
        r@.to_multiset() == v@.to_multiset(),
    decreases v@.len(),
{
    let mut left = v;
    let ghost all = left@;
    let ghost le = rank::<T, R>();
    proof {
        lemma_rank_is_ranking::<T, R>();
        lemma_arranged(all, le);
    }
    if left.len() <= 1 {
        proof {
            if all.len() == 1 {
                assert(all.drop_last() == Seq::<T>::empty());
                assert(arranged(all.drop_last(), le) == Seq::<T>::empty());
                assert(arranged(all, le) == inserted(Seq::<T>::empty(), all.last(), le));
                assert(seq![all.last()] == all);
            } else {
                assert(arranged(all, le) =~= all);
            }
        }
        return left;
    }
    let half: usize = left.len() / 2;
    let right = left.split_off(half);
    proof {
        assert(all == left@ + right@);
        lemma_arranged_concat(left@, right@, le);
        lemma_merged_all_inserted(arranged(left@, le), right@, le);
    }
    let left_sorted = sort::<T, R>(left);
    let right_sorted = sort::<T, R>(right);
    merge::<T, R>(left_sorted, right_sorted)
}

/// Two sequences that hold the same values equally often hold the same values.
pub proof fn lemma_same_values<T>(a: Seq<T>, b: Seq<T>)
    requires
        a.to_multiset() == b.to_multiset(),
    ensures
        a.len() == b.len(),
        forall|x: T| a.contains(x) <==> b.contains(x),
{
    vstd::seq_lib::to_multiset_len(a);
    vstd::seq_lib::to_multiset_len(b);
    assert forall|x: T| a.contains(x) <==> b.contains(x) by {
        vstd::seq_lib::to_multiset_contains(a, x);
        vstd::seq_lib::to_multiset_contains(b, x);
    }
}

/// Two sequences that hold the same values equally often still do after the
/// same function is applied to every value.
pub proof fn lemma_mapped_values<A, B>(a: Seq<A>, b: Seq<A>, f: spec_fn(A) -> B)
    requires
        a.to_multiset() == b.to_multiset(),
    ensures
        a.map_values(f).to_multiset() == b.map_values(f).to_multiset(),
    decreases a.len(),
{
    broadcast use vstd::multiset::group_multiset_axioms;

    lemma_same_values(a, b);
    if a.len() == 0 {
        assert(a.map_values(f) =~= b.map_values(f));
    } else {
        let x = a.last();
        let front = a.drop_last();
        assert(a == front.push(x));
        to_multiset_build(front, x);
        assert(a.contains(x));
        assert(b.contains(x));
        let j = choose|j: int| 0 <= j < b.len() && b[j] == x;
        let rest = b.remove(j);
        vstd::seq_lib::to_multiset_remove(b, j);
        assert(front.to_multiset() =~= rest.to_multiset());
        lemma_mapped_values(front, rest, f);
        assert(a.map_values(f) =~= front.map_values(f).push(f(x)));
        to_multiset_build(front.map_values(f), f(x));
        assert(b.map_values(f) =~= rest.map_values(f).insert(j, f(x)));
        vstd::seq_lib::to_multiset_insert(rest.map_values(f), j, f(x));
    }
}

} // verus!
