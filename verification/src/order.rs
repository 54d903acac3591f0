//! Sorting: what it means that a sequence is sorted, with ties left in their order.

use vstd::prelude::*;

verus! {

/// A sequence with one more element: behind all those that the element does not go before, where
/// the sequence was sorted.
pub open spec fn insert_by<A>(s: Seq<A>, x: A, before: spec_fn(A, A) -> bool) -> Seq<A>
    decreases s.len(),
{
    if s.len() == 0 || !before(x, s.last()) {
        s.push(x)
    } else {
        insert_by(s.drop_last(), x, before).push(s.last())
    }
}

/// The elements of a sequence, sorted. Elements of which none goes before the other keep their
/// order.
pub open spec fn sort_by<A>(s: Seq<A>, before: spec_fn(A, A) -> bool) -> Seq<A>
    decreases s.len(),
{
    if s.len() == 0 {
        s
    } else {
        insert_by(sort_by(s.drop_last(), before), s.last(), before)
    }
}

/// Whether no element of a sequence goes before an earlier one.
pub open spec fn is_sorted<A>(s: Seq<A>, before: spec_fn(A, A) -> bool) -> bool {
    forall|i: int, j: int| 0 <= i < j < s.len() ==> !#[trigger] before(s[j], s[i])
}

/// Whether `before` can be sorted by: nothing goes before what goes before it, and what does not
/// go before something does not go before anything earlier.
pub open spec fn is_weak_order<A>(before: spec_fn(A, A) -> bool) -> bool {
    &&& forall|a: A, b: A| #[trigger] before(a, b) ==> !before(b, a)
    &&& forall|a: A, b: A, c: A|
        !#[trigger] before(b, a) && !#[trigger] before(c, b) ==> !before(c, a)
}

/// Whether neither of two elements goes before the other.
pub open spec fn ties<A>(a: A, b: A, before: spec_fn(A, A) -> bool) -> bool {
    !before(a, b) && !before(b, a)
}

/// An element is inserted at the place that is behind all those that it does not go before.
pub proof fn lemma_insert_by_at<A>(s: Seq<A>, x: A, before: spec_fn(A, A) -> bool, pos: int)
    requires
        0 <= pos <= s.len(),
        pos > 0 ==> !before(x, s[pos - 1]),
        forall|k: int| pos <= k < s.len() ==> before(x, #[trigger] s[k]),
    ensures
        insert_by(s, x, before) == s.insert(pos, x),
    decreases s.len(),
{
    if s.len() == 0 || !before(x, s.last()) {
        assert(pos == s.len());
        assert(s.insert(pos, x) =~= s.push(x));
    } else {
        assert(pos < s.len());
        lemma_insert_by_at(s.drop_last(), x, before, pos);
        assert(s.insert(pos, x) =~= s.drop_last().insert(pos, x).push(s.last()));
    }
}

pub proof fn lemma_insert_by_len<A>(s: Seq<A>, x: A, before: spec_fn(A, A) -> bool)
    ensures
        insert_by(s, x, before).len() == s.len() + 1,
    decreases s.len(),
{
    if s.len() > 0 && before(x, s.last()) {
        lemma_insert_by_len(s.drop_last(), x, before);
    }
}

pub proof fn lemma_insert_by_multiset<A>(s: Seq<A>, x: A, before: spec_fn(A, A) -> bool)
    ensures
        insert_by(s, x, before).to_multiset() == s.to_multiset().insert(x),
    decreases s.len(),
{
    broadcast use vstd::multiset::group_multiset_axioms;

    if s.len() == 0 || !before(x, s.last()) {
        vstd::seq_lib::to_multiset_build(s, x);
    } else {
        let front = s.drop_last();
        lemma_insert_by_multiset(front, x, before);
        vstd::seq_lib::to_multiset_build(insert_by(front, x, before), s.last());
        vstd::seq_lib::to_multiset_build(front, s.last());
        assert(front.push(s.last()) =~= s);
        assert(front.to_multiset().insert(x).insert(s.last()) =~= front.to_multiset().insert(
            s.last(),
        ).insert(x));
    }
}

/// Whatever holds of all the elements of a sequence and of one more holds of all the elements
/// after that one is inserted.
pub proof fn lemma_insert_by_all<A>(
    s: Seq<A>,
    x: A,
    before: spec_fn(A, A) -> bool,
    p: spec_fn(A) -> bool,
)
    requires
        p(x),
        forall|i: int| 0 <= i < s.len() ==> p(#[trigger] s[i]),
    ensures
        forall|i: int| 0 <= i < s.len() + 1 ==> p(#[trigger] insert_by(s, x, before)[i]),
    decreases s.len(),
{
    lemma_insert_by_len(s, x, before);
    if s.len() > 0 && before(x, s.last()) {
        lemma_insert_by_all(s.drop_last(), x, before, p);
        lemma_insert_by_len(s.drop_last(), x, before);
    }
}

proof fn lemma_insert_by_sorted<A>(s: Seq<A>, x: A, before: spec_fn(A, A) -> bool)
    requires
        is_weak_order(before),
        is_sorted(s, before),
    ensures
        is_sorted(insert_by(s, x, before), before),
    decreases s.len(),
{
    let r = insert_by(s, x, before);
    lemma_insert_by_len(s, x, before);
    if s.len() == 0 {
    } else if !before(x, s.last()) {
        assert forall|i: int, j: int| 0 <= i < j < r.len() implies !#[trigger] before(
            r[j],
            r[i],
        ) by {
            if j == s.len() {
                if i < s.len() - 1 {
                    assert(!before(s[s.len() - 1], s[i]));
                }
                assert(!before(x, s[i]));
            } else {
                assert(!before(s[j], s[i]));
            }
        }
    } else {
        let front = s.drop_last();
        let last = s.last();
        assert(is_sorted(front, before)) by {
            assert forall|i: int, j: int| 0 <= i < j < front.len() implies !#[trigger] before(
                front[j],
                front[i],
            ) by {
                assert(!before(s[j], s[i]));
            }
        }
        lemma_insert_by_sorted(front, x, before);
        lemma_insert_by_len(front, x, before);
        let p = |a: A| !before(last, a);
        assert forall|i: int| 0 <= i < front.len() implies p(#[trigger] front[i]) by {
            assert(!before(s[s.len() - 1], s[i]));
        }
        lemma_insert_by_all(front, x, before, p);
        let f = insert_by(front, x, before);
        assert forall|i: int, j: int| 0 <= i < j < r.len() implies !#[trigger] before(
            r[j],
            r[i],
        ) by {
            if j == s.len() {
                assert(p(f[i]));
            } else {
                assert(!before(f[j], f[i]));
            }
        }
    }
}

/// Sorting a sequence sorts it, and neither adds nor drops an element.
pub proof fn lemma_sort_by<A>(s: Seq<A>, before: spec_fn(A, A) -> bool)
    requires
        is_weak_order(before),
    ensures
        is_sorted(sort_by(s, before), before),
        sort_by(s, before).to_multiset() == s.to_multiset(),
        sort_by(s, before).len() == s.len(),
    decreases s.len(),
{
    if s.len() > 0 {
        let front = s.drop_last();
        lemma_sort_by(front, before);
        lemma_insert_by_sorted(sort_by(front, before), s.last(), before);
        lemma_insert_by_multiset(sort_by(front, before), s.last(), before);
        lemma_insert_by_len(sort_by(front, before), s.last(), before);
        vstd::seq_lib::to_multiset_build(front, s.last());
        assert(front.push(s.last()) =~= s);
    }
}

/// A sequence that is sorted stays as it is.
pub proof fn lemma_sort_by_of_sorted<A>(s: Seq<A>, before: spec_fn(A, A) -> bool)
    requires
        is_sorted(s, before),
    ensures
        sort_by(s, before) == s,
    decreases s.len(),
{
    if s.len() > 0 {
        let front = s.drop_last();
        assert forall|i: int, j: int| 0 <= i < j < front.len() implies !#[trigger] before(
            front[j],
            front[i],
        ) by {
            assert(!before(s[j], s[i]));
        }
        lemma_sort_by_of_sorted(front, before);
        if front.len() > 0 {
            assert(!before(s[s.len() - 1], s[s.len() - 2]));
        }
        assert(sort_by(s, before) =~= s);
    }
}

/// Whether every two elements of a sequence are related, the earlier one to the later one.
pub open spec fn all_pairs<A>(s: Seq<A>, rel: spec_fn(A, A) -> bool) -> bool {
    forall|i: int, j: int| 0 <= i < j < s.len() ==> #[trigger] rel(s[i], s[j])
}

proof fn lemma_insert_by_pairs<A>(
    s: Seq<A>,
    x: A,
    before: spec_fn(A, A) -> bool,
    rel: spec_fn(A, A) -> bool,
)
    requires
        forall|a: A, b: A| #[trigger] rel(a, b) ==> rel(b, a),
        all_pairs(s, rel),
        forall|i: int| 0 <= i < s.len() ==> rel(#[trigger] s[i], x),
    ensures
        all_pairs(insert_by(s, x, before), rel),
    decreases s.len(),
{
    let r = insert_by(s, x, before);
    if s.len() > 0 && before(x, s.last()) {
        let front = s.drop_last();
        let last = s.last();
        let p = |a: A| rel(a, last);
        assert(rel(s[s.len() - 1], x));
        assert forall|i: int| 0 <= i < front.len() implies p(#[trigger] front[i]) by {
            assert(rel(s[i], s[s.len() - 1]));
        }
        assert forall|i: int, j: int| 0 <= i < j < front.len() implies #[trigger] rel(
            front[i],
            front[j],
        ) by {
            assert(rel(s[i], s[j]));
        }
        lemma_insert_by_pairs(front, x, before, rel);
        lemma_insert_by_all(front, x, before, p);
        lemma_insert_by_len(front, x, before);
        let f = insert_by(front, x, before);
        assert forall|i: int, j: int| 0 <= i < j < r.len() implies #[trigger] rel(r[i], r[j]) by {
            if j == f.len() {
                assert(p(f[i]));
            } else {
                assert(rel(f[i], f[j]));
            }
        }
    } else {
        assert forall|i: int, j: int| 0 <= i < j < r.len() implies #[trigger] rel(r[i], r[j]) by {
            if j < s.len() {
                assert(rel(s[i], s[j]));
            } else {
                assert(rel(s[i], x));
            }
        }
    }
}

/// Elements of which every two are related, in whatever order, stay so when they are sorted.
pub proof fn lemma_sort_by_pairs<A>(
    s: Seq<A>,
    before: spec_fn(A, A) -> bool,
    rel: spec_fn(A, A) -> bool,
)
    requires
        is_weak_order(before),
        forall|a: A, b: A| #[trigger] rel(a, b) ==> rel(b, a),
        all_pairs(s, rel),
    ensures
        all_pairs(sort_by(s, before), rel),
    decreases s.len(),
{
    broadcast use vstd::seq_lib::group_to_multiset_ensures;

    if s.len() > 0 {
        let front = s.drop_last();
        let x = s.last();
        let sorted = sort_by(front, before);
        assert forall|i: int, j: int| 0 <= i < j < front.len() implies #[trigger] rel(
            front[i],
            front[j],
        ) by {
            assert(rel(s[i], s[j]));
        }
        lemma_sort_by_pairs(front, before, rel);
        lemma_sort_by(front, before);
        assert forall|i: int| 0 <= i < sorted.len() implies rel(#[trigger] sorted[i], x) by {
            assert(sorted.contains(sorted[i]) && sorted.to_multiset().count(sorted[i]) > 0);
            assert(front.contains(sorted[i]));
            let k = choose|k: int| 0 <= k < front.len() && front[k] == sorted[i];
            assert(rel(s[k], s[s.len() - 1]));
        }
        lemma_insert_by_pairs(sorted, x, before, rel);
    }
}

proof fn lemma_filter_push<A>(s: Seq<A>, x: A, p: spec_fn(A) -> bool)
    ensures
        s.push(x).filter(p) == (if p(x) {
            s.filter(p).push(x)
        } else {
            s.filter(p)
        }),
{
    reveal(Seq::filter);
    assert(s.push(x).drop_last() =~= s);
}

proof fn lemma_insert_by_filter<A>(s: Seq<A>, x: A, before: spec_fn(A, A) -> bool, k: A)
    requires
        is_weak_order(before),
    ensures
        insert_by(s, x, before).filter(|e: A| ties(e, k, before)) == s.push(x).filter(
            |e: A| ties(e, k, before),
        ),
    decreases s.len(),
{
    let p = |e: A| ties(e, k, before);
    if s.len() > 0 && before(x, s.last()) {
        let front = s.drop_last();
        let last = s.last();
        lemma_insert_by_filter(front, x, before, k);
        lemma_filter_push(insert_by(front, x, before), last, p);
        lemma_filter_push(front, x, p);
        lemma_filter_push(front, last, p);
        lemma_filter_push(s, x, p);
        assert(front.push(last) =~= s);
        if p(x) && p(last) {
            // `last` does not go before `k`, nor `k` before `x`, so `last` is not before `x`;
            // and the other way round, which is not so.
            assert(!before(x, k) && !before(k, last));
            assert(!before(x, last));
        }
    }
}

/// Sorting leaves elements of which none goes before the other in their order.
pub proof fn lemma_sort_by_is_stable<A>(s: Seq<A>, before: spec_fn(A, A) -> bool, k: A)
    requires
        is_weak_order(before),
    ensures
        sort_by(s, before).filter(|e: A| ties(e, k, before)) == s.filter(
            |e: A| ties(e, k, before),
        ),
    decreases s.len(),
{
    let p = |e: A| ties(e, k, before);
    if s.len() > 0 {
        let front = s.drop_last();
        lemma_sort_by_is_stable(front, before, k);
        lemma_insert_by_filter(sort_by(front, before), s.last(), before, k);
        lemma_filter_push(sort_by(front, before), s.last(), p);
        lemma_filter_push(front, s.last(), p);
        assert(front.push(s.last()) =~= s);
    }
}

/// The order of numbers.
pub open spec fn less_than() -> spec_fn(u64, u64) -> bool {
    |a: u64, b: u64| a < b
}

/// Sorts some numbers.
pub(crate) fn sort_numbers(v: &Vec<u64>) -> (r: Vec<u64>)
    ensures
        r@ == sort_by(v@, less_than()),
{
    let mut out: Vec<u64> = Vec::new();
    let mut i: usize = 0;
    assert(v@.take(0).len() == 0);
    assert(out@ =~= sort_by(v@.take(0), less_than()));
    while i < v.len()
        invariant
            i <= v@.len(),
            out@ == sort_by(v@.take(i as int), less_than()),
        decreases v@.len() - i,
    {
        let x: u64 = v[i];
        let mut pos: usize = out.len();
        while pos > 0 && x < out[pos - 1]
            invariant
                pos <= out@.len(),
                forall|k: int| pos <= k < out@.len() ==> x < #[trigger] out@[k],
            decreases pos,
        {
            pos = pos - 1;
        }
        proof {
            lemma_insert_by_at(out@, x, less_than(), pos as int);
            assert(v@.take(i + 1).drop_last() =~= v@.take(i as int));
        }
        out.insert(pos, x);
        i = i + 1;
    }
    assert(v@.take(i as int) =~= v@);
    out
}

} // verus!
