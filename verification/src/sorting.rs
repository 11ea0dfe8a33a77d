//! How sorted sequences grow.
use vstd::prelude::*;
use vstd::relations::{sorted_by, total_ordering};

verus! {

/// Adding a value to a sequence adds it to the sorted sequence, at the place where
/// all before it precede it and all behind it follow it.
pub proof fn lemma_sort_push<A>(s: Seq<A>, x: A, pos: int, leq: spec_fn(A, A) -> bool)
    requires
        total_ordering(leq),
        0 <= pos <= s.sort_by(leq).len(),
        forall|k: int| 0 <= k < pos ==> leq(#[trigger] s.sort_by(leq)[k], x),
        forall|k: int| pos <= k < s.sort_by(leq).len() ==> leq(x, #[trigger] s.sort_by(leq)[k]),
    ensures
        s.push(x).sort_by(leq) == s.sort_by(leq).insert(pos, x),
{
    let sorted = s.sort_by(leq);
    let t = sorted.insert(pos, x);
    s.lemma_sort_by_ensures(leq);
    s.push(x).lemma_sort_by_ensures(leq);
    let front = sorted.take(pos);
    let back = sorted.skip(pos);
    assert(sorted =~= front + back);
    assert(t =~= front.push(x) + back);
    broadcast use vstd::seq_lib::group_to_multiset_ensures;

    vstd::seq_lib::lemma_multiset_commutative(front, back);
    vstd::seq_lib::lemma_multiset_commutative(front.push(x), back);
    assert(t.to_multiset() =~= s.push(x).to_multiset());
    assert forall|i: int, j: int| 0 <= i < j < t.len() implies #[trigger] leq(t[i], t[j]) by {
        if i < pos && j < pos {
            assert(t[i] == sorted[i] && t[j] == sorted[j]);
        } else if i < pos && j == pos {
            assert(t[i] == sorted[i]);
        } else if i < pos {
            assert(t[i] == sorted[i] && t[j] == sorted[j - 1]);
        } else if i == pos {
            assert(t[j] == sorted[j - 1]);
        } else {
            assert(t[i] == sorted[i - 1] && t[j] == sorted[j - 1]);
        }
    }
    vstd::seq_lib::lemma_sorted_unique(s.push(x).sort_by(leq), t, leq);
}

/// Where a value belongs in a sorted sequence, if it belongs at `from` or later.
pub proof fn lemma_place<A>(sorted: Seq<A>, x: A, from: int, leq: spec_fn(A, A) -> bool) -> (pos:
    int)
    requires
        total_ordering(leq),
        sorted_by(sorted, leq),
        0 <= from <= sorted.len(),
        forall|k: int| 0 <= k < from ==> leq(#[trigger] sorted[k], x),
    ensures
        from <= pos <= sorted.len(),
        forall|k: int| 0 <= k < pos ==> leq(#[trigger] sorted[k], x),
        forall|k: int| pos <= k < sorted.len() ==> leq(x, #[trigger] sorted[k]),
    decreases sorted.len() - from,
{
    if from == sorted.len() {
        from
    } else if leq(sorted[from], x) {
        lemma_place(sorted, x, from + 1, leq)
    } else {
        assert forall|k: int| from <= k < sorted.len() implies leq(x, #[trigger] sorted[k]) by {
            assert(leq(x, sorted[from]));
            if k > from {
                assert(leq(sorted[from], sorted[k]));
            }
        }
        from
    }
}

} // verus!
