//! Small general lemmas about sequences that several modules share.

use vstd::prelude::*;

verus! {

/// Filtering a sequence extended by one element keeps the filtered
/// prefix and appends the element exactly when it satisfies the
/// predicate.
pub proof fn lemma_filter_push<A>(s: Seq<A>, x: A, pred: spec_fn(A) -> bool)
    ensures
        s.push(x).filter(pred) == if pred(x) {
            s.filter(pred).push(x)
        } else {
            s.filter(pred)
        },
{
    reveal(Seq::filter);
    assert(s.push(x).drop_last() =~= s);
}

/// Every element a filter keeps is an element of the original.
pub proof fn lemma_filter_sub<A>(s: Seq<A>, pred: spec_fn(A) -> bool)
    ensures
        forall|i: int|
            0 <= i < s.filter(pred).len() ==> s.contains(#[trigger] s.filter(pred)[i]),
    decreases s.len(),
{
    reveal(Seq::filter);
    if s.len() > 0 {
        let t = s.drop_last();
        lemma_filter_sub(t, pred);
        let ft = t.filter(pred);
        assert forall|i: int| 0 <= i < s.filter(pred).len() implies s.contains(
            #[trigger] s.filter(pred)[i],
        ) by {
            if i < ft.len() {
                assert(t.contains(ft[i]));
                let j = choose|j: int| 0 <= j < t.len() && t[j] == ft[i];
                assert(s[j] == ft[i]);
            } else {
                assert(s.filter(pred)[i] == s.last());
                assert(s[s.len() - 1] == s.last());
            }
        }
    }
}

/// Filtering preserves the absence of duplicates.
pub proof fn lemma_filter_no_dup<A>(s: Seq<A>, pred: spec_fn(A) -> bool)
    requires
        s.no_duplicates(),
    ensures
        s.filter(pred).no_duplicates(),
    decreases s.len(),
{
    reveal(Seq::filter);
    if s.len() > 0 {
        let t = s.drop_last();
        assert(t.no_duplicates());
        lemma_filter_no_dup(t, pred);
        if pred(s.last()) {
            let ft = t.filter(pred);
            lemma_filter_sub(t, pred);
            assert forall|i: int| 0 <= i < ft.len() implies ft[i] != s.last() by {
                assert(t.contains(ft[i]));
                let j = choose|j: int| 0 <= j < t.len() && t[j] == ft[i];
                assert(s[j] == t[j]);
            }
            assert(s.filter(pred) == ft.push(s.last()));
        }
    }
}

/// A filter whose predicate holds of every element keeps the sequence.
pub proof fn lemma_filter_all<A>(s: Seq<A>, pred: spec_fn(A) -> bool)
    requires
        forall|i: int| 0 <= i < s.len() ==> pred(#[trigger] s[i]),
    ensures
        s.filter(pred) == s,
    decreases s.len(),
{
    reveal(Seq::filter);
    if s.len() > 0 {
        let t = s.drop_last();
        assert(forall|i: int| 0 <= i < t.len() ==> s[i] == #[trigger] t[i]);
        lemma_filter_all(t, pred);
        assert(pred(s[s.len() - 1]));
        assert(s.filter(pred) =~= s);
    }
}

/// A filter whose predicate holds of no element keeps nothing.
pub proof fn lemma_filter_none<A>(s: Seq<A>, pred: spec_fn(A) -> bool)
    requires
        forall|i: int| 0 <= i < s.len() ==> !pred(#[trigger] s[i]),
    ensures
        s.filter(pred) == Seq::<A>::empty(),
    decreases s.len(),
{
    reveal(Seq::filter);
    if s.len() > 0 {
        let t = s.drop_last();
        assert(forall|i: int| 0 <= i < t.len() ==> s[i] == #[trigger] t[i]);
        lemma_filter_none(t, pred);
        assert(!pred(s[s.len() - 1]));
    }
}

/// A sequence of distinct indices below `n` that is shorter than `n`
/// leaves some index out.
pub proof fn lemma_some_index_free(sel: Seq<int>, n: int)
    requires
        forall|k: int| 0 <= k < sel.len() ==> 0 <= #[trigger] sel[k] < n,
        forall|k1: int, k2: int| 0 <= k1 < k2 < sel.len() ==> sel[k1] != sel[k2],
        sel.len() < n,
    ensures
        exists|w: int| 0 <= w < n && !sel.contains(w),
{
    if forall|w: int| 0 <= w < n ==> sel.contains(w) {
        assert(sel.no_duplicates());
        sel.unique_seq_to_set();
        vstd::set_lib::lemma_int_range(0, n);
        assert(vstd::set_lib::set_int_range(0, n) <= sel.to_set()) by {
            assert forall|w: int|
                vstd::set_lib::set_int_range(0, n).contains(w) implies sel.to_set().contains(
                w,
            ) by {
                assert(sel.contains(w));
            }
        }
        vstd::set_lib::lemma_len_subset(vstd::set_lib::set_int_range(0, n), sel.to_set());
        assert(false);
    }
}

/// A sequence of `n` distinct indices below `n` covers every index.
pub proof fn lemma_distinct_covers(sel: Seq<int>, n: int)
    requires
        sel.len() == n,
        forall|k: int| 0 <= k < sel.len() ==> 0 <= #[trigger] sel[k] < n,
        forall|k1: int, k2: int| 0 <= k1 < k2 < sel.len() ==> sel[k1] != sel[k2],
    ensures
        forall|j: int| 0 <= j < n ==> sel.contains(j),
{
    assert forall|j: int| 0 <= j < n implies sel.contains(j) by {
        if !sel.contains(j) {
            assert(sel.no_duplicates());
            sel.unique_seq_to_set();
            vstd::set_lib::lemma_int_range(0, n);
            let range_without = vstd::set_lib::set_int_range(0, n).remove(j);
            assert(sel.to_set() <= range_without) by {
                assert forall|w: int| sel.to_set().contains(w) implies range_without.contains(
                    w,
                ) by {
                    assert(sel.contains(w));
                    let k = choose|k: int| 0 <= k < sel.len() && sel[k] == w;
                    assert(w != j);
                }
            }
            vstd::set_lib::lemma_len_subset(sel.to_set(), range_without);
            assert(range_without.len() == n - 1);
            assert(false);
        }
    }
}

} // verus!
