//! Facts about lists of slot indices that several modules lean on: what a
//! filter keeps, and what pushing and removing do to a list without
//! repetitions.

use vstd::prelude::*;
use crate::slots::all_below;

verus! {

/// Sequences that hold each value equally often hold the same values.
pub proof fn lemma_same_members<A>(a: Seq<A>, b: Seq<A>)
    requires
        a.to_multiset() =~= b.to_multiset(),
    ensures
        a.len() == b.len(),
        forall|x: A| a.contains(x) <==> b.contains(x),
{
    a.to_multiset_ensures();
    b.to_multiset_ensures();
    assert forall|x: A| a.contains(x) <==> b.contains(x) by {
        assert(a.contains(x) <==> a.to_multiset().count(x) > 0);
        assert(b.contains(x) <==> b.to_multiset().count(x) > 0);
    }
}

/// What a filter keeps is in bounds where the whole was.
pub proof fn lemma_filter_in_bounds(s: Seq<usize>, pred: spec_fn(usize) -> bool, bound: int)
    requires
        all_below(s, bound),
    ensures
        all_below(s.filter(pred), bound),
{
    assert forall|k: int| 0 <= k < s.filter(pred).len() implies (#[trigger] s.filter(pred)[k])
        < bound by {
        let x = s.filter(pred)[k];
        assert(s.filter(pred).contains(x));
        s.lemma_filter_contains_rev(pred, x);
        let m = choose|m: int| 0 <= m < s.len() && s[m] == x;
        assert(s[m] < bound);
    }
}

/// A filter that keeps as many entries as there were keeps the sequence as it is.
pub proof fn lemma_filter_keeps_all(s: Seq<usize>, pred: spec_fn(usize) -> bool)
    requires
        s.filter(pred).len() == s.len(),
    ensures
        s.filter(pred) =~= s,
        forall|k: int| 0 <= k < s.len() ==> pred(#[trigger] s[k]),
    decreases s.len(),
{
    reveal(Seq::filter);
    if s.len() > 0 {
        let rest = s.drop_last();
        rest.lemma_filter_len(pred);
        assert(s =~= rest.push(s.last()));
        rest.lemma_filter_push(s.last(), pred);
        lemma_filter_keeps_all(rest, pred);
        assert forall|k: int| 0 <= k < s.len() implies pred(#[trigger] s[k]) by {
            if k < rest.len() {
                assert(s[k] == rest[k]);
            }
        }
    }
}

/// A filter keeps nothing of a sequence none of whose entries passes.
pub proof fn lemma_filter_none(s: Seq<usize>, pred: spec_fn(usize) -> bool)
    requires
        forall|k: int| 0 <= k < s.len() ==> !pred(#[trigger] s[k]),
    ensures
        s.filter(pred) =~= Seq::<usize>::empty(),
{
    if s.filter(pred).len() > 0 {
        let x = s.filter(pred)[0];
        s.lemma_filter_pred(pred, 0);
        assert(s.filter(pred).contains(x));
        s.lemma_filter_contains_rev(pred, x);
        let m = choose|m: int| 0 <= m < s.len() && s[m] == x;
        assert(!pred(s[m]));
    }
}

/// A filter keeps something exactly when some entry passes.
pub proof fn lemma_filter_nonempty(s: Seq<usize>, pred: spec_fn(usize) -> bool)
    ensures
        s.filter(pred).len() > 0 <==> exists|k: int| 0 <= k < s.len() && pred(#[trigger] s[k]),
{
    if exists|k: int| 0 <= k < s.len() && pred(#[trigger] s[k]) {
        let k = choose|k: int| 0 <= k < s.len() && pred(#[trigger] s[k]);
        s.lemma_filter_contains(pred, k);
        let m = choose|m: int| 0 <= m < s.filter(pred).len() && s.filter(pred)[m] == s[k];
    } else {
        lemma_filter_none(s, pred);
    }
}

/// Taking one entry out of a list without repetitions leaves a list without
/// repetitions that holds the other entries and no more.
pub proof fn lemma_remove_from_distinct(s: Seq<usize>, j: int)
    requires
        s.no_duplicates(),
        0 <= j < s.len(),
    ensures
        s.remove(j).no_duplicates(),
        forall|x: usize| s.remove(j).contains(x) <==> (s.contains(x) && x != s[j]),
{
    let rest = s.remove(j);
    assert forall|a: int| 0 <= a < rest.len() implies #[trigger] rest[a] == s[if a < j {
        a
    } else {
        a + 1
    }] by {}
    assert forall|x: usize| rest.contains(x) <==> (s.contains(x) && x != s[j]) by {
        if rest.contains(x) {
            let k = choose|k: int| 0 <= k < rest.len() && rest[k] == x;
            let k0 = if k < j { k } else { k + 1 };
            assert(s[k0] == x);
        }
        if s.contains(x) && x != s[j] {
            let k = choose|k: int| 0 <= k < s.len() && s[k] == x;
            let k1 = if k < j { k } else { k - 1 };
            assert(rest[k1] == x);
        }
    }
}

/// Adding a new entry to a list without repetitions leaves a list without
/// repetitions that holds the old entries and the new one.
pub proof fn lemma_push_to_distinct(s: Seq<usize>, x: usize)
    requires
        s.no_duplicates(),
        !s.contains(x),
    ensures
        s.push(x).no_duplicates(),
        forall|y: usize| s.push(x).contains(y) <==> (s.contains(y) || y == x),
{
    let more = s.push(x);
    assert forall|a: int, b: int| 0 <= a < more.len() && 0 <= b < more.len() && a != b implies more[a]
        != more[b] by {
        if a < s.len() {
            assert(s.contains(s[a]));
        }
        if b < s.len() {
            assert(s.contains(s[b]));
        }
    }
    assert forall|y: usize| more.contains(y) <==> (s.contains(y) || y == x) by {
        if more.contains(y) {
            let k = choose|k: int| 0 <= k < more.len() && more[k] == y;
            if k < s.len() {
                assert(s[k] == y);
            }
        }
        if s.contains(y) {
            let k = choose|k: int| 0 <= k < s.len() && s[k] == y;
            assert(more[k] == y);
        }
        if y == x {
            assert(more[s.len() as int] == x);
        }
    }
}

/// What a filter keeps of a list without repetitions has no repetitions.
pub proof fn lemma_filter_keeps_distinct(s: Seq<usize>, pred: spec_fn(usize) -> bool)
    requires
        s.no_duplicates(),
    ensures
        s.filter(pred).no_duplicates(),
    decreases s.len(),
{
    reveal(Seq::filter);
    if s.len() > 0 {
        let rest = s.drop_last();
        let last = s.last();
        assert(s =~= rest.push(last));
        lemma_filter_keeps_distinct(rest, pred);
        rest.lemma_filter_push(last, pred);
        if pred(last) {
            if rest.filter(pred).contains(last) {
                rest.lemma_filter_contains_rev(pred, last);
                let k = choose|k: int| 0 <= k < rest.len() && rest[k] == last;
                assert(s[k] == s[s.len() - 1]);
            }
            lemma_push_to_distinct(rest.filter(pred), last);
        }
    }
}

/// A filter keeps exactly the entries that pass.
pub proof fn lemma_filter_members(s: Seq<usize>, pred: spec_fn(usize) -> bool)
    ensures
        forall|x: usize| s.filter(pred).contains(x) <==> (s.contains(x) && pred(x)),
{
    assert forall|x: usize| s.filter(pred).contains(x) <==> (s.contains(x) && pred(x)) by {
        if s.filter(pred).contains(x) {
            s.lemma_filter_contains_rev(pred, x);
            let k = choose|k: int| 0 <= k < s.filter(pred).len() && s.filter(pred)[k] == x;
            s.lemma_filter_pred(pred, k);
        }
        if s.contains(x) && pred(x) {
            let k = choose|k: int| 0 <= k < s.len() && s[k] == x;
            s.lemma_filter_contains(pred, k);
        }
    }
}

/// Filters that agree on every entry of a list keep the same of it.
pub proof fn lemma_filter_agrees(
    s: Seq<usize>,
    p: spec_fn(usize) -> bool,
    q: spec_fn(usize) -> bool,
)
    requires
        forall|k: int| 0 <= k < s.len() ==> p(#[trigger] s[k]) == q(s[k]),
    ensures
        s.filter(p) == s.filter(q),
    decreases s.len(),
{
    reveal(Seq::filter);
    if s.len() > 0 {
        let rest = s.drop_last();
        assert forall|k: int| 0 <= k < rest.len() implies p(#[trigger] rest[k]) == q(rest[k]) by {
            assert(rest[k] == s[k]);
        }
        lemma_filter_agrees(rest, p, q);
        assert(p(s[s.len() - 1]) == q(s[s.len() - 1]));
    }
}

} // verus!
