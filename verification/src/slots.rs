//! The arithmetic of slot indices that the allocators share: which indices
//! are in use, given how many were ever handed out fresh and which of those
//! came back.

use vstd::prelude::*;

verus! {

/// Every entry of `s` is below `bound`.
pub open spec fn all_below(s: Seq<usize>, bound: int) -> bool {
    forall|k: int| 0 <= k < s.len() ==> (#[trigger] s[k]) < bound
}

/// The indices in use: those below `end` that are not among `returned`.
pub open spec fn slots_in_use(end: usize, returned: Seq<usize>) -> Set<usize> {
    Set::new(|i: usize| i < end && !returned.contains(i))
}

/// Distinct slot indices below `bound` are at most `bound` many.
pub proof fn lemma_distinct_below_len(s: Seq<usize>, bound: int)
    requires
        s.no_duplicates(),
        all_below(s, bound),
        0 <= bound,
    ensures
        s.len() <= bound,
    decreases bound,
{
    if s.len() == 0 {
    } else if bound == 0 {
        assert(s[0] < bound);
    } else {
        let top: int = bound - 1;
        if exists|k: int| 0 <= k < s.len() && s[k] == top {
            let k = choose|k: int| 0 <= k < s.len() && s[k] == top;
            let rest = s.remove(k);
            assert forall|a: int, b: int| 0 <= a < rest.len() && 0 <= b < rest.len() && a != b
                implies rest[a] != rest[b] by {
                let a0 = if a < k { a } else { a + 1 };
                let b0 = if b < k { b } else { b + 1 };
                assert(rest[a] == s[a0]);
                assert(rest[b] == s[b0]);
            }
            assert forall|a: int| 0 <= a < rest.len() implies (#[trigger] rest[a]) < top by {
                let a0 = if a < k { a } else { a + 1 };
                assert(rest[a] == s[a0]);
                assert(s[a0] < bound);
                assert(s[a0] != s[k]);
            }
            lemma_distinct_below_len(rest, top);
        } else {
            assert forall|a: int| 0 <= a < s.len() implies (#[trigger] s[a]) < top by {
                assert(s[a] < bound);
            }
            lemma_distinct_below_len(s, top);
        }
    }
}

/// Taking the entry at `pos` out of the returned indices puts it in use, and
/// nothing else changes.
pub proof fn lemma_reuse_returned(end: usize, returned: Seq<usize>, pos: int)
    requires
        returned.no_duplicates(),
        all_below(returned, end as int),
        0 <= pos < returned.len(),
    ensures
        returned.remove(pos).no_duplicates(),
        all_below(returned.remove(pos), end as int),
        !slots_in_use(end, returned).contains(returned[pos]),
        slots_in_use(end, returned.remove(pos)) =~= slots_in_use(end, returned).insert(
            returned[pos],
        ),
{
    let rest = returned.remove(pos);
    let i = returned[pos];
    assert forall|a: int| 0 <= a < rest.len() implies #[trigger] rest[a] == returned[if a < pos {
        a
    } else {
        a + 1
    }] by {}
    assert(returned.contains(i));
    assert forall|j: usize| slots_in_use(end, rest).contains(j) == slots_in_use(
        end,
        returned,
    ).insert(i).contains(j) by {
        if j == i {
            if rest.contains(i) {
                let k = choose|k: int| 0 <= k < rest.len() && rest[k] == i;
                let k0 = if k < pos { k } else { k + 1 };
                assert(returned[k0] == i);
            }
            assert(i < end);
        } else {
            if returned.contains(j) {
                let k = choose|k: int| 0 <= k < returned.len() && returned[k] == j;
                let k1 = if k < pos { k } else { k - 1 };
                assert(rest[k1] == j);
            }
            if rest.contains(j) {
                let k = choose|k: int| 0 <= k < rest.len() && rest[k] == j;
                let k0 = if k < pos { k } else { k + 1 };
                assert(returned[k0] == j);
            }
        }
    }
}

/// Handing out the index `end` fresh puts it in use, and nothing else changes.
pub proof fn lemma_use_fresh(end: usize, returned: Seq<usize>)
    requires
        all_below(returned, end as int),
        end < usize::MAX,
    ensures
        all_below(returned, end + 1),
        !slots_in_use(end, returned).contains(end),
        slots_in_use((end + 1) as usize, returned) =~= slots_in_use(end, returned).insert(end),
{
    assert forall|j: usize| slots_in_use((end + 1) as usize, returned).contains(j)
        == slots_in_use(end, returned).insert(end).contains(j) by {
        if j == end && returned.contains(j) {
            let k = choose|k: int| 0 <= k < returned.len() && returned[k] == j;
            assert(returned[k] < end);
        }
    }
}

/// Putting an index in use among the returned ones, at any place, takes it
/// out of use, and nothing else changes.
pub proof fn lemma_give_back(end: usize, returned: Seq<usize>, pos: int, i: usize)
    requires
        returned.no_duplicates(),
        all_below(returned, end as int),
        slots_in_use(end, returned).contains(i),
        0 <= pos <= returned.len(),
    ensures
        returned.insert(pos, i).no_duplicates(),
        all_below(returned.insert(pos, i), end as int),
        slots_in_use(end, returned.insert(pos, i)) =~= slots_in_use(end, returned).remove(i),
        returned.len() < end,
{
    let more = returned.insert(pos, i);
    assert forall|a: int| 0 <= a < more.len() implies #[trigger] more[a] == (if a < pos {
        returned[a]
    } else if a == pos {
        i
    } else {
        returned[a - 1]
    }) by {}
    assert forall|a: int, b: int| 0 <= a < more.len() && 0 <= b < more.len() && a != b implies more[a]
        != more[b] by {
        if a != pos && b != pos {
            let a0 = if a < pos { a } else { a - 1 };
            let b0 = if b < pos { b } else { b - 1 };
            assert(more[a] == returned[a0]);
            assert(more[b] == returned[b0]);
        } else if a == pos {
            let b0 = if b < pos { b } else { b - 1 };
            assert(more[b] == returned[b0]);
            assert(returned.contains(returned[b0]));
        } else {
            let a0 = if a < pos { a } else { a - 1 };
            assert(more[a] == returned[a0]);
            assert(returned.contains(returned[a0]));
        }
    }
    assert forall|a: int| 0 <= a < more.len() implies (#[trigger] more[a]) < end by {
        if a != pos {
            let a0 = if a < pos { a } else { a - 1 };
            assert(more[a] == returned[a0]);
        }
    }
    assert forall|j: usize| slots_in_use(end, more).contains(j) == slots_in_use(
        end,
        returned,
    ).remove(i).contains(j) by {
        if j == i {
            assert(more[pos] == i);
        } else {
            if returned.contains(j) {
                let k = choose|k: int| 0 <= k < returned.len() && returned[k] == j;
                let k1 = if k < pos { k } else { k + 1 };
                assert(more[k1] == j);
            }
            if more.contains(j) {
                let k = choose|k: int| 0 <= k < more.len() && more[k] == j;
                let k0 = if k < pos { k } else { k - 1 };
                assert(returned[k0] == j);
            }
        }
    }
    lemma_distinct_below_len(more, end as int);
}

/// Whether `i` is among the returned indices: the search that tells a
/// returned index from one in use.
pub fn holds_index(returned: &Vec<usize>, i: usize) -> (found: bool)
    ensures
        found == returned@.contains(i),
{
    let mut k: usize = 0;
    while k < returned.len()
        invariant
            k <= returned@.len(),
            forall|m: int| 0 <= m < k ==> returned@[m] != i,
        decreases returned@.len() - k,
    {
        if returned[k] == i {
            return true;
        }
        k += 1;
    }
    false
}

} // verus!
