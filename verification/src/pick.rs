//! Positions picked from a range: all those that a property holds of, or
//! the first of them.

use vstd::prelude::*;

verus! {

/// The positions below `n` that `keep` holds of, in rising order.
pub open spec fn picked(n: int, keep: spec_fn(int) -> bool) -> Seq<int>
    decreases n,
{
    if n <= 0 {
        Seq::empty()
    } else if keep(n - 1) {
        picked(n - 1, keep).push(n - 1)
    } else {
        picked(n - 1, keep)
    }
}

/// `picked` lists, in rising order, exactly the positions below `n` that
/// `keep` holds of.
pub proof fn lemma_picked(n: int, keep: spec_fn(int) -> bool)
    ensures
        picked(n, keep).len() <= n || n < 0,
        forall|k: int|
            0 <= k < picked(n, keep).len() ==> 0 <= (#[trigger] picked(n, keep)[k]) < n && keep(
                picked(n, keep)[k],
            ),
        forall|k: int, l: int|
            0 <= k < l < picked(n, keep).len() ==> (#[trigger] picked(n, keep)[k]) < (
            #[trigger] picked(n, keep)[l]),
        forall|i: int| 0 <= i < n && keep(i) ==> picked(n, keep).contains(i),
    decreases n,
{
    if n > 0 {
        lemma_picked(n - 1, keep);
        let before = picked(n - 1, keep);
        let all = picked(n, keep);
        assert forall|i: int| 0 <= i < n && keep(i) implies all.contains(i) by {
            if i < n - 1 {
                assert(before.contains(i));
                let k = choose|k: int| 0 <= k < before.len() && before[k] == i;
                assert(all[k] == i);
            } else {
                assert(all[all.len() - 1] == i);
            }
        }
    }
}

/// The first position from `from` on and below `n` that `holds` is true of,
/// or `n` if there is none.
pub open spec fn first_from(n: int, from: int, holds: spec_fn(int) -> bool) -> int
    decreases n - from,
{
    if from < 0 || from >= n {
        n
    } else if holds(from) {
        from
    } else {
        first_from(n, from + 1, holds)
    }
}

/// `first_from` finds the first position that `holds` is true of.
pub proof fn lemma_first_from(n: int, from: int, holds: spec_fn(int) -> bool)
    requires
        0 <= from <= n,
    ensures
        from <= first_from(n, from, holds) <= n,
        first_from(n, from, holds) < n ==> holds(first_from(n, from, holds)),
        forall|i: int| from <= i < first_from(n, from, holds) ==> !(#[trigger] holds(i)),
    decreases n - from,
{
    if from < n && !holds(from) {
        lemma_first_from(n, from + 1, holds);
    }
}

} // verus!
