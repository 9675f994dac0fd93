//! Which of a row of things are picked out, in their order.
use vstd::prelude::*;

verus! {

/// `origin` names the things below `count` that are kept: all of them, and in their
/// order.
pub open spec fn picks(origin: Seq<int>, count: int, keep: spec_fn(int) -> bool) -> bool {
    &&& forall|j: int, k: int| 0 <= j < k < origin.len() ==> origin[j] < origin[k]
    &&& forall|k: int|
        0 <= k < origin.len() ==> 0 <= #[trigger] origin[k] < count && keep(origin[k])
    &&& forall|i: int| 0 <= i < count && #[trigger] keep(i) ==> origin.contains(i)
}

/// One more thing, kept or not.
pub proof fn lemma_pick(origin: Seq<int>, count: int, keep: spec_fn(int) -> bool) -> (longer: Seq<
    int,
>)
    requires
        picks(origin, count, keep),
        count >= 0,
    ensures
        picks(longer, count + 1, keep),
        longer == if keep(count) {
            origin.push(count)
        } else {
            origin
        },
{
    if keep(count) {
        let longer = origin.push(count);
        assert forall|i: int| 0 <= i < count + 1 && #[trigger] keep(i) implies longer.contains(
            i,
        ) by {
            if i == count {
                assert(longer[origin.len() as int] == i);
            } else {
                let k = choose|k: int| 0 <= k < origin.len() && origin[k] == i;
                assert(longer[k] == i);
            }
        }
        longer
    } else {
        origin
    }
}

} // verus!
