//! Which outcomes are merged, which of them stands for the others, and what the tree
//! keeps.
use vstd::prelude::*;

use crate::card_abstraction::{
    cards_below, counted, descending, goes_before, group_ok, groups_ok, no_outcomes, positions_of,
    representative, street_stats, AbstractionError, CardAbstractionSpec,
    ChanceGrouping, StatsAccumulator, StreetAccumulator, StreetChanceStats,
};
use crate::card_rebuild::{copied, groups_needed};
use crate::domain::Street;
use crate::laws::board::board_size;
use crate::laws::configs::equal_states;
use crate::laws::picks::{lemma_pick, picks};
use crate::tree::{ChanceOutcome, GameTree, TreeNode};

verus! {

pub open spec fn in_bucket(buckets: Seq<usize>, bucket: usize) -> spec_fn(int) -> bool {
    |i: int| buckets[i] == bucket
}

/// The members of a bucket are the positions that have it, all of them, in order.
pub proof fn lemma_members_of_a_bucket(buckets: Seq<usize>, bucket: usize, count: int) -> (origin:
    Seq<int>)
    requires
        0 <= count <= buckets.len() <= usize::MAX,
    ensures
        picks(origin, count, in_bucket(buckets, bucket)),
        positions_of(buckets, bucket, count).len() == origin.len(),
        forall|k: int|
            0 <= k < origin.len() ==> #[trigger] positions_of(buckets, bucket, count)[k]
                == origin[k],
    decreases count,
{
    if count == 0 {
        Seq::empty()
    } else {
        let shorter = lemma_members_of_a_bucket(buckets, bucket, count - 1);
        let origin = lemma_pick(shorter, count - 1, in_bucket(buckets, bucket));
        assert forall|k: int| 0 <= k < origin.len() implies #[trigger] positions_of(
            buckets,
            bucket,
            count,
        )[k] == origin[k] by {
            if k < shorter.len() {
                assert(positions_of(buckets, bucket, count - 1)[k] == shorter[k]);
            }
        }
        origin
    }
}

/// Two outcomes lie in one group exactly where they have one bucket, and the groups
/// come in the order of their first outcomes.
pub proof fn lemma_groups_by_bucket(
    groups: Seq<ChanceGrouping>,
    outcomes: Seq<ChanceOutcome>,
    buckets: Seq<usize>,
    g: int,
    h: int,
    i: usize,
)
    requires
        groups_ok(groups, outcomes, buckets, buckets.len() as int),
        buckets.len() <= usize::MAX,
        0 <= g < groups.len(),
        0 <= h < groups.len(),
        i < buckets.len(),
    ensures
        groups[g].members@.contains(i) <==> buckets[i as int] == groups[g].bucket,
        g < h ==> groups[g].members@[0] < groups[h].members@[0] && groups[g].bucket
            != groups[h].bucket,
        groups[g].members@.contains(groups[g].rep_index),
        exists|k: int| 0 <= k < groups.len() && (#[trigger] groups[k]).members@.contains(i),
{
    assert(group_ok(groups[g], outcomes, buckets, buckets.len() as int));
    lemma_contains(groups[g], outcomes, buckets, i);
    lemma_representative_among(outcomes, groups[g].members@, groups[g].members@.len() as int);
    let bucket = buckets[i as int];
    assert(crate::card_abstraction::has_group(groups, bucket));
    let k = choose|k: int| 0 <= k < groups.len() && (#[trigger] groups[k]).bucket == bucket;
    assert(group_ok(groups[k], outcomes, buckets, buckets.len() as int));
    lemma_contains(groups[k], outcomes, buckets, i);
}

proof fn lemma_contains(
    group: ChanceGrouping,
    outcomes: Seq<ChanceOutcome>,
    buckets: Seq<usize>,
    i: usize,
)
    requires
        group_ok(group, outcomes, buckets, buckets.len() as int),
        i < buckets.len() <= usize::MAX,
    ensures
        group.members@.contains(i) <==> buckets[i as int] == group.bucket,
{
    let keep = in_bucket(buckets, group.bucket);
    let origin = lemma_members_of_a_bucket(buckets, group.bucket, buckets.len() as int);
    let members = positions_of(buckets, group.bucket, buckets.len() as int);
    if members.contains(i) {
        let k = choose|k: int| 0 <= k < members.len() && members[k] == i;
        assert(members[k] == origin[k]);
        assert(keep(origin[k]));
    }
    if buckets[i as int] == group.bucket {
        assert(keep(i as int));
        let k = choose|k: int| 0 <= k < origin.len() && origin[k] == i;
        assert(members[k] == origin[k]);
    }
}

proof fn lemma_representative_among(outcomes: Seq<ChanceOutcome>, members: Seq<usize>, count: int)
    requires
        0 < count <= members.len(),
    ensures
        members.contains(representative(outcomes, members, count)),
    decreases count,
{
    if count > 1 {
        lemma_representative_among(outcomes, members, count - 1);
    }
}

/// Card lists are compared card by card; the first difference decides, and the shorter
/// comes first where there is none.
pub proof fn lemma_card_lists_are_ordered(left: Seq<u8>, right: Seq<u8>, at: int)
    requires
        0 <= at <= left.len(),
        at <= right.len(),
        forall|i: int| 0 <= i < at ==> left[i] == right[i],
        at < left.len() && at < right.len() ==> left[at] != right[at],
    ensures
        at < left.len() && at < right.len() ==> (cards_below(left, right) <==> left[at]
            < right[at]),
        at == left.len() ==> (cards_below(left, right) <==> at < right.len()),
        at == right.len() ==> !cards_below(left, right),
    decreases at,
{
    if at > 0 {
        let l = left.skip(1);
        let r = right.skip(1);
        assert(left[0] == right[0]);
        assert forall|i: int| 0 <= i < at - 1 implies l[i] == r[i] by {
            assert(left[i + 1] == right[i + 1]);
        }
        lemma_card_lists_are_ordered(l, r, at - 1);
    }
}

/// Of two outcomes the one goes before whose highest cards are lower.
pub proof fn lemma_lower_outcomes_go_before(
    outcomes: Seq<ChanceOutcome>,
    left: int,
    right: int,
    at: int,
)
    requires
        ({
            let a = descending(outcomes[left].cards@);
            let b = descending(outcomes[right].cards@);
            &&& 0 <= at < a.len()
            &&& at < b.len()
            &&& forall|i: int| 0 <= i < at ==> a[i] == b[i]
            &&& a[at] != b[at]
        }),
    ensures
        goes_before(outcomes, left, right) <==> descending(outcomes[left].cards@)[at] < descending(
            outcomes[right].cards@,
        )[at],
{
    lemma_card_lists_are_ordered(
        descending(outcomes[left].cards@),
        descending(outcomes[right].cards@),
        at,
    );
}

/// One more chance node counts one node, the outcomes it had and those it keeps.
pub proof fn lemma_counted_nodes(acc: StreetAccumulator, before: nat, after: nat)
    requires
        crate::card_abstraction::countable(acc, before, after),
    ensures
        counted(acc, before, after).nodes == acc.nodes + 1,
        counted(acc, before, after).outcomes_before == acc.outcomes_before + before,
        counted(acc, before, after).outcomes_after == acc.outcomes_after + after,
        no_outcomes().nodes == 0,
        no_outcomes().outcomes_before == 0,
        no_outcomes().outcomes_after == 0,
{
}

/// A street is reported exactly where it has chance nodes, with its own counts.
pub proof fn lemma_reported_streets(street: Street, acc: StreetAccumulator)
    ensures
        street_stats(street, acc).len() == if acc.nodes > 0 {
            1nat
        } else {
            0
        },
        acc.nodes > 0 ==> {
            let entry = street_stats(street, acc)[0];
            &&& entry.street == street
            &&& entry.nodes == acc.nodes
            &&& entry.outcomes_before == acc.outcomes_before
            &&& entry.outcomes_after == acc.outcomes_after
        },
{
}

/// Counts are kept street by street and reported in the order of the streets.
pub proof fn lemma_streets_in_order(
    stats: StatsAccumulator,
    streets: Vec<StreetChanceStats>,
    i: int,
    j: int,
)
    requires
        call_ensures(StatsAccumulator::into_per_street, (stats,), streets),
        0 <= i < j < streets@.len(),
    ensures
        stats.of(Street::Flop) == stats.flop,
        stats.of(Street::Turn) == stats.turn,
        stats.of(Street::River) == stats.river,
        board_size(streets@[i].street) < board_size(streets@[j].street),
        board_size(streets@[i].street) >= 3,
        streets@[i].nodes == stats.of(streets@[i].street).nodes,
        streets@[i].outcomes_before == stats.of(streets@[i].street).outcomes_before,
        streets@[i].outcomes_after == stats.of(streets@[i].street).outcomes_after,
        streets@[j].nodes == stats.of(streets@[j].street).nodes,
        streets@[j].outcomes_before == stats.of(streets@[j].street).outcomes_before,
        streets@[j].outcomes_after == stats.of(streets@[j].street).outcomes_after,
{
}

/// Only groups by equity can be too few: they need two.
pub proof fn lemma_enough_groups(
    spec: CardAbstractionSpec,
    result: Result<(), AbstractionError>,
)
    requires
        call_ensures(CardAbstractionSpec::check, (&spec,), result),
    ensures
        result is Ok <==> spec.mode is Structure || spec.equity_groups >= 2,
        result matches Err(error) ==> error == (AbstractionError::TooFewEquityGroups {
            groups: spec.equity_groups,
        }),
{
}

/// A merged tree keeps of each node the action that leads to it, its state and its
/// leaf mark; where cards come, one outcome stays for each group, with the cards and
/// the child of the group's representative, and a single outcome stays as it is.
pub proof fn lemma_merged_nodes(
    node: TreeNode,
    origin: TreeNode,
    plan: Seq<usize>,
    groups: Option<Vec<ChanceGrouping>>,
)
    requires
        copied(node, origin, plan, groups),
    ensures
        node.action_from_parent == origin.action_from_parent,
        equal_states(node.state, origin.state),
        node.chance is Some <==> origin.chance is Some,
        origin.chance is None ==> node.leaf == origin.leaf && plan == origin.children@,
        origin.chance matches Some(chance) ==> {
            let kept = node.chance->Some_0;
            &&& kept.next_street == chance.next_street
            &&& chance.outcomes@.len() == 1 ==> {
                &&& kept.outcomes@.len() == 1
                &&& kept.outcomes@[0].cards@ == chance.outcomes@[0].cards@
                &&& kept.outcomes@[0].probability == chance.outcomes@[0].probability
                &&& plan == origin.children@
            }
            &&& chance.outcomes@.len() != 1 ==> {
                &&& groups is Some
                &&& kept.outcomes@.len() == groups->Some_0@.len()
                &&& plan.len() == groups->Some_0@.len()
                &&& forall|k: int|
                    0 <= k < plan.len() ==> {
                        let stays = groups->Some_0@[k].rep_index as int;
                        #[trigger] plan[k] == origin.children@[stays] && kept.outcomes@[k].cards@
                            == chance.outcomes@[stays].cards@
                    }
            }
        },
{
    if origin.chance is Some {
        let kept = node.chance->Some_0.outcomes@;
        let given = origin.chance->Some_0.outcomes@;
        if given.len() == 1 {
            assert(kept[0].same(given[0]));
        } else {
            let list = groups->Some_0@;
            assert forall|k: int| 0 <= k < plan.len() implies {
                let stays = list[k].rep_index as int;
                #[trigger] plan[k] == origin.children@[stays] && kept[k].cards@
                    == given[stays].cards@
            } by {
                assert(kept[k].cards@ == given[list[k].rep_index as int].cards@);
            }
        }
    }
}

/// Groups are needed exactly where cards come in more than one way; no cards can come
/// before the flop.
pub proof fn lemma_nodes_that_need_groups(source: GameTree, node: usize)
    ensures
        groups_needed(source, node) == Ok::<bool, AbstractionError>(true) <==> {
            &&& node < source.nodes@.len()
            &&& source.nodes@[node as int].chance is Some
            &&& source.nodes@[node as int].chance->Some_0.next_street != Street::Preflop
            &&& source.nodes@[node as int].chance->Some_0.outcomes@.len() != 1
        },
        groups_needed(source, node) == Err::<bool, AbstractionError>(
            AbstractionError::UnknownNode { node },
        ) <==> node >= source.nodes@.len(),
        groups_needed(source, node) == Err::<bool, AbstractionError>(
            AbstractionError::LeadsToPreflop { node },
        ) <==> node < source.nodes@.len() && source.nodes@[node as int].chance is Some
            && source.nodes@[node as int].chance->Some_0.next_street == Street::Preflop,
{
}

} // verus!
