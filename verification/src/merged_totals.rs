//! What merging does to the total probability of a chance node.
//!
//! A measure gives each probability a whole number, such as its multiple of the
//! smallest one. Where merged probabilities are the exact sums of their members',
//! the total stays what it was; rounding is outside.
use vstd::prelude::*;

use crate::card_abstraction::{group_ok, groups_ok, has_group, positions_of, ChanceGrouping};
use crate::card_rebuild::{are_groups, TreeRebuild};
use crate::tree::{ChanceOutcome, GameTree};

verus! {

/// A whole number for each probability.
pub type Measure = spec_fn(u64) -> int;

/// The measures of the first `count` outcomes together.
pub open spec fn total(outcomes: Seq<ChanceOutcome>, measure: Measure, count: int) -> int
    decreases count,
{
    if count <= 0 {
        0
    } else {
        total(outcomes, measure, count - 1) + measure(outcomes[count - 1].probability)
    }
}

/// The measures of the first `count` listed outcomes together.
pub open spec fn members_total(
    outcomes: Seq<ChanceOutcome>,
    members: Seq<usize>,
    measure: Measure,
    count: int,
) -> int
    decreases count,
{
    if count <= 0 {
        0
    } else {
        members_total(outcomes, members, measure, count - 1) + measure(
            outcomes[members[count - 1] as int].probability,
        )
    }
}

/// The probability of each merged outcome measures what its members measure
/// together.
pub open spec fn sums_exactly(
    merged: Seq<ChanceOutcome>,
    outcomes: Seq<ChanceOutcome>,
    groups: Seq<ChanceGrouping>,
    measure: Measure,
) -> bool {
    &&& merged.len() == groups.len()
    &&& forall|g: int|
        0 <= g < groups.len() ==> measure((#[trigger] merged[g]).probability) == members_total(
            outcomes,
            groups[g].members@,
            measure,
            groups[g].members@.len() as int,
        )
}

/// The measures of the first `count` outcomes of a bucket together.
spec fn bucket_total(
    outcomes: Seq<ChanceOutcome>,
    buckets: Seq<usize>,
    bucket: usize,
    measure: Measure,
    count: int,
) -> int
    decreases count,
{
    if count <= 0 {
        0
    } else {
        bucket_total(outcomes, buckets, bucket, measure, count - 1) + if buckets[count - 1]
            == bucket {
            measure(outcomes[count - 1].probability)
        } else {
            0
        }
    }
}

/// The same over the buckets of the first groups.
spec fn groups_total(
    groups: Seq<ChanceGrouping>,
    outcomes: Seq<ChanceOutcome>,
    buckets: Seq<usize>,
    measure: Measure,
    count: int,
    until: int,
) -> int
    decreases until,
{
    if until <= 0 {
        0
    } else {
        groups_total(groups, outcomes, buckets, measure, count, until - 1) + bucket_total(
            outcomes,
            buckets,
            groups[until - 1].bucket,
            measure,
            count,
        )
    }
}

proof fn lemma_push_member(
    outcomes: Seq<ChanceOutcome>,
    members: Seq<usize>,
    more: Seq<usize>,
    measure: Measure,
    count: int,
)
    requires
        0 <= count <= members.len() <= more.len(),
        forall|i: int| 0 <= i < members.len() ==> members[i] == more[i],
    ensures
        members_total(outcomes, members, measure, count) == members_total(
            outcomes,
            more,
            measure,
            count,
        ),
    decreases count,
{
    if count > 0 {
        lemma_push_member(outcomes, members, more, measure, count - 1);
    }
}

/// The positions of a bucket measure what the bucket measures.
proof fn lemma_positions_total(
    outcomes: Seq<ChanceOutcome>,
    buckets: Seq<usize>,
    bucket: usize,
    measure: Measure,
    count: int,
)
    requires
        0 <= count <= buckets.len() <= usize::MAX,
    ensures
        ({
            let members = positions_of(buckets, bucket, count);
            members_total(outcomes, members, measure, members.len() as int) == bucket_total(
                outcomes,
                buckets,
                bucket,
                measure,
                count,
            )
        }),
    decreases count,
{
    if count > 0 {
        lemma_positions_total(outcomes, buckets, bucket, measure, count - 1);
        let before = positions_of(buckets, bucket, count - 1);
        let now = positions_of(buckets, bucket, count);
        if buckets[count - 1] == bucket {
            lemma_push_member(outcomes, before, now, measure, before.len() as int);
            assert(now[now.len() - 1] == (count - 1) as usize);
        }
    }
}

/// One more outcome counts in the group of its bucket alone.
proof fn lemma_one_more(
    groups: Seq<ChanceGrouping>,
    outcomes: Seq<ChanceOutcome>,
    buckets: Seq<usize>,
    measure: Measure,
    count: int,
    home: int,
    until: int,
)
    requires
        0 < count <= buckets.len(),
        0 <= until <= groups.len(),
        0 <= home < groups.len(),
        groups[home].bucket == buckets[count - 1],
        forall|g: int, h: int|
            0 <= g < h < groups.len() ==> (#[trigger] groups[g]).bucket != (
            #[trigger] groups[h]).bucket,
    ensures
        groups_total(groups, outcomes, buckets, measure, count, until) == groups_total(
            groups,
            outcomes,
            buckets,
            measure,
            count - 1,
            until,
        ) + if home < until {
            measure(outcomes[count - 1].probability)
        } else {
            0
        },
    decreases until,
{
    if until > 0 {
        lemma_one_more(groups, outcomes, buckets, measure, count, home, until - 1);
        let last = until - 1;
        if last < home {
            assert(groups[last].bucket != groups[home].bucket);
        }
        if home < last {
            assert(groups[home].bucket != groups[last].bucket);
        }
    }
}

proof fn lemma_groups_total(
    groups: Seq<ChanceGrouping>,
    outcomes: Seq<ChanceOutcome>,
    buckets: Seq<usize>,
    measure: Measure,
    count: int,
)
    requires
        0 <= count <= buckets.len(),
        forall|g: int, h: int|
            0 <= g < h < groups.len() ==> (#[trigger] groups[g]).bucket != (
            #[trigger] groups[h]).bucket,
        forall|i: int| 0 <= i < buckets.len() ==> has_group(groups, #[trigger] buckets[i]),
    ensures
        groups_total(groups, outcomes, buckets, measure, count, groups.len() as int) == total(
            outcomes,
            measure,
            count,
        ),
    decreases count,
{
    if count == 0 {
        lemma_nothing_yet(groups, outcomes, buckets, measure, groups.len() as int);
    } else {
        lemma_groups_total(groups, outcomes, buckets, measure, count - 1);
        assert(has_group(groups, buckets[count - 1]));
        let home = choose|g: int|
            0 <= g < groups.len() && (#[trigger] groups[g]).bucket == buckets[count - 1];
        lemma_one_more(
            groups,
            outcomes,
            buckets,
            measure,
            count,
            home,
            groups.len() as int,
        );
    }
}

proof fn lemma_nothing_yet(
    groups: Seq<ChanceGrouping>,
    outcomes: Seq<ChanceOutcome>,
    buckets: Seq<usize>,
    measure: Measure,
    until: int,
)
    requires
        0 <= until <= groups.len(),
    ensures
        groups_total(groups, outcomes, buckets, measure, 0, until) == 0,
    decreases until,
{
    if until > 0 {
        lemma_nothing_yet(groups, outcomes, buckets, measure, until - 1);
    }
}

proof fn lemma_merged_total(
    merged: Seq<ChanceOutcome>,
    outcomes: Seq<ChanceOutcome>,
    groups: Seq<ChanceGrouping>,
    buckets: Seq<usize>,
    measure: Measure,
    until: int,
)
    requires
        buckets.len() == outcomes.len() <= usize::MAX,
        groups_ok(groups, outcomes, buckets, buckets.len() as int),
        sums_exactly(merged, outcomes, groups, measure),
        0 <= until <= groups.len(),
    ensures
        total(merged, measure, until) == groups_total(
            groups,
            outcomes,
            buckets,
            measure,
            buckets.len() as int,
            until,
        ),
    decreases until,
{
    if until > 0 {
        lemma_merged_total(merged, outcomes, groups, buckets, measure, until - 1);
        let group = groups[until - 1];
        assert(group_ok(group, outcomes, buckets, buckets.len() as int));
        assert(measure(merged[until - 1].probability) == members_total(
            outcomes,
            group.members@,
            measure,
            group.members@.len() as int,
        ));
        lemma_positions_total(
            outcomes,
            buckets,
            group.bucket,
            measure,
            buckets.len() as int,
        );
    }
}

/// Merging outcomes by groups whose probabilities add up exactly keeps the total.
pub proof fn lemma_merging_keeps_the_total(
    merged: Seq<ChanceOutcome>,
    outcomes: Seq<ChanceOutcome>,
    groups: Seq<ChanceGrouping>,
    measure: Measure,
)
    requires
        outcomes.len() <= usize::MAX,
        are_groups(groups, outcomes),
        sums_exactly(merged, outcomes, groups, measure),
    ensures
        total(merged, measure, merged.len() as int) == total(
            outcomes,
            measure,
            outcomes.len() as int,
        ),
{
    let buckets = choose|buckets: Seq<usize>|
        buckets.len() == outcomes.len() && #[trigger] groups_ok(
            groups,
            outcomes,
            buckets,
            buckets.len() as int,
        );
    lemma_merged_total(merged, outcomes, groups, buckets, measure, groups.len() as int);
    lemma_groups_total(groups, outcomes, buckets, measure, buckets.len() as int);
}

proof fn lemma_same_total(
    left: Seq<ChanceOutcome>,
    right: Seq<ChanceOutcome>,
    measure: Measure,
    count: int,
)
    requires
        0 <= count <= left.len() == right.len(),
        forall|i: int| 0 <= i < left.len() ==> (#[trigger] left[i]).same(right[i]),
    ensures
        total(left, measure, count) == total(right, measure, count),
    decreases count,
{
    if count > 0 {
        lemma_same_total(left, right, measure, count - 1);
        assert(left[count - 1].same(right[count - 1]));
    }
}

/// Each chance node of a rebuilt tree has the total probability of the node that it
/// comes from, as far as merged probabilities are exact sums.
pub proof fn lemma_rebuilt_nodes_keep_their_totals(
    rebuild: TreeRebuild,
    source: GameTree,
    measure: Measure,
    i: int,
)
    requires
        rebuild.wf(source),
        0 <= i < rebuild.nodes@.len(),
        rebuild.nodes@[i].chance is Some,
        rebuild.groups@[i] matches Some(groups) ==> sums_exactly(
            rebuild.nodes@[i].chance->0.outcomes@,
            source.nodes@[rebuild.origins@[i] as int].chance->0.outcomes@,
            groups@,
            measure,
        ),
    ensures
        ({
            let made = rebuild.nodes@[i].chance->0.outcomes@;
            let origin = source.nodes@[rebuild.origins@[i] as int];
            &&& origin.chance is Some
            &&& total(made, measure, made.len() as int) == total(
                origin.chance->0.outcomes@,
                measure,
                origin.chance->0.outcomes@.len() as int,
            )
        }),
{
    assert(rebuild.placed_ok(source, i));
    let made = rebuild.nodes@[i].chance->0.outcomes@;
    let origin = source.nodes@[rebuild.origins@[i] as int];
    let outcomes = origin.chance->0.outcomes@;
    assert(origin.chance->0.outcomes.len() == outcomes.len());
    if outcomes.len() == 1 {
        lemma_same_total(made, outcomes, measure, made.len() as int);
    } else {
        lemma_merging_keeps_the_total(made, outcomes, rebuild.groups@[i]->0@, measure);
    }
}

} // verus!
