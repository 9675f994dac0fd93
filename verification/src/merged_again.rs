//! Merging a merged tree once more.
//!
//! A merged tree is numbered as it was built, each outcome of a chance node stands
//! for a bucket of its own, so the same buckets merge nothing: the tree that comes
//! out has the words, and with them the fingerprint, of the tree that went in.
use vstd::prelude::*;

use crate::card_abstraction::{group_ok, groups_ok, positions_of, representative};
use crate::card_rebuild::{
    is_full, lemma_merging_is_idempotent, merged_outcomes, settled, TreeRebuild,
};
use crate::cards::Card;
use crate::chance::outcome_encoding;
use crate::domain::Street;
use crate::hash::concat_words;
use crate::tree::{same_outcomes, ChanceOutcome, GameTree, TreeNode};
use crate::tree_fingerprint::{chance_words, edge_words, node_encoding, node_words, tree_words};

verus! {

/// The bucket of an outcome: a function of the board before it, the street that it
/// leads to and its cards.
pub type BucketRule = spec_fn(Seq<Card>, Street, Seq<Card>) -> usize;

/// The buckets of the outcomes of a chance node.
pub open spec fn buckets_at(node: TreeNode, rule: BucketRule) -> Seq<usize> {
    let chance = node.chance->0;
    chance.outcomes@.map(
        |k: int, outcome: ChanceOutcome|
            rule(node.state.board@, chance.next_street, outcome.cards@),
    )
}

/// Every merged node was grouped by the rule.
pub open spec fn grouped_by(rebuild: TreeRebuild, source: GameTree, rule: BucketRule) -> bool {
    forall|i: int|
        0 <= i < rebuild.nodes@.len() && (#[trigger] rebuild.groups@[i]) is Some ==> {
            let node = source.nodes@[rebuild.origins@[i] as int];
            groups_ok(
                rebuild.groups@[i]->0@,
                node.chance->0.outcomes@,
                buckets_at(node, rule),
                node.chance->0.outcomes@.len() as int,
            )
        }
}

/// An outcome that was merged with no other keeps its probability.
pub open spec fn singles_kept(rebuild: TreeRebuild, source: GameTree) -> bool {
    forall|i: int, k: int|
        #![trigger rebuild.groups@[i]->0@[k]]
        0 <= i < rebuild.nodes@.len() && rebuild.groups@[i] is Some && 0 <= k
            < rebuild.groups@[i]->0@.len() && rebuild.groups@[i]->0@[k].members@.len() == 1 ==> {
            let only = rebuild.groups@[i]->0@[k].members@[0] as int;
            let origin = source.nodes@[rebuild.origins@[i] as int];
            rebuild.nodes@[i].chance->0.outcomes@[k].probability
                == origin.chance->0.outcomes@[only].probability
        }
}

/// The number of outcomes that the node placed last was counted with.
pub open spec fn outcomes_left(after: TreeRebuild) -> nat {
    match after.groups@.last() {
        Some(groups) => groups@.len(),
        None => 1,
    }
}

/// The states of a rebuild from its start to its end, one for each placed node.
pub open spec fn is_trace(trace: Seq<TreeRebuild>, source: GameTree) -> bool {
    &&& trace.len() > 0
    &&& trace[0].nodes@.len() == 0
    &&& trace[0].stats.flop.outcomes_before == 0
    &&& trace[0].stats.turn.outcomes_before == 0
    &&& trace[0].stats.river.outcomes_before == 0
    &&& forall|k: int| 0 <= k < trace.len() ==> (#[trigger] trace[k]).wf(source)
    &&& forall|k: int| 0 <= k < trace.len() - 1 ==> #[trigger] is_step(trace, source, k)
    &&& trace.last().next(source) is None
}

/// Step `k` of a trace places one node.
pub open spec fn is_step(trace: Seq<TreeRebuild>, source: GameTree, k: int) -> bool {
    let next = trace[k].next(source);
    &&& next is Some
    &&& trace[k].placed(trace[k + 1], next->0)
    &&& trace[k].can_count(source, outcomes_left(trace[k + 1]))
    &&& trace[k].stats_after(trace[k + 1], source, outcomes_left(trace[k + 1]))
}

/// Node `i` was placed in the same way.
spec fn carried(before: TreeRebuild, after: TreeRebuild, i: int) -> bool {
    &&& before.plans@[i] == after.plans@[i]
    &&& before.origins@[i] == after.origins@[i]
    &&& before.groups@[i] == after.groups@[i]
}

/// What the nodes placed by step `k` have at a later step.
proof fn lemma_trace_grows(trace: Seq<TreeRebuild>, source: GameTree, k: int, later: int)
    requires
        is_trace(trace, source),
        0 <= k <= later < trace.len(),
    ensures
        trace[k].nodes@.len() == k,
        trace[later].nodes@.len() == later,
        forall|i: int|
            #![trigger trace[k].nodes@[i]]
            #![trigger trace[later].nodes@[i]]
            0 <= i < k ==> {
                let before = trace[k].nodes@[i];
                let after = trace[later].nodes@[i];
                &&& after.parent == before.parent
                &&& before.children@.len() <= after.children@.len()
                &&& before.children@ == after.children@.take(before.children@.len() as int)
            },
        forall|i: int| 0 <= i < k ==> #[trigger] carried(trace[k], trace[later], i),
    decreases later,
{
    if later == 0 {
    } else if k == later {
        assert(trace[k] == trace[later]);
        lemma_trace_grows(trace, source, k - 1, k - 1);
        assert(is_step(trace, source, k - 1));
        assert forall|i: int|
            #![trigger trace[k].nodes@[i]]
            0 <= i < k implies trace[k].nodes@[i].children@ == trace[k].nodes@[i].children@.take(
            trace[k].nodes@[i].children@.len() as int,
        ) by {
            assert(trace[k].nodes@[i].children@ =~= trace[k].nodes@[i].children@.take(
                trace[k].nodes@[i].children@.len() as int,
            ));
        }
    } else {
        lemma_trace_grows(trace, source, k, later - 1);
        assert(is_step(trace, source, later - 1));
        let middle = trace[later - 1];
        let last = trace[later];
        assert forall|i: int|
            #![trigger trace[k].nodes@[i]]
            #![trigger trace[later].nodes@[i]]
            0 <= i < k implies {
            let before = trace[k].nodes@[i];
            let after = trace[later].nodes@[i];
            &&& after.parent == before.parent
            &&& before.children@.len() <= after.children@.len()
            &&& before.children@ == after.children@.take(before.children@.len() as int)
        } by {
            let before = trace[k].nodes@[i];
            let between = middle.nodes@[i];
            let after = last.nodes@[i];
            assert(before.children@ == between.children@.take(before.children@.len() as int));
            assert(after.children@.take(before.children@.len() as int)
                =~= between.children@.take(before.children@.len() as int));
        }
        assert forall|i: int| 0 <= i < k implies #[trigger] carried(trace[k], trace[later], i) by {
            assert(carried(trace[k], middle, i));
            assert(last.plans@.drop_last()[i] == last.plans@[i]);
            assert(last.groups@.drop_last()[i] == last.groups@[i]);
        }
    }
}

/// Which open nodes are settled depends only on how many children the nodes have
/// and are to have.
proof fn lemma_same_settled(
    open: Seq<usize>,
    left: Seq<TreeNode>,
    left_plans: Seq<Vec<usize>>,
    right: Seq<TreeNode>,
    right_plans: Seq<Vec<usize>>,
)
    requires
        forall|j: int|
            0 <= j < open.len() ==> is_full(left, left_plans, #[trigger] open[j]) == is_full(
                right,
                right_plans,
                open[j],
            ),
    ensures
        settled(open, left, left_plans) == settled(open, right, right_plans),
    decreases open.len(),
{
    if open.len() > 0 {
        assert(open[open.len() - 1] == open.last());
        assert forall|j: int| 0 <= j < open.drop_last().len() implies is_full(
            left,
            left_plans,
            #[trigger] open.drop_last()[j],
        ) == is_full(right, right_plans, open.drop_last()[j]) by {
            assert(open[j] == open.drop_last()[j]);
        }
        lemma_same_settled(open.drop_last(), left, left_plans, right, right_plans);
    }
}

/// A group's outcome stands in its bucket.
proof fn lemma_positions_have_bucket(buckets: Seq<usize>, bucket: usize, count: int)
    requires
        0 <= count <= buckets.len() <= usize::MAX,
    ensures
        forall|k: int|
            0 <= k < positions_of(buckets, bucket, count).len() ==> {
                let at = #[trigger] positions_of(buckets, bucket, count)[k];
                at < count && buckets[at as int] == bucket
            },
    decreases count,
{
    if count > 0 {
        lemma_positions_have_bucket(buckets, bucket, count - 1);
        let before = positions_of(buckets, bucket, count - 1);
        let now = positions_of(buckets, bucket, count);
        assert forall|k: int| 0 <= k < now.len() implies {
            let at = #[trigger] now[k];
            at < count && buckets[at as int] == bucket
        } by {
            if k < before.len() {
                assert(now[k] == before[k]);
            }
        }
    }
}

proof fn lemma_representative_is_member(
    outcomes: Seq<ChanceOutcome>,
    members: Seq<usize>,
    count: int,
)
    requires
        members.len() > 0,
        count <= members.len(),
    ensures
        members.contains(representative(outcomes, members, count)),
    decreases count,
{
    if count <= 1 {
        assert(members[0] == representative(outcomes, members, count));
    } else {
        lemma_representative_is_member(outcomes, members, count - 1);
        assert(members.contains(members[count - 1]));
    }
}

/// Every placed node is the copy of a node of the source, and its outcomes have
/// the cards of outcomes that the source node had.
pub proof fn lemma_rebuilt_outcomes_come_from_the_source(
    rebuild: TreeRebuild,
    source: GameTree,
    i: int,
    k: int,
)
    requires
        rebuild.wf(source),
        0 <= i < rebuild.nodes@.len(),
        rebuild.nodes@[i].chance is Some,
        0 <= k < rebuild.nodes@[i].chance->0.outcomes@.len(),
    ensures
        ({
            let origin = source.nodes@[rebuild.origins@[i] as int];
            &&& origin.chance is Some
            &&& exists|j: int|
                0 <= j < origin.chance->0.outcomes@.len() && (
                #[trigger] origin.chance->0.outcomes@[j]).cards@
                    == rebuild.nodes@[i].chance->0.outcomes@[k].cards@
        }),
{
    assert(rebuild.placed_ok(source, i));
    let origin = source.nodes@[rebuild.origins@[i] as int];
    let outcomes = origin.chance->0.outcomes@;
    let made = rebuild.nodes@[i].chance->0.outcomes@;
    if outcomes.len() == 1 {
        assert(made[k].same(outcomes[k]));
    } else {
        let groups = rebuild.groups@[i]->0@;
        let buckets = choose|buckets: Seq<usize>|
            buckets.len() == outcomes.len() && #[trigger] groups_ok(
                groups,
                outcomes,
                buckets,
                buckets.len() as int,
            );
        assert(group_ok(groups[k], outcomes, buckets, buckets.len() as int));
        assert(made[k].cards@ == outcomes[groups[k].rep_index as int].cards@);
    }
}

/// What the second rebuild has after `k` nodes: the nodes of the first, as they were
/// after `k` nodes.
spec fn follows(first: TreeRebuild, second: TreeRebuild, tree: GameTree) -> bool {
    &&& second.nodes@.len() == first.nodes@.len()
    &&& second.open@ == first.open@
    &&& forall|i: int| 0 <= i < second.nodes@.len() ==> #[trigger] mirrors(first, second, tree, i)
}

/// Node `i` of the second rebuild stands for node `i` of the tree.
spec fn mirrors(first: TreeRebuild, second: TreeRebuild, tree: GameTree, i: int) -> bool {
    &&& second.origins@[i] == i
    &&& second.plans@[i]@ == tree.nodes@[i].children@
    &&& second.nodes@[i].children@ == first.nodes@[i].children@
    &&& second.nodes@[i].parent == first.nodes@[i].parent
}

/// In the finished tree every node has the children that were planned.
proof fn lemma_finished_is_full(rebuild: TreeRebuild, source: GameTree, i: int)
    requires
        rebuild.wf(source),
        rebuild.next(source) is None,
        0 <= i < rebuild.nodes@.len(),
    ensures
        rebuild.nodes@[i].children@.len() == rebuild.plans@[i]@.len(),
{
    assert(rebuild.placed_ok(source, i));
    assert(is_full(rebuild.nodes@, rebuild.plans@, i as usize));
}

/// Grouping a merged node of the first rebuild again gives each outcome a group of
/// its own, in order.
proof fn lemma_grouped_again(
    first: TreeRebuild,
    source: GameTree,
    tree: GameTree,
    second: TreeRebuild,
    rule: BucketRule,
    i: int,
)
    requires
        first.wf(source),
        tree.nodes == first.nodes,
        second.wf(tree),
        grouped_by(first, source, rule),
        grouped_by(second, tree, rule),
        0 <= i < second.nodes@.len() <= first.nodes@.len(),
        second.origins@[i] == i,
        second.groups@[i] is Some,
    ensures
        tree.nodes@[i].chance is Some,
        ({
            let again = second.groups@[i]->0@;
            &&& again.len() == tree.nodes@[i].chance->0.outcomes@.len()
            &&& forall|k: int|
                0 <= k < again.len() ==> (#[trigger] again[k]).members@ == seq![k as usize]
                    && again[k].rep_index == k
        }),
{
    assert(first.placed_ok(source, i));
    assert(second.placed_ok(tree, i));
    let node = tree.nodes@[i];
    let origin = source.nodes@[first.origins@[i] as int];
    assert(node.chance is Some);
    let merged = node.chance->0.outcomes@;
    let outcomes = origin.chance->0.outcomes@;
    assert(origin.chance is Some);
    assert(merged.len() != 1);
    if outcomes.len() == 1 {
        assert(merged.len() == 1);
    }
    let groups = first.groups@[i]->0@;
    let again = second.groups@[i]->0@;
    let buckets = buckets_at(origin, rule);
    let merged_buckets = buckets_at(node, rule);
    assert(first.groups@[i] is Some);
    assert(outcomes.len() <= usize::MAX) by {
        assert(origin.chance->0.outcomes.len() == outcomes.len());
    }
    assert forall|k: int| 0 <= k < groups.len() implies #[trigger] merged_buckets[k]
        == groups[k].bucket by {
        let group = groups[k];
        assert(group_ok(group, outcomes, buckets, outcomes.len() as int));
        lemma_representative_is_member(outcomes, group.members@, group.members@.len() as int);
        lemma_positions_have_bucket(buckets, group.bucket, outcomes.len() as int);
        let at = choose|at: int|
            0 <= at < group.members@.len() && group.members@[at] == group.rep_index;
        assert(buckets[group.members@[at] as int] == group.bucket);
        assert(merged[k].cards@ == outcomes[group.rep_index as int].cards@);
        assert(merged_buckets[k] == rule(
            node.state.board@,
            node.chance->0.next_street,
            merged[k].cards@,
        ));
    }
    lemma_merging_is_idempotent(groups, outcomes, buckets, merged, merged_buckets, again);
}

/// The plan of a node of the second rebuild: its children as they are.
proof fn lemma_plan_again(
    first: TreeRebuild,
    source: GameTree,
    tree: GameTree,
    second: TreeRebuild,
    rule: BucketRule,
    i: int,
)
    requires
        first.wf(source),
        first.next(source) is None,
        tree.nodes == first.nodes,
        second.wf(tree),
        grouped_by(first, source, rule),
        grouped_by(second, tree, rule),
        0 <= i < second.nodes@.len() <= first.nodes@.len(),
        second.origins@[i] == i,
    ensures
        second.plans@[i]@ == tree.nodes@[i].children@,
{
    assert(first.placed_ok(source, i));
    assert(second.placed_ok(tree, i));
    lemma_finished_is_full(first, source, i);
    if second.groups@[i] is Some {
        lemma_grouped_again(first, source, tree, second, rule, i);
        let again = second.groups@[i]->0@;
        let origin = source.nodes@[first.origins@[i] as int];
        assert(tree.nodes@[i].children@.len() == again.len());
        assert forall|k: int| 0 <= k < again.len() implies second.plans@[i]@[k]
            == tree.nodes@[i].children@[k] by {
            assert(again[k].rep_index == k);
        }
        assert(second.plans@[i]@ =~= tree.nodes@[i].children@);
    }
}

/// One step of the second rebuild follows one step of the first.
proof fn lemma_step_follows(
    first: Seq<TreeRebuild>,
    source: GameTree,
    tree: GameTree,
    second: Seq<TreeRebuild>,
    rule: BucketRule,
    k: int,
)
    requires
        is_trace(first, source),
        is_trace(second, tree),
        tree.root == 0,
        tree.nodes == first.last().nodes,
        grouped_by(first.last(), source, rule),
        grouped_by(second[k + 1], tree, rule),
        0 <= k < first.len() - 1,
        k < second.len() - 1,
        follows(first[k], second[k], tree),
    ensures
        second[k].next(tree) == Some(k as usize),
        follows(first[k + 1], second[k + 1], tree),
{
    let n = first.len() - 1;
    lemma_trace_grows(first, source, k, n);
    lemma_trace_grows(first, source, k + 1, n);
    lemma_trace_grows(second, tree, k, k + 1);
    assert(is_step(first, source, k));
    assert(is_step(second, tree, k));
    assert(first[k].wf(source) && first[k + 1].wf(source) && first[n].wf(source));
    assert(second[k].wf(tree) && second[k + 1].wf(tree));
    assert(first[k + 1].nodes@.len() <= usize::MAX);
    if k > 0 {
        let last = first[k].open@.last() as int;
        assert(first[k].open@[first[k].open@.len() - 1] == last);
        assert(last < k);
        let have = first[k].nodes@[last].children@.len() as int;
        assert(Some(last as usize) == first[k].waiting());
        assert(first[k + 1].nodes@[last].children@ == first[k].nodes@[last].children@.push(
            k as usize,
        ));
        let all = first[n].nodes@[last].children@;
        assert(first[k + 1].nodes@[last].children@ == all.take(have + 1));
        assert(all.take(have + 1)[have] == k as usize);
        assert(all[have] == k as usize);
        assert(mirrors(first[k], second[k], tree, last));
        assert(second[k].plans@[last]@[have] == k as usize);
    }
    assert(second[k].next(tree) == Some(k as usize));
    let after = second[k + 1];
    assert(after.origins@[k] == k);
    assert forall|i: int| 0 <= i < k + 1 implies #[trigger] mirrors(
        first[k + 1],
        after,
        tree,
        i,
    ) by {
        if i < k {
            assert(mirrors(first[k], second[k], tree, i));
            assert(after.origins@[i] == i);
        }
        lemma_plan_again(first[n], source, tree, after, rule, i);
        if i < k {
            assert(after.nodes@[i].parent == second[k].nodes@[i].parent);
            assert(first[k + 1].nodes@[i].parent == first[k].nodes@[i].parent);
        } else {
            assert(after.nodes@[i].children@ =~= first[k + 1].nodes@[i].children@);
        }
    }
    let open = first[k].open@.push(k as usize);
    assert forall|j: int| 0 <= j < open.len() implies is_full(
        first[k + 1].nodes@,
        first[k + 1].plans@,
        #[trigger] open[j],
    ) == is_full(after.nodes@, after.plans@, open[j]) by {
        let i = open[j] as int;
        assert(i < k + 1) by {
            if j < first[k].open@.len() {
                assert(first[k].open@[j] < first[k].nodes@.len());
            }
        }
        assert(mirrors(first[k + 1], after, tree, i));
        lemma_finished_is_full(first[n], source, i);
        assert(carried(first[k + 1], first[n], i));
    }
    lemma_same_settled(
        open,
        first[k + 1].nodes@,
        first[k + 1].plans@,
        after.nodes@,
        after.plans@,
    );
    assert(first[k + 1].open@ == settled(open, first[k + 1].nodes@, first[k + 1].plans@));
    assert(after.open@ == settled(open, after.nodes@, after.plans@));
    assert(after.nodes@.len() == first[k + 1].nodes@.len());
}

proof fn lemma_trace_follows(
    first: Seq<TreeRebuild>,
    source: GameTree,
    tree: GameTree,
    second: Seq<TreeRebuild>,
    rule: BucketRule,
    k: int,
)
    requires
        is_trace(first, source),
        is_trace(second, tree),
        tree.root == 0,
        tree.nodes == first.last().nodes,
        grouped_by(first.last(), source, rule),
        grouped_by(second.last(), tree, rule),
        0 <= k < first.len(),
    ensures
        k < second.len(),
        follows(first[k], second[k], tree),
    decreases k,
{
    if k == 0 {
        lemma_trace_grows(first, source, 0, 0);
        assert(first[0].wf(source) && second[0].wf(tree));
        assert(first[0].open@ =~= second[0].open@);
    } else {
        lemma_trace_follows(first, source, tree, second, rule, k - 1);
        assert(is_step(first, source, k - 1));
        if k >= second.len() {
            // The second rebuild would end while the first goes on.
            assert(second[k - 1] == second.last());
            lemma_trace_grows(first, source, k - 1, k - 1);
            assert(first[k - 1].wf(source));
        }
        lemma_grouped_earlier(second, tree, rule, k);
        lemma_step_follows(first, source, tree, second, rule, k - 1);
    }
}

proof fn lemma_grouped_earlier(
    trace: Seq<TreeRebuild>,
    source: GameTree,
    rule: BucketRule,
    k: int,
)
    requires
        is_trace(trace, source),
        grouped_by(trace.last(), source, rule),
        0 <= k < trace.len(),
    ensures
        grouped_by(trace[k], source, rule),
{
    let n = trace.len() - 1;
    lemma_trace_grows(trace, source, k, n);
    assert forall|i: int|
        0 <= i < trace[k].nodes@.len() && (#[trigger] trace[k].groups@[i]) is Some implies {
        let node = source.nodes@[trace[k].origins@[i] as int];
        groups_ok(
            trace[k].groups@[i]->0@,
            node.chance->0.outcomes@,
            buckets_at(node, rule),
            node.chance->0.outcomes@.len() as int,
        )
    } by {
        assert(carried(trace[k], trace[n], i));
        assert(trace[n].groups@[i] is Some);
    }
}

/// Without a merged outcome, a rebuild counts as many outcomes after as before.
proof fn lemma_counts_alike(trace: Seq<TreeRebuild>, source: GameTree, k: int)
    requires
        is_trace(trace, source),
        0 <= k < trace.len(),
        forall|i: int|
            0 <= i < trace.last().nodes@.len() && (#[trigger] trace.last().groups@[i]) is Some
                ==> trace.last().groups@[i]->0@.len()
                == source.nodes@[trace.last().origins@[i] as int].chance->0.outcomes@.len(),
    ensures
        forall|street: Street|
            (#[trigger] trace[k].stats.of(street)).outcomes_after == trace[k].stats.of(
                street,
            ).outcomes_before,
    decreases k,
{
    if k == 0 {
        assert(trace[0].wf(source));
    } else {
        lemma_counts_alike(trace, source, k - 1);
        assert(is_step(trace, source, k - 1));
        let before = trace[k - 1];
        let after = trace[k];
        let n = trace.len() - 1;
        lemma_trace_grows(trace, source, k, n);
        assert(after.wf(source));
        assert(after.placed_ok(source, k - 1));
        assert(carried(after, trace[n], k - 1));
        let next = before.next(source)->0;
        assert(after.origins@[k - 1] == next);
        if let Some(chance) = source.nodes@[next as int].chance {
            let left = outcomes_left(after);
            assert(left == chance.outcomes@.len()) by {
                if after.groups@[k - 1] is Some {
                    assert(trace[n].groups@[k - 1] is Some);
                }
            }
            assert(before.stats.of(chance.next_street).outcomes_after == before.stats.of(
                chance.next_street,
            ).outcomes_before);
            assert forall|street: Street| (#[trigger] after.stats.of(street)).outcomes_after
                == after.stats.of(street).outcomes_before by {
                if street != chance.next_street {
                    assert(after.stats.of(street) == before.stats.of(street));
                    assert(before.stats.of(street).outcomes_after == before.stats.of(
                        street,
                    ).outcomes_before);
                }
            }
        }
    }
}

proof fn lemma_same_concat<T>(a: Seq<T>, b: Seq<T>, encode: spec_fn(T) -> Seq<u64>)
    requires
        a.len() == b.len(),
        forall|i: int| 0 <= i < a.len() ==> encode(#[trigger] a[i]) == encode(b[i]),
    ensures
        concat_words(a, encode) == concat_words(b, encode),
    decreases a.len(),
{
    if a.len() > 0 {
        assert forall|i: int| 0 <= i < a.drop_last().len() implies encode(
            #[trigger] a.drop_last()[i],
        ) == encode(b.drop_last()[i]) by {
            assert(encode(a[i]) == encode(b[i]));
        }
        lemma_same_concat(a.drop_last(), b.drop_last(), encode);
        assert(encode(a[a.len() - 1]) == encode(b[a.len() - 1]));
    }
}

/// Trees with the same content have the same words, and so the same fingerprint.
pub proof fn lemma_same_trees_have_the_same_words(left: GameTree, right: GameTree)
    requires
        left.same(right),
    ensures
        tree_words(left) == tree_words(right),
{
    let encode = node_encoding();
    assert forall|i: int| 0 <= i < left.nodes@.len() implies encode(#[trigger] left.nodes@[i])
        == encode(right.nodes@[i]) by {
        let a = left.nodes@[i];
        let b = right.nodes@[i];
        assert(a.same(b));
        if let Some(chance) = a.chance {
            let other = b.chance->0;
            let code = outcome_encoding();
            assert forall|k: int| 0 <= k < chance.outcomes@.len() implies code(
                #[trigger] chance.outcomes@[k],
            ) == code(other.outcomes@[k]) by {
                assert(chance.outcomes@[k].same(other.outcomes@[k]));
            }
            lemma_same_concat(chance.outcomes@, other.outcomes@, code);
        }
        assert(chance_words(a.chance) == chance_words(b.chance));
        assert(edge_words(a) == edge_words(b));
        assert(node_words(a) == node_words(b));
    }
    lemma_same_concat(left.nodes@, right.nodes@, encode);
}

/// Merging the outcomes of a merged tree again, by the same rule, leaves the tree
/// as it is: every node stands at its number with its content, so the words behind
/// the fingerprint are the same, and as many outcomes are counted after as before.
pub proof fn lemma_merging_a_merged_tree_changes_nothing(
    source: GameTree,
    first: Seq<TreeRebuild>,
    tree: GameTree,
    second: Seq<TreeRebuild>,
    again: GameTree,
    rule: BucketRule,
)
    requires
        is_trace(first, source),
        grouped_by(first.last(), source, rule),
        tree.root == 0,
        tree.nodes == first.last().nodes,
        is_trace(second, tree),
        grouped_by(second.last(), tree, rule),
        singles_kept(second.last(), tree),
        again.root == 0,
        again.nodes == second.last().nodes,
    ensures
        again.same(tree),
        tree_words(again) == tree_words(tree),
        second.last().stats.flop.outcomes_after == second.last().stats.flop.outcomes_before,
        second.last().stats.turn.outcomes_after == second.last().stats.turn.outcomes_before,
        second.last().stats.river.outcomes_after == second.last().stats.river.outcomes_before,
{
    let n = first.len() - 1;
    lemma_trace_follows(first, source, tree, second, rule, n);
    lemma_trace_grows(first, source, n, n);
    assert(first[n].wf(source) && second[n].wf(tree));
    if n > 0 {
        assert(is_step(first, source, n - 1));
    }
    assert(n > 0) by {
        if n == 0 {
            assert(first[0].next(source) is Some);
        }
    }
    if second.len() - 1 > n {
        assert(is_step(second, tree, n));
        assert(first[n].next(source) is None);
        assert(second[n].open@.len() == 0);
        assert(second[n].next(tree) is None);
    }
    assert(second.last() == second[n]);
    let made = second[n];
    assert forall|i: int| 0 <= i < again.nodes@.len() implies (#[trigger] again.nodes@[i]).same(
        tree.nodes@[i],
    ) by {
        assert(mirrors(first[n], made, tree, i));
        assert(made.placed_ok(tree, i));
        assert(first[n].placed_ok(source, i));
        let node = again.nodes@[i];
        let old_node = tree.nodes@[i];
        if let Some(chance) = old_node.chance {
            let outcomes = node.chance->0.outcomes@;
            if made.groups@[i] is Some {
                lemma_grouped_again(first[n], source, tree, made, rule, i);
                let groups = made.groups@[i]->0@;
                assert(merged_outcomes(outcomes, chance.outcomes@, groups));
                assert forall|k: int| 0 <= k < outcomes.len() implies (
                #[trigger] outcomes[k]).same(chance.outcomes@[k]) by {
                    assert(groups[k].members@ == seq![k as usize]);
                    assert(made.groups@[i]->0@[k].members@.len() == 1);
                    assert(groups[k].rep_index == k);
                }
            }
            assert(same_outcomes(outcomes, chance.outcomes@));
        }
    }
    lemma_same_trees_have_the_same_words(again, tree);
    assert forall|i: int|
        0 <= i < made.nodes@.len() && (#[trigger] made.groups@[i]) is Some implies
        made.groups@[i]->0@.len() == tree.nodes@[made.origins@[i] as int].chance->0.outcomes@.len() by {
        assert(mirrors(first[n], made, tree, i));
        lemma_grouped_again(first[n], source, tree, made, rule, i);
    }
    lemma_counts_alike(second, tree, n);
    assert(made.stats.of(Street::Flop) == made.stats.flop);
    assert(made.stats.of(Street::Turn) == made.stats.turn);
    assert(made.stats.of(Street::River) == made.stats.river);
}

} // verus!
