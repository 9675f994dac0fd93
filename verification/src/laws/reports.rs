//! What a report says of an information set, of a class of hands and of a range.
use vstd::prelude::*;

use crate::bits::{above_zero, below_zero, finite};
use crate::cards::Combo;
use crate::checkpoint::{checkpoint_error, infoset_key, InfoSetCheckpoint, SolverCheckpoint};
use crate::game::GameNode;
use crate::group::items_of;
use crate::holdem::{CompiledHoldemGame, PrivateDeal};
use crate::laws::picks::{lemma_pick, picks};
use crate::laws::ranges::{lemma_hands_meet, share_a_card};
use crate::matrix::{HandClassId, RangeClassReport};
use crate::range_report::{
    bucket_key, bucket_list, bucket_ok, classes_joined, deal_error, deals_error, dealt_hands,
    first_in_bucket, hand_key, has_ev, has_loss, infoset_bucket, joined_action, member_error,
    member_key, weight_of, ActionValues, AggregateError, BucketValues, RangeBucket,
};
use crate::report::{
    count_with_key, entry_of, first_with_key, hand_of, infoset_reported, layout_error, layout_ok,
    public_of, report_error, InfoSetLayout, InfoSetReport, InfoSetValues, ReportError,
};
use crate::table::{Key, Table};

verus! {

/// Somebody decides at the node in the given information set.
pub open spec fn decides_in(node: GameNode, player: usize, infoset: u64) -> bool {
    node matches GameNode::Decision { player: actor, infoset: set, children } && actor == player
        && set == infoset
}

pub open spec fn deciding(nodes: Seq<GameNode>, player: usize, infoset: u64) -> spec_fn(int) -> bool {
    |n: int| decides_in(nodes[n], player, infoset)
}

proof fn lemma_first_decision(nodes: Seq<GameNode>, player: usize, infoset: u64, from: int)
    requires
        0 <= from <= nodes.len(),
    ensures
        match first_with_key(nodes, infoset_key(player, infoset), from) {
            Some(first) => {
                &&& from <= first < nodes.len()
                &&& decides_in(nodes[first], player, infoset)
                &&& forall|n: int|
                    from <= n < first ==> !decides_in(#[trigger] nodes[n], player, infoset)
            },
            None => forall|n: int|
                from <= n < nodes.len() ==> !decides_in(#[trigger] nodes[n], player, infoset),
        },
    decreases nodes.len() - from,
{
    if from < nodes.len() {
        lemma_first_decision(nodes, player, infoset, from + 1);
    }
}

proof fn lemma_counted_decisions(nodes: Seq<GameNode>, player: usize, infoset: u64, count: int) -> (
origin: Seq<int>)
    requires
        0 <= count <= nodes.len(),
    ensures
        picks(origin, count, deciding(nodes, player, infoset)),
        count_with_key(nodes, infoset_key(player, infoset), count) == origin.len(),
    decreases count,
{
    if count == 0 {
        Seq::empty()
    } else {
        let shorter = lemma_counted_decisions(nodes, player, infoset, count - 1);
        lemma_pick(shorter, count - 1, deciding(nodes, player, infoset))
    }
}

/// The layout of an information set is that of its first decision: the public node, the
/// hand of its player and the actions; it counts all its decisions.
pub proof fn lemma_layouts(
    layout: InfoSetLayout,
    compiled: CompiledHoldemGame,
    entries: Seq<InfoSetCheckpoint>,
) -> (origin: Seq<int>)
    requires
        layout_ok(layout, compiled, entries),
    ensures
        picks(
            origin,
            compiled.game.nodes@.len() as int,
            deciding(compiled.game.nodes@, layout.player, layout.infoset),
        ),
        layout.occurrences == origin.len(),
        origin.len() > 0,
        layout.actions@ == compiled.actions@[origin[0]]@,
        origin[0] < compiled.tree_node_ids@.len() ==> layout.public_node
            == compiled.tree_node_ids@[origin[0]],
        origin[0] < compiled.private_hands@.len() ==> (layout.private_hand is Some
            <==> compiled.private_hands@[origin[0]] is Some),
        origin[0] < compiled.private_hands@.len() && layout.private_hand is Some
            ==> layout.private_hand->Some_0
            == compiled.private_hands@[origin[0]]->Some_0@[layout.player as int],
{
    let nodes = compiled.game.nodes@;
    let keep = deciding(nodes, layout.player, layout.infoset);
    let origin = lemma_counted_decisions(nodes, layout.player, layout.infoset, nodes.len() as int);
    lemma_first_decision(nodes, layout.player, layout.infoset, 0);
    let first = first_with_key(nodes, infoset_key(layout.player, layout.infoset), 0)->Some_0;
    assert(keep(first));
    let k = choose|k: int| 0 <= k < origin.len() && origin[k] == first;
    assert(keep(origin[0]));
    if k > 0 {
        assert(origin[0] < origin[k]);
        assert(!decides_in(nodes[origin[0]], layout.player, layout.infoset));
    }
    origin
}

/// The entry of an information set is the last one that names it.
pub proof fn lemma_entries(
    entries: Seq<InfoSetCheckpoint>,
    player: usize,
    infoset: u64,
    count: int,
)
    requires
        0 <= count <= entries.len() <= usize::MAX,
    ensures
        match entry_of(entries, infoset_key(player, infoset), count) {
            Some(at) => {
                &&& at < count
                &&& entries[at as int].player == player
                &&& entries[at as int].infoset == infoset
                &&& forall|i: int|
                    at < i < count ==> (#[trigger] entries[i]).player != player
                        || entries[i].infoset != infoset
            },
            None => forall|i: int|
                0 <= i < count ==> (#[trigger] entries[i]).player != player || entries[i].infoset
                    != infoset,
        },
    decreases count,
{
    if count > 0 {
        lemma_entries(entries, player, infoset, count - 1);
    }
}

/// A report says of an information set who decides, where and with what hand, how
/// often it occurs and was visited, and of each action its own numbers.
pub proof fn lemma_reported_infosets(
    report: InfoSetReport,
    layout: InfoSetLayout,
    values: InfoSetValues,
    entries: Seq<InfoSetCheckpoint>,
)
    requires
        infoset_reported(report, layout, values, entries),
    ensures
        report.player == layout.player,
        report.infoset == layout.infoset,
        report.public_node == layout.public_node,
        report.private_hand == layout.private_hand,
        report.occurrences == layout.occurrences,
        layout.entry is None ==> report.visits == 0,
        layout.entry is Some ==> report.visits == entries[layout.entry->Some_0 as int].visits,
        report.actions@.len() == layout.actions@.len(),
        forall|a: int|
            0 <= a < layout.actions@.len() ==> {
                &&& (#[trigger] report.actions@[a]).action == layout.actions@[a]
                &&& report.actions@[a].frequency == values.frequencies@[a]
                &&& report.actions@[a].counterfactual_ev == values.counterfactual_evs@[a]
                &&& report.actions@[a].ev_loss == values.ev_losses@[a]
            },
{
}

proof fn lemma_like_the_first(compiled: CompiledHoldemGame, from: int, n: int)
    requires
        0 <= from <= n < compiled.game.nodes@.len(),
        layout_error(compiled, from) is None,
        compiled.game.nodes@[n] is Decision,
    ensures
        ({
            let player = compiled.game.nodes@[n]->Decision_player;
            let infoset = compiled.game.nodes@[n]->Decision_infoset;
            let first = first_with_key(
                compiled.game.nodes@,
                infoset_key(player, infoset),
                0,
            )->Some_0;
            &&& n < compiled.actions@.len()
            &&& compiled.actions@[n]@.len() > 0
            &&& compiled.actions@[first]@ == compiled.actions@[n]@
            &&& public_of(compiled, first) == public_of(compiled, n)
            &&& hand_of(compiled, first, player) == hand_of(compiled, n, player)
        }),
    decreases n - from,
{
    if from < n {
        lemma_like_the_first(compiled, from + 1, n);
    }
}

/// In a game that can be reported, the decisions of one information set offer the same
/// actions, at the same public node and with the same hand of the player: nobody could
/// tell them apart.
pub proof fn lemma_decisions_of_an_infoset_look_alike(compiled: CompiledHoldemGame, m: int, n: int)
    requires
        layout_error(compiled, 0) is None,
        0 <= m < compiled.game.nodes@.len(),
        0 <= n < compiled.game.nodes@.len(),
        compiled.game.nodes@[m] is Decision,
        compiled.game.nodes@[n] is Decision,
        compiled.game.nodes@[m]->Decision_player == compiled.game.nodes@[n]->Decision_player,
        compiled.game.nodes@[m]->Decision_infoset == compiled.game.nodes@[n]->Decision_infoset,
        compiled.tree_node_ids@.len() == compiled.game.nodes@.len(),
        compiled.private_hands@.len() == compiled.game.nodes@.len(),
    ensures
        compiled.actions@[m]@.len() > 0,
        compiled.actions@[m]@ == compiled.actions@[n]@,
        compiled.tree_node_ids@[m] == compiled.tree_node_ids@[n],
        compiled.private_hands@[m] is Some <==> compiled.private_hands@[n] is Some,
        compiled.private_hands@[m] is Some ==> {
            let player = compiled.game.nodes@[m]->Decision_player as int;
            compiled.private_hands@[m]->Some_0@[player]
                == compiled.private_hands@[n]->Some_0@[player]
        },
{
    lemma_like_the_first(compiled, 0, m);
    lemma_like_the_first(compiled, 0, n);
}

/// A report is made only of a checkpoint in order that was written for the game.
pub proof fn lemma_reports_of_own_checkpoints(
    compiled: CompiledHoldemGame,
    checkpoint: SolverCheckpoint,
)
    ensures
        report_error(compiled, checkpoint) is None ==> checkpoint_error(checkpoint) is None
            && checkpoint.game_fingerprint == compiled.game.spec_fingerprint(),
        checkpoint_error(checkpoint) is None && checkpoint.game_fingerprint
            != compiled.game.spec_fingerprint() ==> report_error(compiled, checkpoint) == Some(
            ReportError::GameMismatch,
        ),
{
}

/// Hands of players, classes of hands and members of classes have keys of their own.
pub proof fn lemma_report_keys(
    player: usize,
    other_player: usize,
    node: Option<usize>,
    other_node: Option<usize>,
    class_id: HandClassId,
    other_class: HandClassId,
    hand: Combo,
    other_hand: Combo,
)
    requires
        player < 0x8000_0000,
        other_player < 0x8000_0000,
        hand.valid(),
        other_hand.valid(),
    ensures
        hand_key(player, hand) == hand_key(other_player, other_hand) <==> player == other_player
            && hand == other_hand,
        bucket_key(player, node, class_id) == bucket_key(other_player, other_node, other_class)
            <==> player == other_player && node == other_node && class_id == other_class,
        member_key(player, node, class_id, hand) == member_key(
            other_player,
            other_node,
            other_class,
            other_hand,
        ) <==> player == other_player && node == other_node && class_id == other_class && hand
            == other_hand,
{
}

/// Buckets come by player, those without a public node first, then by public node,
/// then by class.
pub proof fn lemma_bucket_order(
    player: usize,
    other_player: usize,
    node: Option<usize>,
    other_node: Option<usize>,
    class_id: HandClassId,
    other_class: HandClassId,
)
    requires
        player < 0x8000_0000,
        other_player < 0x8000_0000,
    ensures
        bucket_key(player, node, class_id).below(bucket_key(other_player, other_node, other_class))
            <==> {
            ||| player < other_player
            ||| player == other_player && node is None && other_node is Some
            ||| player == other_player && node is Some && other_node is Some && node->Some_0
                < other_node->Some_0
            ||| player == other_player && node == other_node && class_id < other_class
        },
{
}

/// A deal is refused exactly where its probability is no positive number or the two
/// hands share a card.
pub proof fn lemma_deals_in_order(deal: PrivateDeal)
    requires
        deal.hands@[0].valid(),
        deal.hands@[1].valid(),
    ensures
        deal_error(deal) is None <==> above_zero(deal.probability) && finite(deal.probability)
            && !share_a_card(deal.hands@[0], deal.hands@[1]),
        deal_error(deal) == Some(AggregateError::DuplicateCards) ==> share_a_card(
            deal.hands@[0],
            deal.hands@[1],
        ),
{
    lemma_hands_meet(deal.hands@[0], deal.hands@[1], 0);
}

/// Deals are in order exactly where each of them is.
pub proof fn lemma_all_deals_in_order(deals: Seq<PrivateDeal>, from: int)
    requires
        0 <= from <= deals.len(),
    ensures
        deals_error(deals, from) is None <==> forall|i: int|
            from <= i < deals.len() ==> deal_error(#[trigger] deals[i]) is None,
    decreases deals.len() - from,
{
    if from < deals.len() {
        lemma_all_deals_in_order(deals, from + 1);
        if deal_error(deals[from]) is Some {
            assert(!(forall|i: int|
                from <= i < deals.len() ==> deal_error(#[trigger] deals[i]) is None));
        }
    }
}

pub open spec fn holding(deals: Seq<PrivateDeal>, player: usize, hand: Combo) -> spec_fn(int) -> bool {
    |i: int| deals[i].hands@[player as int] == hand
}

/// The probabilities that make up the weight of a player's hand are those of the deals
/// in which that player holds it, each once and in their order.
pub proof fn lemma_probabilities_of_a_hand(
    deals: Seq<PrivateDeal>,
    player: usize,
    hand: Combo,
    count: int,
) -> (origin: Seq<int>)
    requires
        0 <= count <= deals.len(),
        player < 2,
        hand.valid(),
        forall|i: int|
            0 <= i < deals.len() ==> (#[trigger] deals[i]).hands@[0].valid()
                && deals[i].hands@[1].valid(),
    ensures
        picks(origin, count, holding(deals, player, hand)),
        items_of(dealt_hands(deals, count), hand_key(player, hand)).len() == origin.len(),
        forall|k: int|
            0 <= k < origin.len() ==> #[trigger] items_of(
                dealt_hands(deals, count),
                hand_key(player, hand),
            )[k] == deals[origin[k]].probability,
    decreases count,
{
    let key = hand_key(player, hand);
    if count == 0 {
        assert(items_of(dealt_hands(deals, 0), key) =~= Seq::<u64>::empty());
        Seq::empty()
    } else {
        let shorter = lemma_probabilities_of_a_hand(deals, player, hand, count - 1);
        let keep = holding(deals, player, hand);
        let deal = deals[count - 1];
        assert(deal.hands@[0].valid() && deal.hands@[1].valid());
        let list = dealt_hands(deals, count - 1);
        let one = list.push((hand_key(0, deal.hands@[0]), deal.probability));
        let two = one.push((hand_key(1, deal.hands@[1]), deal.probability));
        assert(one.drop_last() =~= list);
        assert(two.drop_last() =~= one);
        assert(dealt_hands(deals, count) == two);
        lemma_report_keys(0, player, None, None, 0, 0, deal.hands@[0], hand);
        lemma_report_keys(1, player, None, None, 0, 0, deal.hands@[1], hand);
        let origin = lemma_pick(shorter, count - 1, keep);
        let before = items_of(list, key);
        let middle = items_of(one, key);
        let after = items_of(two, key);
        assert(middle == if hand_key(0, deal.hands@[0]) == key {
            before.push(deal.probability)
        } else {
            before
        });
        assert(after == if hand_key(1, deal.hands@[1]) == key {
            middle.push(deal.probability)
        } else {
            middle
        });
        assert(keep(count - 1) == (deal.hands@[player as int] == hand));
        assert forall|k: int| 0 <= k < origin.len() implies #[trigger] after[k]
            == deals[origin[k]].probability by {
            if k < shorter.len() {
                assert(before[k] == deals[shorter[k]].probability);
            }
        }
        origin
    }
}

/// A hand weighs what stands at the place of its group, where that is above zero; a
/// hand without a group weighs nothing.
pub proof fn lemma_weight_of_a_hand(
    groups: Table<Vec<u64>>,
    weights: Seq<u64>,
    player: usize,
    hand: Combo,
    i: int,
)
    requires
        groups.wf(),
        0 <= i < groups.entries@.len(),
    ensures
        groups.entries@[i].0 == hand_key(player, hand) ==> weight_of(groups, weights, player, hand)
            == if above_zero(weights[i]) {
            Some(weights[i])
        } else {
            None
        },
        weight_of(groups, weights, player, hand) is Some ==> above_zero(
            weight_of(groups, weights, player, hand)->Some_0,
        ),
        (forall|j: int|
            0 <= j < groups.entries@.len() ==> (#[trigger] groups.entries@[j]).0 != hand_key(
                player,
                hand,
            )) ==> weight_of(groups, weights, player, hand) is None,
{
    let key = hand_key(player, hand);
    if groups.entries@[i].0 == key {
        let j = choose|j: int|
            0 <= j < groups.entries@.len() && (#[trigger] groups.entries@[j]).0 == key;
        if i < j {
            assert(groups.entries@[i].0.below(groups.entries@[j].0));
        } else if j < i {
            assert(groups.entries@[j].0.below(groups.entries@[i].0));
        }
    }
}

/// The information set is one of the player's, at the public node and in the class.
pub open spec fn is_member(
    infosets: Seq<InfoSetReport>,
    class_ids: Seq<HandClassId>,
    bucket: RangeBucket,
) -> spec_fn(int) -> bool {
    |i: int|
        infosets[i].player == bucket.player && infosets[i].public_node == bucket.public_node
            && class_ids[i] == bucket.class_id
}

proof fn lemma_listed_members(
    infosets: Seq<InfoSetReport>,
    class_ids: Seq<HandClassId>,
    bucket: RangeBucket,
    count: int,
) -> (origin: Seq<int>)
    requires
        0 <= count <= infosets.len() <= usize::MAX,
        bucket.player < 0x8000_0000,
        forall|i: int| 0 <= i < infosets.len() ==> (#[trigger] infosets[i]).player < 0x8000_0000,
    ensures
        ({
            let items = items_of(
                bucket_list(infosets, class_ids, count),
                bucket_key(bucket.player, bucket.public_node, bucket.class_id),
            );
            &&& picks(origin, count, is_member(infosets, class_ids, bucket))
            &&& items.len() == origin.len()
            &&& forall|k: int| 0 <= k < origin.len() ==> #[trigger] items[k] == origin[k]
        }),
    decreases count,
{
    let key = bucket_key(bucket.player, bucket.public_node, bucket.class_id);
    if count == 0 {
        assert(bucket_list(infosets, class_ids, 0).len() == 0);
        Seq::empty()
    } else {
        let shorter = lemma_listed_members(infosets, class_ids, bucket, count - 1);
        let list = bucket_list(infosets, class_ids, count);
        let rest = bucket_list(infosets, class_ids, count - 1);
        assert(list.drop_last() =~= rest);
        let infoset = infosets[count - 1];
        let some_hand = Combo { first: 0, second: 1 };
        lemma_report_keys(
            infoset.player,
            bucket.player,
            infoset.public_node,
            bucket.public_node,
            class_ids[count - 1],
            bucket.class_id,
            some_hand,
            some_hand,
        );
        let origin = lemma_pick(shorter, count - 1, is_member(infosets, class_ids, bucket));
        let items = items_of(list, key);
        let before = items_of(rest, key);
        assert forall|k: int| 0 <= k < origin.len() implies #[trigger] items[k] == origin[k] by {
            if k < shorter.len() {
                assert(before[k] == shorter[k]);
            }
        }
        origin
    }
}

/// The members of a class are the information sets of its player, public node and
/// class, all of them and in their order, each with the weight of its own hand.
pub proof fn lemma_members_of_a_class(
    bucket: RangeBucket,
    infosets: Seq<InfoSetReport>,
    class_ids: Seq<HandClassId>,
    groups: Table<Vec<u64>>,
    weights: Seq<u64>,
) -> (origin: Seq<int>)
    requires
        bucket_ok(bucket, infosets, class_ids, groups, weights),
        infosets.len() <= usize::MAX,
        bucket.player < 0x8000_0000,
        forall|i: int| 0 <= i < infosets.len() ==> (#[trigger] infosets[i]).player < 0x8000_0000,
    ensures
        picks(origin, infosets.len() as int, is_member(infosets, class_ids, bucket)),
        bucket.members@.len() == origin.len(),
        bucket.weights@.len() == origin.len(),
        forall|k: int|
            0 <= k < origin.len() ==> #[trigger] bucket.members@[k] == origin[k] && Some(
                bucket.weights@[k],
            ) == weight_of(
                groups,
                weights,
                bucket.player,
                infosets[origin[k]].private_hand->Some_0,
            ),
{
    let keep = is_member(infosets, class_ids, bucket);
    let origin = lemma_listed_members(infosets, class_ids, bucket, infosets.len() as int);
    assert forall|k: int| 0 <= k < origin.len() implies #[trigger] bucket.members@[k] == origin[k]
        && Some(bucket.weights@[k]) == weight_of(
        groups,
        weights,
        bucket.player,
        infosets[origin[k]].private_hand->Some_0,
    ) by {
        assert(keep(origin[k]));
    }
    origin
}

/// An action of a class is that of its first member, with the class's own numbers; a
/// value is left out exactly where no member has one.
pub proof fn lemma_actions_of_a_class(
    infosets: Seq<InfoSetReport>,
    members: Seq<usize>,
    values: ActionValues,
    a: int,
)
    requires
        members.len() > 0,
    ensures
        ({
            let action = joined_action(infosets, members, values, a);
            &&& action.action == infosets[members[0] as int].actions@[a].action
            &&& action.frequency == values.frequency
            &&& action.counterfactual_ev is Some ==> action.counterfactual_ev->Some_0
                == values.counterfactual_ev
            &&& action.ev_loss is Some ==> action.ev_loss->Some_0 == values.ev_loss
            &&& action.counterfactual_ev is None <==> forall|m: int|
                0 <= m < members.len() ==> infosets[(
                #[trigger] members[m]) as int].actions@[a].counterfactual_ev is None
            &&& action.ev_loss is None <==> forall|m: int|
                0 <= m < members.len() ==> infosets[(
                #[trigger] members[m]) as int].actions@[a].ev_loss is None
        }),
{
    if has_ev(infosets, members, a) {
        let m = choose|m: int|
            0 <= m < members.len() && infosets[(
            #[trigger] members[m]) as int].actions@[a].counterfactual_ev is Some;
        assert(infosets[members[m] as int].actions@[a].counterfactual_ev is Some);
    }
    if has_loss(infosets, members, a) {
        let m = choose|m: int|
            0 <= m < members.len() && infosets[(
            #[trigger] members[m]) as int].actions@[a].ev_loss is Some;
        assert(infosets[members[m] as int].actions@[a].ev_loss is Some);
    }
}

pub open spec fn weighty(values: Seq<BucketValues>) -> spec_fn(int) -> bool {
    |b: int| above_zero(values[b].marginal_weight)
}

/// The classes of a range report are the buckets with weight, all of them and in their
/// order, each with its own player, node, class, count, weight and actions.
pub proof fn lemma_classes_of_a_report(
    classes: Seq<RangeClassReport>,
    infosets: Seq<InfoSetReport>,
    buckets: Seq<RangeBucket>,
    values: Seq<BucketValues>,
    count: int,
) -> (origin: Seq<int>)
    requires
        0 <= count <= buckets.len(),
        count <= values.len(),
        classes_joined(classes, infosets, buckets, values, count),
    ensures
        picks(origin, count, weighty(values)),
        classes.len() == origin.len(),
        forall|k: int|
            0 <= k < origin.len() ==> {
                let bucket = buckets[origin[k]];
                &&& (#[trigger] classes[k]).player == bucket.player
                &&& classes[k].public_node == bucket.public_node
                &&& classes[k].class_id == bucket.class_id
                &&& classes[k].combo_count == bucket.members@.len()
                &&& classes[k].marginal_weight == values[origin[k]].marginal_weight
                &&& classes[k].actions@.len() == values[origin[k]].actions@.len()
                &&& forall|a: int|
                    0 <= a < classes[k].actions@.len() ==> #[trigger] classes[k].actions@[a]
                        == joined_action(
                        infosets,
                        bucket.members@,
                        values[origin[k]].actions@[a],
                        a,
                    )
            },
    decreases count,
{
    if count == 0 {
        Seq::empty()
    } else if above_zero(values[count - 1].marginal_weight) {
        let rest = classes.drop_last();
        let shorter = lemma_classes_of_a_report(rest, infosets, buckets, values, count - 1);
        let origin = lemma_pick(shorter, count - 1, weighty(values));
        assert forall|k: int| 0 <= k < origin.len() implies {
            let bucket = buckets[origin[k]];
            &&& (#[trigger] classes[k]).player == bucket.player
            &&& classes[k].public_node == bucket.public_node
            &&& classes[k].class_id == bucket.class_id
            &&& classes[k].combo_count == bucket.members@.len()
            &&& classes[k].marginal_weight == values[origin[k]].marginal_weight
            &&& classes[k].actions@.len() == values[origin[k]].actions@.len()
            &&& forall|a: int|
                0 <= a < classes[k].actions@.len() ==> #[trigger] classes[k].actions@[a]
                    == joined_action(infosets, bucket.members@, values[origin[k]].actions@[a], a)
        } by {
            if k < shorter.len() {
                assert(rest[k] == classes[k]);
                assert(origin[k] == shorter[k]);
            }
        }
        origin
    } else {
        let shorter = lemma_classes_of_a_report(classes, infosets, buckets, values, count - 1);
        lemma_pick(shorter, count - 1, weighty(values))
    }
}

proof fn lemma_first_of_a_class(
    infosets: Seq<InfoSetReport>,
    class_ids: Seq<HandClassId>,
    key: Key,
    from: int,
    index: int,
)
    requires
        0 <= from <= index < infosets.len(),
        infoset_bucket(infosets[index], class_ids[index]) == key,
    ensures
        from <= first_in_bucket(infosets, class_ids, key, from) <= index,
        infoset_bucket(
            infosets[first_in_bucket(infosets, class_ids, key, from)],
            class_ids[first_in_bucket(infosets, class_ids, key, from)],
        ) == key,
        forall|i: int|
            from <= i < first_in_bucket(infosets, class_ids, key, from) ==> infoset_bucket(
                #[trigger] infosets[i],
                class_ids[i],
            ) != key,
    decreases infosets.len() - from,
{
    if infoset_bucket(infosets[from], class_ids[from]) != key {
        lemma_first_of_a_class(infosets, class_ids, key, from + 1, index);
    }
}

/// An information set joins its class exactly where it has a hand of weight, comes
/// once, offers the actions of the first of its class in their order, is the only one
/// of its hand there, and has frequencies that are numbers of at least zero.
pub proof fn lemma_infosets_that_join(
    infosets: Seq<InfoSetReport>,
    class_ids: Seq<HandClassId>,
    groups: Table<Vec<u64>>,
    weights: Seq<u64>,
    index: int,
)
    requires
        0 <= index < infosets.len(),
    ensures
        member_error(infosets, class_ids, groups, weights, index) is None ==> {
            let infoset = infosets[index];
            let first = first_in_bucket(
                infosets,
                class_ids,
                infoset_bucket(infoset, class_ids[index]),
                0,
            );
            &&& infoset.private_hand is Some
            &&& weight_of(groups, weights, infoset.player, infoset.private_hand->Some_0) is Some
            &&& forall|j: int|
                0 <= j < index ==> (#[trigger] infosets[j]).player != infoset.player
                    || infosets[j].infoset != infoset.infoset
            &&& 0 <= first <= index
            &&& infosets[first].actions@.len() == infoset.actions@.len()
            &&& forall|a: int|
                0 <= a < infoset.actions@.len() ==> (#[trigger] infoset.actions@[a]).action
                    == infosets[first].actions@[a].action && finite(infoset.actions@[a].frequency)
                    && !below_zero(infoset.actions@[a].frequency)
        },
        infosets[index].private_hand is None ==> member_error(
            infosets,
            class_ids,
            groups,
            weights,
            index,
        ) == Some(AggregateError::NoPrivateHand),
{
    let infoset = infosets[index];
    let key = infoset_bucket(infoset, class_ids[index]);
    lemma_first_of_a_class(infosets, class_ids, key, 0, index);
    let first = first_in_bucket(infosets, class_ids, key, 0);
    if member_error(infosets, class_ids, groups, weights, index) is None {
        assert forall|j: int| 0 <= j < index implies (#[trigger] infosets[j]).player
            != infoset.player || infosets[j].infoset != infoset.infoset by {
            assert(infoset_key(infosets[j].player, infosets[j].infoset) != infoset_key(
                infoset.player,
                infoset.infoset,
            ));
        }
        let left = infosets[first].actions@;
        let right = infoset.actions@;
        assert forall|a: int| 0 <= a < right.len() implies (#[trigger] right[a]).action
            == left[a].action && finite(right[a].frequency) && !below_zero(
            right[a].frequency,
        ) by {
            assert(left[a].action == right[a].action);
        }
    }
}

} // verus!
