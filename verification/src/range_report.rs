//! Strategy reports gathered by hand class.
//!
//! Weights come from the deals, so that blockers and the other range count.
use vstd::prelude::*;

use crate::bits::{above_zero, below_zero, finite, is_above_zero, is_below_zero, is_finite};
use crate::cards::Combo;
use crate::checkpoint::infoset_key;
use crate::group::{group_items, groups_of, items_of, lemma_group_key};
use crate::holdem::PrivateDeal;
use crate::matrix::{HandClassId, RangeActionReport, RangeClassReport, RangeStrategyReport};
use crate::report::{ActionReport, InfoSetReport, StrategyReport};
use crate::table::{lemma_entry, Key, Place, Table};

verus! {

#[derive(Debug, Clone, Copy, PartialEq, Eq, Structural)]
pub enum AggregateError {
    NoDeals,
    InvalidProbability,
    DuplicateCards,
    NoPrivateHand,
    DuplicateInfoSet { player: usize, infoset: u64 },
    AbsentHand { player: usize },
    InconsistentActions { player: usize, public_node: Option<usize> },
    DuplicateCombo { player: usize, public_node: Option<usize> },
    InvalidFrequency { player: usize, infoset: u64 },
}

/// The key of a hand of a player.
pub open spec fn hand_key(player: usize, hand: Combo) -> Key {
    Key { major: player as u64, middle: (256 * hand.first + hand.second) as u64, minor: 0 }
}

fn make_hand_key(player: usize, hand: Combo) -> (key: Key)
    ensures
        key == hand_key(player, hand),
{
    Key {
        major: player as u64,
        middle: 256 * (hand.first as u64) + hand.second as u64,
        minor: 0,
    }
}

pub open spec fn deal_valid(deal: PrivateDeal) -> bool {
    deal.hands@[0].valid() && deal.hands@[1].valid()
}

/// What is wrong with a deal.
pub open spec fn deal_error(deal: PrivateDeal) -> Option<AggregateError> {
    if !above_zero(deal.probability) || !finite(deal.probability) {
        Some(AggregateError::InvalidProbability)
    } else if deal.hands@[0].spec_mask() & deal.hands@[1].spec_mask() != 0 {
        Some(AggregateError::DuplicateCards)
    } else {
        None
    }
}

pub open spec fn deals_error(deals: Seq<PrivateDeal>, from: int) -> Option<AggregateError>
    decreases deals.len() - from,
{
    if from >= deals.len() {
        None
    } else {
        match deal_error(deals[from]) {
            Some(error) => Some(error),
            None => deals_error(deals, from + 1),
        }
    }
}

/// The hands of the first `count` deals with their probabilities.
pub open spec fn dealt_hands(deals: Seq<PrivateDeal>, count: int) -> Seq<(Key, u64)>
    decreases count,
{
    if count <= 0 {
        Seq::empty()
    } else {
        let deal = deals[count - 1];
        dealt_hands(deals, count - 1).push((hand_key(0, deal.hands@[0]), deal.probability)).push(
            (hand_key(1, deal.hands@[1]), deal.probability),
        )
    }
}

/// Groups the probabilities of deals by player and hand: a marginal weight is
/// the sum of a group.
pub fn marginal_groups(deals: &Vec<PrivateDeal>) -> (result: Result<
    Table<Vec<u64>>,
    AggregateError,
>)
    requires
        forall|i: int| 0 <= i < deals@.len() ==> deal_valid(#[trigger] deals@[i]),
    ensures
        if deals@.len() == 0 {
            result == Err::<Table<Vec<u64>>, AggregateError>(AggregateError::NoDeals)
        } else {
            match deals_error(deals@, 0) {
                Some(error) => result == Err::<Table<Vec<u64>>, AggregateError>(error),
                None => {
                    &&& result matches Ok(groups)
                    &&& groups_of(groups, dealt_hands(deals@, deals@.len() as int))
                    &&& forall|g: int|
                        0 <= g < groups.entries@.len() ==> (
                        #[trigger] groups.entries@[g]).0.major < 2
                },
            }
        },
{
    if deals.len() == 0 {
        return Err(AggregateError::NoDeals);
    }
    let mut list: Vec<(Key, u64)> = Vec::new();
    let mut index: usize = 0;
    while index < deals.len()
        invariant
            index <= deals@.len(),
            deals@.len() > 0,
            forall|i: int| 0 <= i < deals@.len() ==> deal_valid(#[trigger] deals@[i]),
            deals_error(deals@, 0) == deals_error(deals@, index as int),
            list@ == dealt_hands(deals@, index as int),
            forall|i: int| 0 <= i < list@.len() ==> (#[trigger] list@[i]).0.major < 2,
        decreases deals.len() - index,
    {
        let deal = deals[index];
        assert(deal_valid(deals@[index as int]));
        if !is_above_zero(deal.probability) || !is_finite(deal.probability) {
            return Err(AggregateError::InvalidProbability);
        }
        if deal.hands[0].conflicts(deal.hands[1].mask()) {
            return Err(AggregateError::DuplicateCards);
        }
        list.push((make_hand_key(0, deal.hands[0]), deal.probability));
        list.push((make_hand_key(1, deal.hands[1]), deal.probability));
        index = index + 1;
    }
    let groups = group_items(&list);
    proof {
        assert forall|g: int| 0 <= g < groups.entries@.len() implies (
        #[trigger] groups.entries@[g]).0.major < 2 by {
            lemma_entry(groups, g);
            let i = lemma_group_key(list@, groups.entries@[g].0);
            assert(list@[i].0.major < 2);
        }
    }
    Ok(groups)
}

/// The weight of a hand: the number at its group's position, where that is
/// above zero.
pub open spec fn weight_of(
    groups: Table<Vec<u64>>,
    weights: Seq<u64>,
    player: usize,
    hand: Combo,
) -> Option<u64> {
    let key = hand_key(player, hand);
    if exists|i: int|
        0 <= i < groups.entries@.len() && (#[trigger] groups.entries@[i]).0 == key {
        let i = choose|i: int|
            0 <= i < groups.entries@.len() && (#[trigger] groups.entries@[i]).0 == key;
        if above_zero(weights[i]) {
            Some(weights[i])
        } else {
            None
        }
    } else {
        None
    }
}

fn find_weight(groups: &Table<Vec<u64>>, weights: &Vec<u64>, player: usize, hand: Combo) -> (weight:
    Option<u64>)
    requires
        groups.wf(),
        weights@.len() == groups.entries@.len(),
    ensures
        weight == weight_of(*groups, weights@, player, hand),
{
    let key = make_hand_key(player, hand);
    match groups.find(key) {
        Place::Missing(_) => {
            assert(weight_of(*groups, weights@, player, hand) is None) by {
                if exists|i: int|
                    0 <= i < groups.entries@.len() && (#[trigger] groups.entries@[i]).0 == key {
                    let i = choose|i: int|
                        0 <= i < groups.entries@.len() && (#[trigger] groups.entries@[i]).0 == key;
                    lemma_entry(*groups, i);
                }
            }
            None
        },
        Place::Found(place) => {
            proof {
                let i = choose|i: int|
                    0 <= i < groups.entries@.len() && (#[trigger] groups.entries@[i]).0 == key;
                assert(groups.entries@[place as int].0 == key);
                if i < place {
                    assert(groups.entries@[i].0.below(groups.entries@[place as int].0));
                } else if place < i {
                    assert(groups.entries@[place as int].0.below(groups.entries@[i].0));
                }
                assert(i == place);
            }
            if is_above_zero(weights[place]) {
                Some(weights[place])
            } else {
                None
            }
        },
    }
}

/// The key of a class of hands of a player at a public node.
pub open spec fn bucket_key(
    player: usize,
    public_node: Option<usize>,
    class_id: HandClassId,
) -> Key {
    match public_node {
        None => Key { major: (2 * player) as u64, middle: 0, minor: class_id as u64 },
        Some(node) => Key {
            major: (2 * player + 1) as u64,
            middle: node as u64,
            minor: class_id as u64,
        },
    }
}

/// The key of one hand within its class.
pub open spec fn member_key(
    player: usize,
    public_node: Option<usize>,
    class_id: HandClassId,
    hand: Combo,
) -> Key {
    let bucket = bucket_key(player, public_node, class_id);
    Key {
        major: bucket.major,
        middle: bucket.middle,
        minor: (65536 * class_id + 256 * hand.first + hand.second) as u64,
    }
}

pub open spec fn infoset_bucket(infoset: InfoSetReport, class_id: HandClassId) -> Key {
    bucket_key(infoset.player, infoset.public_node, class_id)
}

pub open spec fn infoset_member(infoset: InfoSetReport, class_id: HandClassId) -> Key {
    member_key(infoset.player, infoset.public_node, class_id, infoset.private_hand->Some_0)
}

/// Same actions in the same order.
pub open spec fn same_action_list(left: Seq<ActionReport>, right: Seq<ActionReport>) -> bool {
    &&& left.len() == right.len()
    &&& forall|i: int|
        0 <= i < left.len() ==> (#[trigger] left[i]).action == right[i].action
}

pub open spec fn frequencies_ok(actions: Seq<ActionReport>) -> bool {
    forall|i: int|
        0 <= i < actions.len() ==> finite((#[trigger] actions[i]).frequency) && !below_zero(
            actions[i].frequency,
        )
}

/// The first information set from `from` on in a class.
pub open spec fn first_in_bucket(
    infosets: Seq<InfoSetReport>,
    class_ids: Seq<HandClassId>,
    key: Key,
    from: int,
) -> int
    decreases infosets.len() - from,
{
    if from >= infosets.len() {
        from
    } else if infoset_bucket(infosets[from], class_ids[from]) == key {
        from
    } else {
        first_in_bucket(infosets, class_ids, key, from + 1)
    }
}

/// What keeps information set `index` out of its class.
pub open spec fn member_error(
    infosets: Seq<InfoSetReport>,
    class_ids: Seq<HandClassId>,
    groups: Table<Vec<u64>>,
    weights: Seq<u64>,
    index: int,
) -> Option<AggregateError> {
    let infoset = infosets[index];
    let player = infoset.player;
    let key = infoset_bucket(infoset, class_ids[index]);
    if infoset.private_hand is None {
        Some(AggregateError::NoPrivateHand)
    } else if exists|j: int|
        0 <= j < index && infoset_key((#[trigger] infosets[j]).player, infosets[j].infoset)
            == infoset_key(player, infoset.infoset) {
        Some(AggregateError::DuplicateInfoSet { player, infoset: infoset.infoset })
    } else if weight_of(groups, weights, player, infoset.private_hand->Some_0) is None {
        Some(AggregateError::AbsentHand { player })
    } else if !same_action_list(
        infosets[first_in_bucket(infosets, class_ids, key, 0)].actions@,
        infoset.actions@,
    ) {
        Some(AggregateError::InconsistentActions { player, public_node: infoset.public_node })
    } else if exists|j: int|
        0 <= j < index && infoset_member(#[trigger] infosets[j], class_ids[j]) == infoset_member(
            infoset,
            class_ids[index],
        ) {
        Some(AggregateError::DuplicateCombo { player, public_node: infoset.public_node })
    } else if !frequencies_ok(infoset.actions@) {
        Some(AggregateError::InvalidFrequency { player, infoset: infoset.infoset })
    } else {
        None
    }
}

pub open spec fn members_error(
    infosets: Seq<InfoSetReport>,
    class_ids: Seq<HandClassId>,
    groups: Table<Vec<u64>>,
    weights: Seq<u64>,
    from: int,
) -> Option<AggregateError>
    decreases infosets.len() - from,
{
    if from >= infosets.len() {
        None
    } else {
        match member_error(infosets, class_ids, groups, weights, from) {
            Some(error) => Some(error),
            None => members_error(infosets, class_ids, groups, weights, from + 1),
        }
    }
}

/// The information sets of the first `count` with their classes.
pub open spec fn bucket_list(
    infosets: Seq<InfoSetReport>,
    class_ids: Seq<HandClassId>,
    count: int,
) -> Seq<(Key, usize)> {
    Seq::new(
        count as nat,
        |i: int| (infoset_bucket(infosets[i], class_ids[i]), i as usize),
    )
}

/// The information sets of one class, with their weights.
#[derive(Debug)]
pub struct RangeBucket {
    pub player: usize,
    pub public_node: Option<usize>,
    pub class_id: HandClassId,
    pub members: Vec<usize>,
    pub weights: Vec<u64>,
}

pub open spec fn bucket_ok(
    bucket: RangeBucket,
    infosets: Seq<InfoSetReport>,
    class_ids: Seq<HandClassId>,
    groups: Table<Vec<u64>>,
    weights: Seq<u64>,
) -> bool {
    let key = bucket_key(bucket.player, bucket.public_node, bucket.class_id);
    &&& bucket.members@.len() > 0
    &&& bucket.members@ == items_of(
        bucket_list(infosets, class_ids, infosets.len() as int),
        key,
    )
    &&& bucket.weights@.len() == bucket.members@.len()
    &&& forall|k: int|
        0 <= k < bucket.members@.len() ==> (#[trigger] bucket.members@[k]) < infosets.len()
            && infoset_bucket(
            infosets[bucket.members@[k] as int],
            class_ids[bucket.members@[k] as int],
        ) == key && Some(bucket.weights@[k]) == weight_of(
            groups,
            weights,
            infosets[bucket.members@[k] as int].player,
            infosets[bucket.members@[k] as int].private_hand->Some_0,
        )
}

/// Every information set lies in the bucket of its class, buckets ascending by
/// player, public node and class.
pub open spec fn buckets_ok(
    buckets: Seq<RangeBucket>,
    infosets: Seq<InfoSetReport>,
    class_ids: Seq<HandClassId>,
    groups: Table<Vec<u64>>,
    weights: Seq<u64>,
) -> bool {
    &&& forall|b: int|
        0 <= b < buckets.len() ==> bucket_ok(
            #[trigger] buckets[b],
            infosets,
            class_ids,
            groups,
            weights,
        )
    &&& forall|a: int, b: int|
        0 <= a < b < buckets.len() ==> bucket_key(
            (#[trigger] buckets[a]).player,
            buckets[a].public_node,
            buckets[a].class_id,
        ).below(
            bucket_key(
                (#[trigger] buckets[b]).player,
                buckets[b].public_node,
                buckets[b].class_id,
            ),
        )
    &&& forall|i: int|
        0 <= i < infosets.len() ==> has_bucket(
            buckets,
            infoset_bucket(#[trigger] infosets[i], class_ids[i]),
        )
}

pub open spec fn has_bucket(buckets: Seq<RangeBucket>, key: Key) -> bool {
    exists|b: int|
        0 <= b < buckets.len() && bucket_key(
            (#[trigger] buckets[b]).player,
            buckets[b].public_node,
            buckets[b].class_id,
        ) == key
}

fn compare_actions(left: &Vec<ActionReport>, right: &Vec<ActionReport>) -> (yes: bool)
    ensures
        yes == same_action_list(left@, right@),
{
    if left.len() != right.len() {
        return false;
    }
    let mut index: usize = 0;
    while index < left.len()
        invariant
            index <= left@.len(),
            left@.len() == right@.len(),
            forall|i: int| 0 <= i < index ==> (#[trigger] left@[i]).action == right@[i].action,
        decreases left.len() - index,
    {
        if left[index].action != right[index].action {
            assert(left@[index as int].action != right@[index as int].action);
            return false;
        }
        index = index + 1;
    }
    true
}

fn check_frequencies(actions: &Vec<ActionReport>) -> (yes: bool)
    ensures
        yes == frequencies_ok(actions@),
{
    let mut index: usize = 0;
    while index < actions.len()
        invariant
            index <= actions@.len(),
            forall|i: int|
                0 <= i < index ==> finite((#[trigger] actions@[i]).frequency) && !below_zero(
                    actions@[i].frequency,
                ),
        decreases actions.len() - index,
    {
        let frequency = actions[index].frequency;
        if !is_finite(frequency) || is_below_zero(frequency) {
            assert(!(finite(actions@[index as int].frequency) && !below_zero(
                actions@[index as int].frequency,
            )));
            return false;
        }
        index = index + 1;
    }
    true
}

/// The tables that the first `count` information sets leave behind.
spec fn seen_ok(
    infosets: Seq<InfoSetReport>,
    class_ids: Seq<HandClassId>,
    count: int,
    seen: Table<()>,
    combos: Table<()>,
    firsts: Table<usize>,
) -> bool {
    &&& seen.wf() && combos.wf() && firsts.wf()
    &&& forall|key: Key| #[trigger]
        seen@.dom().contains(key) <==> exists|j: int|
            0 <= j < count && infoset_key((#[trigger] infosets[j]).player, infosets[j].infoset)
                == key
    &&& forall|key: Key| #[trigger]
        combos@.dom().contains(key) <==> exists|j: int|
            0 <= j < count && infoset_member(#[trigger] infosets[j], class_ids[j]) == key
    &&& forall|key: Key| #[trigger]
        firsts@.dom().contains(key) <==> exists|j: int|
            0 <= j < count && infoset_bucket(#[trigger] infosets[j], class_ids[j]) == key
    &&& forall|key: Key| #[trigger]
        firsts@.dom().contains(key) ==> firsts@[key] == first_in_bucket(infosets, class_ids, key, 0)
            && firsts@[key] < count
}

proof fn lemma_first_in_bucket(
    infosets: Seq<InfoSetReport>,
    class_ids: Seq<HandClassId>,
    key: Key,
    from: int,
    index: int,
)
    requires
        0 <= from <= index < infosets.len(),
        infoset_bucket(infosets[index], class_ids[index]) == key,
        forall|j: int|
            from <= j < index ==> infoset_bucket(#[trigger] infosets[j], class_ids[j]) != key,
    ensures
        first_in_bucket(infosets, class_ids, key, from) == index,
    decreases index - from,
{
    if from < index {
        assert(infoset_bucket(infosets[from], class_ids[from]) != key);
        lemma_first_in_bucket(infosets, class_ids, key, from + 1, index);
    }
}

/// Sorts the information sets of a report into classes. `class_ids[i]` is the
/// class of the hand of information set `i`, `weights[g]` the marginal weight
/// of group `g`.
pub fn bucket_infosets(
    report: &StrategyReport,
    class_ids: &Vec<HandClassId>,
    groups: &Table<Vec<u64>>,
    weights: &Vec<u64>,
) -> (result: Result<Vec<RangeBucket>, AggregateError>)
    requires
        class_ids@.len() == report.infosets@.len(),
        groups.wf(),
        weights@.len() == groups.entries@.len(),
        forall|g: int|
            0 <= g < groups.entries@.len() ==> (#[trigger] groups.entries@[g]).0.major < 2,
    ensures
        match members_error(report.infosets@, class_ids@, *groups, weights@, 0) {
            Some(error) => result == Err::<Vec<RangeBucket>, AggregateError>(error),
            None => result matches Ok(buckets) && buckets_ok(
                buckets@,
                report.infosets@,
                class_ids@,
                *groups,
                weights@,
            ),
        },
{
    let infosets = &report.infosets;
    let mut seen: Table<()> = Table::new();
    let mut combos: Table<()> = Table::new();
    let mut firsts: Table<usize> = Table::new();
    let mut list: Vec<(Key, usize)> = Vec::new();
    let mut index: usize = 0;
    while index < infosets.len()
        invariant
            infosets == report.infosets,
            index <= infosets@.len(),
            class_ids@.len() == infosets@.len(),
            groups.wf(),
            weights@.len() == groups.entries@.len(),
            forall|g: int|
                0 <= g < groups.entries@.len() ==> (#[trigger] groups.entries@[g]).0.major < 2,
            seen_ok(infosets@, class_ids@, index as int, seen, combos, firsts),
            list@ == bucket_list(infosets@, class_ids@, index as int),
            forall|i: int|
                0 <= i < index ==> (#[trigger] infosets@[i]).player < 2
                    && infosets@[i].private_hand is Some && weight_of(
                    *groups,
                    weights@,
                    infosets@[i].player,
                    infosets@[i].private_hand->Some_0,
                ) is Some,
            members_error(infosets@, class_ids@, *groups, weights@, 0) == members_error(
                infosets@,
                class_ids@,
                *groups,
                weights@,
                index as int,
            ),
        decreases infosets.len() - index,
    {
        let infoset = &infosets[index];
        let player = infoset.player;
        let class_id = class_ids[index];
        let hand = match infoset.private_hand {
            Some(hand) => hand,
            None => {
                return Err(AggregateError::NoPrivateHand);
            },
        };
        let ghost seen_before = seen@;
        let infoset_table_key = Key { major: player as u64, middle: infoset.infoset, minor: 0 };
        assert(infoset_table_key == infoset_key(player, infoset.infoset));
        if !seen.insert_new(infoset_table_key, ()) {
            return Err(
                AggregateError::DuplicateInfoSet { player, infoset: infoset.infoset },
            );
        }
        if find_weight(groups, weights, player, hand).is_none() {
            return Err(AggregateError::AbsentHand { player });
        }
        proof {
            let key = hand_key(player, hand);
            let i = choose|i: int|
                0 <= i < groups.entries@.len() && (#[trigger] groups.entries@[i]).0 == key;
            assert(groups.entries@[i].0.major < 2);
        }
        let (major, middle): (u64, u64) = match infoset.public_node {
            None => (2 * (player as u64), 0),
            Some(node) => (2 * (player as u64) + 1, node as u64),
        };
        let key = Key { major, middle, minor: class_id as u64 };
        assert(key == infoset_bucket(infosets@[index as int], class_ids@[index as int]));
        let ghost firsts_before = firsts@;
        let first = match firsts.find(key) {
            Place::Found(place) => firsts.entries[place].1,
            Place::Missing(place) => {
                proof {
                    lemma_first_in_bucket(infosets@, class_ids@, key, 0, index as int);
                }
                firsts.insert_at(place, key, index);
                index
            },
        };
        if !compare_actions(&infosets[first].actions, &infoset.actions) {
            return Err(
                AggregateError::InconsistentActions { player, public_node: infoset.public_node },
            );
        }
        let ghost combos_before = combos@;
        let combo_key = Key {
            major,
            middle,
            minor: 65536 * (class_id as u64) + 256 * (hand.first as u64) + hand.second as u64,
        };
        assert(combo_key == infoset_member(infosets@[index as int], class_ids@[index as int]));
        if !combos.insert_new(combo_key, ()) {
            return Err(
                AggregateError::DuplicateCombo { player, public_node: infoset.public_node },
            );
        }
        if !check_frequencies(&infoset.actions) {
            return Err(
                AggregateError::InvalidFrequency { player, infoset: infoset.infoset },
            );
        }
        list.push((key, index));
        proof {
            assert(list@ =~= bucket_list(infosets@, class_ids@, index as int + 1));
            lemma_seen_grows(
                infosets@,
                class_ids@,
                index as int,
                seen_before,
                seen,
                combos_before,
                combos,
                firsts_before,
                firsts,
            );
        }
        index = index + 1;
    }
    let table = group_items(&list);
    Ok(read_buckets(&table, report, class_ids, groups, weights))
}

proof fn lemma_seen_grows(
    infosets: Seq<InfoSetReport>,
    class_ids: Seq<HandClassId>,
    index: int,
    seen_before: Map<Key, ()>,
    seen: Table<()>,
    combos_before: Map<Key, ()>,
    combos: Table<()>,
    firsts_before: Map<Key, usize>,
    firsts: Table<usize>,
)
    requires
        0 <= index < infosets.len(),
        seen.wf() && combos.wf() && firsts.wf(),
        forall|key: Key| #[trigger]
            seen_before.dom().contains(key) <==> exists|j: int|
                0 <= j < index && infoset_key(
                    (#[trigger] infosets[j]).player,
                    infosets[j].infoset,
                ) == key,
        forall|key: Key| #[trigger]
            combos_before.dom().contains(key) <==> exists|j: int|
                0 <= j < index && infoset_member(#[trigger] infosets[j], class_ids[j]) == key,
        forall|key: Key| #[trigger]
            firsts_before.dom().contains(key) <==> exists|j: int|
                0 <= j < index && infoset_bucket(#[trigger] infosets[j], class_ids[j]) == key,
        forall|key: Key| #[trigger]
            firsts_before.dom().contains(key) ==> firsts_before[key] == first_in_bucket(
                infosets,
                class_ids,
                key,
                0,
            ) && firsts_before[key] < index,
        seen@ == seen_before.insert(infoset_key(infosets[index].player, infosets[index].infoset), ()),
        combos@ == combos_before.insert(infoset_member(infosets[index], class_ids[index]), ()),
        ({
            let key = infoset_bucket(infosets[index], class_ids[index]);
            if firsts_before.dom().contains(key) {
                firsts@ == firsts_before
            } else {
                &&& firsts@ == firsts_before.insert(key, index as usize)
                &&& index as usize == index
                &&& first_in_bucket(infosets, class_ids, key, 0) == index
            }
        }),
    ensures
        seen_ok(infosets, class_ids, index + 1, seen, combos, firsts),
{
    let here = infosets[index];
    assert forall|key: Key| #[trigger] seen@.dom().contains(key) <==> exists|j: int|
        0 <= j < index + 1 && infoset_key((#[trigger] infosets[j]).player, infosets[j].infoset)
            == key by {
        assert(seen@.dom().contains(key) <==> seen_before.dom().contains(key) || key
            == infoset_key(here.player, here.infoset));
        if key == infoset_key(here.player, here.infoset) {
            assert(infoset_key(infosets[index].player, infosets[index].infoset) == key);
        }
    }
    assert forall|key: Key| #[trigger] combos@.dom().contains(key) <==> exists|j: int|
        0 <= j < index + 1 && infoset_member(#[trigger] infosets[j], class_ids[j]) == key by {
        assert(combos@.dom().contains(key) <==> combos_before.dom().contains(key) || key
            == infoset_member(here, class_ids[index]));
        if key == infoset_member(here, class_ids[index]) {
            assert(infoset_member(infosets[index], class_ids[index]) == key);
        }
    }
    assert forall|key: Key| #[trigger] firsts@.dom().contains(key) <==> exists|j: int|
        0 <= j < index + 1 && infoset_bucket(#[trigger] infosets[j], class_ids[j]) == key by {
        assert(firsts@.dom().contains(key) <==> firsts_before.dom().contains(key) || key
            == infoset_bucket(here, class_ids[index]));
        if key == infoset_bucket(here, class_ids[index]) {
            assert(infoset_bucket(infosets[index], class_ids[index]) == key);
        }
    }
    assert forall|key: Key| #[trigger] firsts@.dom().contains(key) implies firsts@[key]
        == first_in_bucket(infosets, class_ids, key, 0) && firsts@[key] < index + 1 by {
        if firsts_before.dom().contains(key) {
            assert(firsts@[key] == firsts_before[key]);
        }
    }
}

proof fn lemma_items_are_members(
    infosets: Seq<InfoSetReport>,
    class_ids: Seq<HandClassId>,
    key: Key,
    count: int,
)
    requires
        0 <= count <= infosets.len(),
        infosets.len() <= usize::MAX,
    ensures
        forall|k: int|
            #![trigger items_of(bucket_list(infosets, class_ids, count), key)[k]]
            0 <= k < items_of(bucket_list(infosets, class_ids, count), key).len() ==> {
                let member = items_of(bucket_list(infosets, class_ids, count), key)[k];
                member < count && infoset_bucket(
                    infosets[member as int],
                    class_ids[member as int],
                ) == key
            },
    decreases count,
{
    let list = bucket_list(infosets, class_ids, count);
    if count > 0 {
        lemma_items_are_members(infosets, class_ids, key, count - 1);
        let rest = bucket_list(infosets, class_ids, count - 1);
        assert(list.drop_last() =~= rest);
        assert(list.last() == (
            infoset_bucket(infosets[count - 1], class_ids[count - 1]),
            (count - 1) as usize,
        ));
        assert forall|k: int|
            #![trigger items_of(list, key)[k]]
            0 <= k < items_of(list, key).len() implies {
            let member = items_of(list, key)[k];
            member < count && infoset_bucket(infosets[member as int], class_ids[member as int])
                == key
        } by {
            let before = items_of(rest, key);
            if k < before.len() {
                assert(items_of(list, key)[k] == before[k]);
            }
        }
    }
}

fn read_buckets(
    table: &Table<Vec<usize>>,
    report: &StrategyReport,
    class_ids: &Vec<HandClassId>,
    groups: &Table<Vec<u64>>,
    weights: &Vec<u64>,
) -> (buckets: Vec<RangeBucket>)
    requires
        class_ids@.len() == report.infosets@.len(),
        groups.wf(),
        weights@.len() == groups.entries@.len(),
        groups_of(
            *table,
            bucket_list(report.infosets@, class_ids@, report.infosets@.len() as int),
        ),
        forall|i: int|
            0 <= i < report.infosets@.len() ==> (#[trigger] report.infosets@[i]).player < 2
                && report.infosets@[i].private_hand is Some && weight_of(
                *groups,
                weights@,
                report.infosets@[i].player,
                report.infosets@[i].private_hand->Some_0,
            ) is Some,
    ensures
        buckets_ok(buckets@, report.infosets@, class_ids@, *groups, weights@),
{
    let infosets = &report.infosets;
    let ghost list = bucket_list(infosets@, class_ids@, infosets@.len() as int);
    let mut buckets: Vec<RangeBucket> = Vec::new();
    let mut index: usize = 0;
    while index < table.entries.len()
        invariant
            infosets == report.infosets,
            class_ids@.len() == infosets@.len(),
            groups.wf(),
            weights@.len() == groups.entries@.len(),
            list == bucket_list(infosets@, class_ids@, infosets@.len() as int),
            groups_of(*table, list),
            forall|i: int|
                0 <= i < infosets@.len() ==> (#[trigger] infosets@[i]).player < 2
                    && infosets@[i].private_hand is Some && weight_of(
                    *groups,
                    weights@,
                    infosets@[i].player,
                    infosets@[i].private_hand->Some_0,
                ) is Some,
            index <= table.entries@.len(),
            buckets@.len() == index,
            forall|b: int|
                0 <= b < index ==> bucket_ok(
                    #[trigger] buckets@[b],
                    infosets@,
                    class_ids@,
                    *groups,
                    weights@,
                ) && bucket_key(
                    buckets@[b].player,
                    buckets@[b].public_node,
                    buckets@[b].class_id,
                ) == table.entries@[b].0,
        decreases table.entries.len() - index,
    {
        let ghost key = table.entries@[index as int].0;
        proof {
            lemma_entry(*table, index as int);
            assert(table@.dom().contains(key));
            assert(infosets.len() == infosets@.len());
            lemma_items_are_members(infosets@, class_ids@, key, infosets@.len() as int);
        }
        let source = &table.entries[index].1;
        let ghost members_seq = items_of(list, key);
        assert(source@ == members_seq);
        let mut members: Vec<usize> = Vec::new();
        let mut member_weights: Vec<u64> = Vec::new();
        let mut k: usize = 0;
        while k < source.len()
            invariant
                infosets == report.infosets,
                class_ids@.len() == infosets@.len(),
                groups.wf(),
                weights@.len() == groups.entries@.len(),
                source@ == members_seq,
                forall|i: int|
                    0 <= i < infosets@.len() ==> (#[trigger] infosets@[i]).player < 2
                        && infosets@[i].private_hand is Some && weight_of(
                        *groups,
                        weights@,
                        infosets@[i].player,
                        infosets@[i].private_hand->Some_0,
                    ) is Some,
                forall|m: int|
                    0 <= m < members_seq.len() ==> (#[trigger] members_seq[m]) < infosets@.len()
                        && infoset_bucket(
                        infosets@[members_seq[m] as int],
                        class_ids@[members_seq[m] as int],
                    ) == key,
                k <= source@.len(),
                members@ == members_seq.take(k as int),
                member_weights@.len() == k,
                forall|m: int|
                    0 <= m < k ==> Some(#[trigger] member_weights@[m]) == weight_of(
                        *groups,
                        weights@,
                        infosets@[members_seq[m] as int].player,
                        infosets@[members_seq[m] as int].private_hand->Some_0,
                    ),
            decreases source.len() - k,
        {
            let member = source[k];
            assert(members_seq[k as int] < infosets@.len());
            let hand = match infosets[member].private_hand {
                Some(hand) => hand,
                None => Combo { first: 0, second: 0 },
            };
            assert(infosets@[member as int].private_hand is Some);
            let weight = match find_weight(groups, weights, infosets[member].player, hand) {
                Some(weight) => weight,
                None => 0,
            };
            members.push(member);
            member_weights.push(weight);
            assert(members@ =~= members_seq.take(k as int + 1));
            k = k + 1;
        }
        assert(members@ =~= members_seq);
        let first = members[0];
        assert(members_seq[0] < infosets@.len());
        let bucket = RangeBucket {
            player: infosets[first].player,
            public_node: infosets[first].public_node,
            class_id: class_ids[first],
            members,
            weights: member_weights,
        };
        buckets.push(bucket);
        proof {
            assert forall|m: int| 0 <= m < bucket.members@.len() implies (
            #[trigger] bucket.members@[m]) < infosets@.len() && infoset_bucket(
                infosets@[bucket.members@[m] as int],
                class_ids@[bucket.members@[m] as int],
            ) == key && Some(bucket.weights@[m]) == weight_of(
                *groups,
                weights@,
                infosets@[bucket.members@[m] as int].player,
                infosets@[bucket.members@[m] as int].private_hand->Some_0,
            ) by {
                assert(bucket.members@[m] == members_seq[m]);
            }
        }
        index = index + 1;
    }
    proof {
        assert forall|a: int, b: int| 0 <= a < b < buckets@.len() implies bucket_key(
            (#[trigger] buckets@[a]).player,
            buckets@[a].public_node,
            buckets@[a].class_id,
        ).below(
            bucket_key(
                (#[trigger] buckets@[b]).player,
                buckets@[b].public_node,
                buckets@[b].class_id,
            ),
        ) by {
            assert(table.entries@[a].0.below(table.entries@[b].0));
        }
        assert forall|i: int| 0 <= i < infosets@.len() implies has_bucket(
            buckets@,
            infoset_bucket(#[trigger] infosets@[i], class_ids@[i]),
        ) by {
            let key = infoset_bucket(infosets@[i], class_ids@[i]);
            lemma_listed(list, key, i);
            assert(table@.dom().contains(key));
            assert(table.has(key));
            let b = choose|b: int|
                0 <= b < table.entries@.len() && (#[trigger] table.entries@[b]).0 == key;
            assert(bucket_key(
                buckets@[b].player,
                buckets@[b].public_node,
                buckets@[b].class_id,
            ) == key);
        }
    }
    buckets
}

/// A key of the list has items.
proof fn lemma_listed(list: Seq<(Key, usize)>, key: Key, index: int)
    requires
        0 <= index < list.len(),
        list[index].0 == key,
    ensures
        items_of(list, key).len() > 0,
    decreases list.len(),
{
    if index < list.len() - 1 {
        lemma_listed(list.drop_last(), key, index);
    }
}

/// The numbers of an action of a class, as IEEE-754 bits. A value counts only
/// where some information set of the class has one.
#[derive(Debug, Clone, Copy, PartialEq, Eq, Structural)]
pub struct ActionValues {
    pub frequency: u64,
    pub counterfactual_ev: u64,
    pub ev_loss: u64,
}

/// The numbers of a class; numbers are IEEE-754 bits.
#[derive(Debug)]
pub struct BucketValues {
    pub marginal_weight: u64,
    pub actions: Vec<ActionValues>,
}

/// The bucket has members in the report, and each of them offers as many actions as
/// there are values.
pub open spec fn joinable(
    infosets: Seq<InfoSetReport>,
    bucket: RangeBucket,
    values: BucketValues,
) -> bool {
    &&& bucket.members@.len() > 0
    &&& forall|m: int|
        0 <= m < bucket.members@.len() ==> (#[trigger] bucket.members@[m]) < infosets.len()
            && infosets[bucket.members@[m] as int].actions@.len() == values.actions@.len()
}

/// Some member has a counterfactual value for action `a`.
pub open spec fn has_ev(infosets: Seq<InfoSetReport>, members: Seq<usize>, a: int) -> bool {
    exists|m: int|
        0 <= m < members.len() && infosets[(
        #[trigger] members[m]) as int].actions@[a].counterfactual_ev is Some
}

/// Some member has a loss for action `a`.
pub open spec fn has_loss(infosets: Seq<InfoSetReport>, members: Seq<usize>, a: int) -> bool {
    exists|m: int|
        0 <= m < members.len() && infosets[(#[trigger] members[m]) as int].actions@[a].ev_loss
            is Some
}

/// Action `a` of a class: the action of its first member, with the numbers of the
/// class.
pub open spec fn joined_action(
    infosets: Seq<InfoSetReport>,
    members: Seq<usize>,
    values: ActionValues,
    a: int,
) -> RangeActionReport {
    RangeActionReport {
        action: infosets[members[0] as int].actions@[a].action,
        frequency: values.frequency,
        counterfactual_ev: if has_ev(infosets, members, a) {
            Some(values.counterfactual_ev)
        } else {
            None
        },
        ev_loss: if has_loss(infosets, members, a) {
            Some(values.ev_loss)
        } else {
            None
        },
    }
}

fn join_action(
    report: &StrategyReport,
    bucket: &RangeBucket,
    values: &BucketValues,
    a: usize,
) -> (action: RangeActionReport)
    requires
        joinable(report.infosets@, *bucket, *values),
        a < values.actions@.len(),
    ensures
        action == joined_action(
            report.infosets@,
            bucket.members@,
            values.actions@[a as int],
            a as int,
        ),
{
    let ghost infosets = report.infosets@;
    let ghost members = bucket.members@;
    let mut ev = false;
    let mut loss = false;
    let mut index: usize = 0;
    while index < bucket.members.len()
        invariant
            index <= bucket.members@.len(),
            joinable(report.infosets@, *bucket, *values),
            a < values.actions@.len(),
            infosets == report.infosets@,
            members == bucket.members@,
            ev == has_ev(infosets, members.take(index as int), a as int),
            loss == has_loss(infosets, members.take(index as int), a as int),
        decreases bucket.members.len() - index,
    {
        let member = bucket.members[index];
        assert(members[index as int] < infosets.len());
        let entry = report.infosets[member].actions[a];
        let ghost before = members.take(index as int);
        let ghost now = members.take(index as int + 1);
        proof {
            assert(now =~= before.push(member));
            assert(now[index as int] == member);
            if has_ev(infosets, before, a as int) {
                let m = choose|m: int|
                    0 <= m < before.len() && infosets[(
                    #[trigger] before[m]) as int].actions@[a as int].counterfactual_ev is Some;
                assert(now[m] == before[m]);
            }
            if has_ev(infosets, now, a as int) {
                let m = choose|m: int|
                    0 <= m < now.len() && infosets[(
                    #[trigger] now[m]) as int].actions@[a as int].counterfactual_ev is Some;
                if m < index {
                    assert(before[m] == now[m]);
                }
            }
            if has_loss(infosets, before, a as int) {
                let m = choose|m: int|
                    0 <= m < before.len() && infosets[(
                    #[trigger] before[m]) as int].actions@[a as int].ev_loss is Some;
                assert(now[m] == before[m]);
            }
            if has_loss(infosets, now, a as int) {
                let m = choose|m: int|
                    0 <= m < now.len() && infosets[(
                    #[trigger] now[m]) as int].actions@[a as int].ev_loss is Some;
                if m < index {
                    assert(before[m] == now[m]);
                }
            }
        }
        if entry.counterfactual_ev.is_some() {
            ev = true;
        }
        if entry.ev_loss.is_some() {
            loss = true;
        }
        index = index + 1;
    }
    assert(members.take(index as int) =~= members);
    assert(members[0] < infosets.len());
    let numbers = values.actions[a];
    RangeActionReport {
        action: report.infosets[bucket.members[0]].actions[a].action,
        frequency: numbers.frequency,
        counterfactual_ev: if ev {
            Some(numbers.counterfactual_ev)
        } else {
            None
        },
        ev_loss: if loss {
            Some(numbers.ev_loss)
        } else {
            None
        },
    }
}

/// The actions of a class.
pub open spec fn joined_actions(
    infosets: Seq<InfoSetReport>,
    members: Seq<usize>,
    values: Seq<ActionValues>,
) -> Seq<RangeActionReport> {
    Seq::new(values.len(), |a: int| joined_action(infosets, members, values[a], a))
}

/// Joins the classes of a report with their numbers; a class without weight is
/// left out. The actions are those that the members of the class offer in the
/// report.
pub fn aggregate_strategy_report_by_deals(
    report: &StrategyReport,
    buckets: &Vec<RangeBucket>,
    values: &Vec<BucketValues>,
) -> (ranges: RangeStrategyReport)
    requires
        values@.len() == buckets@.len(),
        forall|b: int|
            0 <= b < buckets@.len() ==> joinable(
                report.infosets@,
                #[trigger] buckets@[b],
                values@[b],
            ),
    ensures
        ranges.algorithm == report.algorithm,
        ranges.iterations == report.iterations,
        ranges.average_utility == report.average_utility,
        classes_joined(
            ranges.classes@,
            report.infosets@,
            buckets@,
            values@,
            buckets@.len() as int,
        ),
{
    let mut classes: Vec<RangeClassReport> = Vec::new();
    let mut index: usize = 0;
    while index < buckets.len()
        invariant
            index <= buckets@.len(),
            values@.len() == buckets@.len(),
            forall|b: int|
                0 <= b < buckets@.len() ==> joinable(
                    report.infosets@,
                    #[trigger] buckets@[b],
                    values@[b],
                ),
            classes_joined(classes@, report.infosets@, buckets@, values@, index as int),
        decreases buckets.len() - index,
    {
        let bucket = &buckets[index];
        if is_above_zero(values[index].marginal_weight) {
            let numbers = &values[index];
            let ghost wanted = joined_actions(
                report.infosets@,
                bucket.members@,
                numbers.actions@,
            );
            let mut actions: Vec<RangeActionReport> = Vec::new();
            let mut a: usize = 0;
            while a < numbers.actions.len()
                invariant
                    a <= numbers.actions@.len(),
                    joinable(report.infosets@, *bucket, *numbers),
                    wanted == joined_actions(
                        report.infosets@,
                        bucket.members@,
                        numbers.actions@,
                    ),
                    actions@ == wanted.take(a as int),
                decreases numbers.actions.len() - a,
            {
                actions.push(join_action(report, bucket, numbers, a));
                a = a + 1;
                assert(actions@ =~= wanted.take(a as int));
            }
            assert(actions@ =~= wanted);
            let ghost before = classes@;
            classes.push(
                RangeClassReport {
                    player: bucket.player,
                    public_node: bucket.public_node,
                    class_id: bucket.class_id,
                    combo_count: bucket.members.len(),
                    marginal_weight: values[index].marginal_weight,
                    actions,
                },
            );
            assert(classes@.drop_last() =~= before);
        }
        index = index + 1;
    }
    RangeStrategyReport {
        algorithm: report.algorithm,
        iterations: report.iterations,
        average_utility: report.average_utility,
        classes,
    }
}

/// The classes are the first `count` buckets that have weight, in their order.
pub open spec fn classes_joined(
    classes: Seq<RangeClassReport>,
    infosets: Seq<InfoSetReport>,
    buckets: Seq<RangeBucket>,
    values: Seq<BucketValues>,
    count: int,
) -> bool
    decreases count,
{
    if count <= 0 {
        classes.len() == 0
    } else if above_zero(values[count - 1].marginal_weight) {
        let class = classes.last();
        let bucket = buckets[count - 1];
        &&& classes.len() > 0
        &&& class.player == bucket.player
        &&& class.public_node == bucket.public_node
        &&& class.class_id == bucket.class_id
        &&& class.combo_count == bucket.members@.len()
        &&& class.marginal_weight == values[count - 1].marginal_weight
        &&& class.actions@ == joined_actions(
            infosets,
            bucket.members@,
            values[count - 1].actions@,
        )
        &&& classes_joined(classes.drop_last(), infosets, buckets, values, count - 1)
    } else {
        classes_joined(classes, infosets, buckets, values, count - 1)
    }
}

proof fn lemma_no_member_error(
    infosets: Seq<InfoSetReport>,
    class_ids: Seq<HandClassId>,
    groups: Table<Vec<u64>>,
    weights: Seq<u64>,
    from: int,
    index: int,
)
    requires
        members_error(infosets, class_ids, groups, weights, from) is None,
        0 <= from <= index < infosets.len(),
    ensures
        member_error(infosets, class_ids, groups, weights, index) is None,
    decreases index - from,
{
    if from < index {
        lemma_no_member_error(infosets, class_ids, groups, weights, from + 1, index);
    }
}

/// The members of a class offer the same actions, so that those of the first stand
/// for all.
pub proof fn lemma_members_offer_the_same_actions(
    buckets: Seq<RangeBucket>,
    infosets: Seq<InfoSetReport>,
    class_ids: Seq<HandClassId>,
    groups: Table<Vec<u64>>,
    weights: Seq<u64>,
    b: int,
    m: int,
)
    requires
        members_error(infosets, class_ids, groups, weights, 0) is None,
        buckets_ok(buckets, infosets, class_ids, groups, weights),
        0 <= b < buckets.len(),
        0 <= m < buckets[b].members@.len(),
    ensures
        buckets[b].members@[m] < infosets.len(),
        same_action_list(
            infosets[buckets[b].members@[0] as int].actions@,
            infosets[buckets[b].members@[m] as int].actions@,
        ),
{
    let bucket = buckets[b];
    assert(bucket_ok(bucket, infosets, class_ids, groups, weights));
    let first = bucket.members@[0] as int;
    let other = bucket.members@[m] as int;
    assert(bucket.members@[0] < infosets.len());
    lemma_no_member_error(infosets, class_ids, groups, weights, 0, first);
    lemma_no_member_error(infosets, class_ids, groups, weights, 0, other);
    let key = bucket_key(bucket.player, bucket.public_node, bucket.class_id);
    let lead = infosets[first_in_bucket(infosets, class_ids, key, 0)].actions@;
    assert(same_action_list(lead, infosets[first].actions@));
    assert(same_action_list(lead, infosets[other].actions@));
    assert forall|a: int| 0 <= a < infosets[first].actions@.len() implies (
    #[trigger] infosets[first].actions@[a]).action == infosets[other].actions@[a].action by {
        assert(lead[a].action == infosets[first].actions@[a].action);
        assert(lead[a].action == infosets[other].actions@[a].action);
    }
}

} // verus!
