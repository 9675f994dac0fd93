//! Card abstraction of a public tree.
//!
//! At a chance node the outcomes are grouped by the bucket of the board that
//! they lead to. One outcome of each group stays in the tree for all of them;
//! the subtrees of the others are dropped.
use vstd::prelude::*;

use crate::domain::Street;
use crate::tree::{ChanceNodeSpec, ChanceOutcome};

verus! {

/// How boards are told apart: by structure, or by equity as well.
#[derive(Debug, Clone, Copy, PartialEq, Eq, Structural)]
pub enum CardAbstractionMode {
    Structure,
    Equity,
}

/// How fine the buckets are.
#[derive(Debug, Clone, Copy, PartialEq, Eq, Structural)]
pub enum Granularity {
    Coarse,
    Medium,
    Fine,
}

/// What abstraction is asked for. There is no default: the caller chooses.
#[derive(Debug, Clone, Copy, PartialEq, Eq, Structural)]
pub struct CardAbstractionSpec {
    pub mode: CardAbstractionMode,
    pub granularity: Granularity,
    /// Number of quantile groups, for the mode by equity.
    pub equity_groups: usize,
}

#[derive(Debug, Clone, Copy, PartialEq, Eq, Structural)]
pub enum AbstractionError {
    TooFewEquityGroups { groups: usize },
    UnknownNode { node: usize },
    LeadsToPreflop { node: usize },
}

impl CardAbstractionSpec {
    pub fn structural(granularity: Granularity) -> (spec: Self)
        ensures
            spec == (CardAbstractionSpec {
                mode: CardAbstractionMode::Structure,
                granularity,
                equity_groups: 4,
            }),
    {
        CardAbstractionSpec {
            mode: CardAbstractionMode::Structure,
            granularity,
            equity_groups: 4,
        }
    }

    pub fn equity(granularity: Granularity, equity_groups: usize) -> (spec: Self)
        ensures
            spec == (CardAbstractionSpec {
                mode: CardAbstractionMode::Equity,
                granularity,
                equity_groups,
            }),
    {
        CardAbstractionSpec { mode: CardAbstractionMode::Equity, granularity, equity_groups }
    }

    /// Groups by equity need at least two quantiles.
    pub fn check(&self) -> (result: Result<(), AbstractionError>)
        ensures
            if self.mode == CardAbstractionMode::Equity && self.equity_groups < 2 {
                result == Err::<(), AbstractionError>(
                    AbstractionError::TooFewEquityGroups { groups: self.equity_groups },
                )
            } else {
                result is Ok
            },
    {
        match self.mode {
            CardAbstractionMode::Equity => {
                if self.equity_groups < 2 {
                    return Err(
                        AbstractionError::TooFewEquityGroups { groups: self.equity_groups },
                    );
                }
                Ok(())
            },
            CardAbstractionMode::Structure => Ok(()),
        }
    }
}

/// The cards with `card` put before the first that is lower.
pub open spec fn placed(cards: Seq<u8>, card: u8) -> Seq<u8>
    decreases cards.len(),
{
    if cards.len() == 0 {
        seq![card]
    } else if cards.last() < card {
        placed(cards.drop_last(), card).push(cards.last())
    } else {
        cards.push(card)
    }
}

/// The cards from the highest to the lowest.
pub open spec fn descending(cards: Seq<u8>) -> Seq<u8>
    decreases cards.len(),
{
    if cards.len() == 0 {
        Seq::empty()
    } else {
        placed(descending(cards.drop_last()), cards.last())
    }
}

pub open spec fn falls(cards: Seq<u8>) -> bool {
    forall|i: int, j: int| 0 <= i < j < cards.len() ==> cards[i] >= cards[j]
}

proof fn lemma_placed(cards: Seq<u8>, card: u8)
    requires
        falls(cards),
    ensures
        falls(placed(cards, card)),
        placed(cards, card).len() == cards.len() + 1,
        placed(cards, card).to_multiset() == cards.to_multiset().insert(card),
        forall|x: u8| placed(cards, card).contains(x) ==> x == card || cards.contains(x),
    decreases cards.len(),
{
    broadcast use vstd::seq_lib::group_to_multiset_ensures;

    if cards.len() == 0 {
        assert(seq![card] =~= cards.push(card));
    } else if cards.last() < card {
        let rest = cards.drop_last();
        lemma_placed(rest, card);
        let inner = placed(rest, card);
        let last = cards.last();
        assert(cards =~= rest.push(last));
        assert forall|i: int, j: int| 0 <= i < j < inner.push(last).len() implies inner.push(
            last,
        )[i] >= inner.push(last)[j] by {
            if j == inner.len() {
                let x = inner[i];
                assert(inner.contains(x));
                if x != card {
                    assert(rest.contains(x));
                    let k = choose|k: int| 0 <= k < rest.len() && rest[k] == x;
                    assert(cards[k] == x);
                }
            }
        }
        assert forall|x: u8| inner.push(last).contains(x) implies x == card || cards.contains(x) by {
            let k = choose|k: int| 0 <= k < inner.push(last).len() && inner.push(last)[k] == x;
            if k < inner.len() {
                assert(inner.contains(x));
                if x != card {
                    assert(rest.contains(x));
                    let m = choose|m: int| 0 <= m < rest.len() && rest[m] == x;
                    assert(cards[m] == x);
                }
            } else {
                assert(cards[cards.len() - 1] == x);
            }
        }
        assert(inner.push(last).to_multiset() =~= cards.to_multiset().insert(card)) by {
            assert(inner.push(last).to_multiset() =~= inner.to_multiset().insert(last));
            assert(rest.push(last).to_multiset() =~= rest.to_multiset().insert(last));
        }
    } else {
        let more = cards.push(card);
        assert forall|i: int, j: int| 0 <= i < j < more.len() implies more[i] >= more[j] by {
            if j == cards.len() && i < cards.len() - 1 {
                assert(cards[i] >= cards[cards.len() - 1]);
            }
        }
        assert forall|x: u8| more.contains(x) implies x == card || cards.contains(x) by {
            let k = choose|k: int| 0 <= k < more.len() && more[k] == x;
            if k < cards.len() {
                assert(cards[k] == x);
            }
        }
    }
}

/// Sorting puts the same cards from the highest to the lowest.
pub proof fn lemma_descending_sorts(cards: Seq<u8>)
    ensures
        falls(descending(cards)),
        descending(cards).len() == cards.len(),
        descending(cards).to_multiset() == cards.to_multiset(),
    decreases cards.len(),
{
    broadcast use vstd::seq_lib::group_to_multiset_ensures;

    if cards.len() > 0 {
        lemma_descending_sorts(cards.drop_last());
        lemma_placed(descending(cards.drop_last()), cards.last());
        assert(cards =~= cards.drop_last().push(cards.last()));
    } else {
        assert(descending(cards) =~= cards);
    }
}

/// Sorts cards from the highest to the lowest.
pub fn sorted_desc(cards: &Vec<u8>) -> (sorted: Vec<u8>)
    ensures
        sorted@ == descending(cards@),
{
    let mut sorted: Vec<u8> = Vec::new();
    let mut index: usize = 0;
    assert(cards@.take(0) =~= Seq::<u8>::empty());
    while index < cards.len()
        invariant
            index <= cards@.len(),
            sorted@ == descending(cards@.take(index as int)),
        decreases cards.len() - index,
    {
        let card = cards[index];
        proof {
            assert(cards@.take(index as int + 1).drop_last() =~= cards@.take(index as int));
            lemma_descending_sorts(cards@.take(index as int));
        }
        place(&mut sorted, card);
        index = index + 1;
    }
    assert(cards@.take(index as int) =~= cards@);
    sorted
}

fn place(sorted: &mut Vec<u8>, card: u8)
    requires
        falls(old(sorted)@),
    ensures
        final(sorted)@ == placed(old(sorted)@, card),
{
    let ghost start = sorted@;
    let mut at: usize = sorted.len();
    assert(start.skip(start.len() as int) =~= Seq::<u8>::empty());
    assert(start.take(start.len() as int) =~= start);
    assert(placed(start, card) =~= placed(start.take(at as int), card) + start.skip(at as int));
    while at > 0 && sorted[at - 1] < card
        invariant
            at <= sorted@.len(),
            sorted@ == start,
            placed(start, card) == placed(start.take(at as int), card) + start.skip(at as int),
        decreases at,
    {
        proof {
            let front = start.take(at as int);
            assert(front.last() == start[at - 1]);
            assert(front.drop_last() =~= start.take(at - 1));
            assert(placed(front, card) == placed(start.take(at - 1), card).push(start[at - 1]));
            assert(placed(front, card) + start.skip(at as int) =~= placed(
                start.take(at - 1),
                card,
            ) + start.skip(at - 1));
        }
        at = at - 1;
    }
    proof {
        let front = start.take(at as int);
        if at > 0 {
            assert(front.last() == start[at - 1]);
        }
        assert(placed(front, card) =~= front.push(card));
    }
    sorted.insert(at, card);
    assert(sorted@ =~= start.take(at as int).push(card) + start.skip(at as int));
}

/// Card lists in the order of their cards.
pub open spec fn cards_below(left: Seq<u8>, right: Seq<u8>) -> bool
    decreases left.len(),
{
    if right.len() == 0 {
        false
    } else if left.len() == 0 {
        true
    } else if left[0] != right[0] {
        left[0] < right[0]
    } else {
        cards_below(left.skip(1), right.skip(1))
    }
}

fn is_cards_below(left: &Vec<u8>, right: &Vec<u8>) -> (yes: bool)
    ensures
        yes == cards_below(left@, right@),
{
    let mut index: usize = 0;
    assert(left@.skip(0) =~= left@);
    assert(right@.skip(0) =~= right@);
    while index < left.len() && index < right.len()
        invariant
            index <= left@.len(),
            index <= right@.len(),
            cards_below(left@, right@) == cards_below(
                left@.skip(index as int),
                right@.skip(index as int),
            ),
        decreases left.len() - index,
    {
        if left[index] != right[index] {
            return left[index] < right[index];
        }
        assert(left@.skip(index as int).skip(1) =~= left@.skip(index as int + 1));
        assert(right@.skip(index as int).skip(1) =~= right@.skip(index as int + 1));
        index = index + 1;
    }
    index < right.len()
}

/// The cards of an outcome go before those of another.
pub open spec fn goes_before(outcomes: Seq<ChanceOutcome>, left: int, right: int) -> bool {
    cards_below(descending(outcomes[left].cards@), descending(outcomes[right].cards@))
}

/// The outcomes of one bucket: which they are, and which one stays.
#[derive(Debug, Clone)]
pub struct ChanceGrouping {
    pub rep_index: usize,
    pub bucket: usize,
    pub members: Vec<usize>,
}

/// The first `count` positions that have a bucket.
pub open spec fn positions_of(buckets: Seq<usize>, bucket: usize, count: int) -> Seq<usize>
    decreases count,
{
    if count <= 0 {
        Seq::empty()
    } else if buckets[count - 1] == bucket {
        positions_of(buckets, bucket, count - 1).push((count - 1) as usize)
    } else {
        positions_of(buckets, bucket, count - 1)
    }
}

/// The earliest of the members that no other goes before.
pub open spec fn representative(
    outcomes: Seq<ChanceOutcome>,
    members: Seq<usize>,
    count: int,
) -> usize
    decreases count,
{
    if count <= 1 {
        members[0]
    } else {
        let before = representative(outcomes, members, count - 1);
        if goes_before(outcomes, members[count - 1] as int, before as int) {
            members[count - 1]
        } else {
            before
        }
    }
}

pub open spec fn group_ok(
    group: ChanceGrouping,
    outcomes: Seq<ChanceOutcome>,
    buckets: Seq<usize>,
    count: int,
) -> bool {
    &&& group.members@.len() > 0
    &&& group.members@ == positions_of(buckets, group.bucket, count)
    &&& group.rep_index == representative(
        outcomes,
        group.members@,
        group.members@.len() as int,
    )
    &&& group.rep_index < count
}

/// The groups of the first `count` outcomes, by the place of their first.
pub open spec fn groups_ok(
    groups: Seq<ChanceGrouping>,
    outcomes: Seq<ChanceOutcome>,
    buckets: Seq<usize>,
    count: int,
) -> bool {
    &&& forall|g: int|
        0 <= g < groups.len() ==> group_ok(#[trigger] groups[g], outcomes, buckets, count)
    &&& forall|g: int, h: int|
        0 <= g < h < groups.len() ==> (#[trigger] groups[g]).members@[0] < (
        #[trigger] groups[h]).members@[0]
    &&& forall|g: int, h: int|
        0 <= g < h < groups.len() ==> (#[trigger] groups[g]).bucket != (#[trigger] groups[h]).bucket
    &&& forall|i: int| 0 <= i < count ==> has_group(groups, #[trigger] buckets[i])
}

pub open spec fn has_group(groups: Seq<ChanceGrouping>, bucket: usize) -> bool {
    exists|g: int| 0 <= g < groups.len() && (#[trigger] groups[g]).bucket == bucket
}

fn find_group(groups: &Vec<ChanceGrouping>, bucket: usize) -> (found: Option<usize>)
    ensures
        match found {
            Some(index) => index < groups@.len() && groups@[index as int].bucket == bucket,
            None => !has_group(groups@, bucket),
        },
{
    let mut index: usize = 0;
    while index < groups.len()
        invariant
            index <= groups@.len(),
            forall|g: int| 0 <= g < index ==> (#[trigger] groups@[g]).bucket != bucket,
        decreases groups.len() - index,
    {
        if groups[index].bucket == bucket {
            return Some(index);
        }
        index = index + 1;
    }
    None
}

proof fn lemma_positions(buckets: Seq<usize>, bucket: usize, count: int)
    requires
        0 <= count <= buckets.len(),
        buckets.len() <= usize::MAX,
    ensures
        forall|k: int|
            #![trigger positions_of(buckets, bucket, count)[k]]
            0 <= k < positions_of(buckets, bucket, count).len() ==> positions_of(
                buckets,
                bucket,
                count,
            )[k] < count && buckets[positions_of(buckets, bucket, count)[k] as int] == bucket,
        positions_of(buckets, bucket, count).len() == 0 <==> forall|i: int|
            0 <= i < count ==> (#[trigger] buckets[i]) != bucket,
    decreases count,
{
    if count > 0 {
        lemma_positions(buckets, bucket, count - 1);
        let before = positions_of(buckets, bucket, count - 1);
        let now = positions_of(buckets, bucket, count);
        assert forall|k: int|
            #![trigger positions_of(buckets, bucket, count)[k]]
            0 <= k < now.len() implies now[k] < count && buckets[now[k] as int] == bucket by {
            if k < before.len() {
                assert(now[k] == before[k]);
            }
        }
        if now.len() == 0 {
            assert(buckets[count - 1] != bucket);
        } else if before.len() == 0 {
            assert(buckets[count - 1] == bucket);
        }
        if before.len() > 0 {
            assert(buckets[before[0] as int] == bucket);
        }
    }
}

proof fn lemma_representative_prefix(
    outcomes: Seq<ChanceOutcome>,
    short: Seq<usize>,
    long: Seq<usize>,
    count: int,
)
    requires
        0 < count <= short.len(),
        short.len() <= long.len(),
        long.take(short.len() as int) == short,
    ensures
        representative(outcomes, short, count) == representative(outcomes, long, count),
    decreases count,
{
    assert(long[0] == long.take(short.len() as int)[0]);
    if count > 1 {
        assert(long[count - 1] == long.take(short.len() as int)[count - 1]);
        lemma_representative_prefix(outcomes, short, long, count - 1);
    }
}

/// Groups the outcomes of a chance node. `buckets[i]` is the bucket of the board
/// that outcome `i` leads to.
pub fn group_outcomes(chance: &ChanceNodeSpec, buckets: &Vec<usize>) -> (groups: Vec<
    ChanceGrouping,
>)
    requires
        buckets@.len() == chance.outcomes@.len(),
    ensures
        groups_ok(groups@, chance.outcomes@, buckets@, buckets@.len() as int),
{
    let outcomes = &chance.outcomes;
    let mut groups: Vec<ChanceGrouping> = Vec::new();
    let mut index: usize = 0;
    while index < outcomes.len()
        invariant
            outcomes == chance.outcomes,
            index <= outcomes@.len(),
            buckets@.len() == outcomes@.len(),
            groups_ok(groups@, outcomes@, buckets@, index as int),
        decreases outcomes.len() - index,
    {
        let bucket = buckets[index];
        let ghost before = groups@;
        proof {
            assert(buckets.len() == buckets@.len());
            assert forall|g: int| 0 <= g < before.len() implies (
            #[trigger] before[g]).members@[0] < index by {
                assert(group_ok(before[g], outcomes@, buckets@, index as int));
                lemma_positions(buckets@, before[g].bucket, index as int);
                assert(positions_of(buckets@, before[g].bucket, index as int)[0] < index);
            }
        }
        match find_group(&groups, bucket) {
            None => {
                let members = vec![index];
                assert(members@ =~= seq![index]);
                proof {
                    lemma_positions(buckets@, bucket, index as int);
                    assert forall|i: int| 0 <= i < index implies (#[trigger] buckets@[i])
                        != bucket by {
                        assert(has_group(before, buckets@[i]));
                    }
                    assert(positions_of(buckets@, bucket, index as int) =~= Seq::<usize>::empty());
                    assert(positions_of(buckets@, bucket, index as int + 1) =~= seq![index]);
                }
                groups.push(ChanceGrouping { rep_index: index, bucket, members });
                proof {
                    lemma_group_added(before, groups@, outcomes@, buckets@, index as int);
                }
            },
            Some(at) => {
                let rep = groups[at].rep_index;
                assert(group_ok(before[at as int], outcomes@, buckets@, index as int));
                let here = sorted_desc(&outcomes[index].cards);
                let there = sorted_desc(&outcomes[rep].cards);
                let replace = is_cards_below(&here, &there);
                let mut members: Vec<usize> = Vec::new();
                std::mem::swap(&mut members, &mut groups[at].members);
                let ghost old_members = members@;
                members.push(index);
                let new_rep = if replace {
                    index
                } else {
                    rep
                };
                groups[at] = ChanceGrouping { rep_index: new_rep, bucket, members };
                proof {
                    assert(members@.take(old_members.len() as int) =~= old_members);
                    lemma_representative_prefix(
                        outcomes@,
                        old_members,
                        members@,
                        old_members.len() as int,
                    );
                    assert(groups@ =~= before.update(at as int, groups@[at as int]));
                    lemma_group_joined(before, groups@, outcomes@, buckets@, index as int, at as int);
                }
            },
        }
        index = index + 1;
    }
    groups
}

proof fn lemma_group_added(
    before: Seq<ChanceGrouping>,
    after: Seq<ChanceGrouping>,
    outcomes: Seq<ChanceOutcome>,
    buckets: Seq<usize>,
    index: int,
)
    requires
        groups_ok(before, outcomes, buckets, index),
        0 <= index < buckets.len(),
        buckets.len() <= usize::MAX,
        !has_group(before, buckets[index]),
        forall|g: int| 0 <= g < before.len() ==> (#[trigger] before[g]).members@[0] < index,
        after.len() == before.len() + 1,
        forall|g: int| 0 <= g < before.len() ==> #[trigger] after[g] == before[g],
        after.last().bucket == buckets[index],
        after.last().members@ == seq![index as usize],
        after.last().rep_index == index,
        positions_of(buckets, buckets[index], index + 1) == seq![index as usize],
    ensures
        groups_ok(after, outcomes, buckets, index + 1),
{
    assert forall|g: int| 0 <= g < after.len() implies group_ok(
        #[trigger] after[g],
        outcomes,
        buckets,
        index + 1,
    ) by {
        if g < before.len() {
            assert(after[g] == before[g]);
            assert(group_ok(before[g], outcomes, buckets, index));
            assert(before[g].bucket != buckets[index]);
        }
    }
    assert forall|g: int, h: int| 0 <= g < h < after.len() implies (#[trigger] after[g]).members@[0]
        < (#[trigger] after[h]).members@[0] by {
        assert(after[g] == before[g]);
        if h < before.len() {
            assert(after[h] == before[h]);
        }
    }
    assert forall|g: int, h: int| 0 <= g < h < after.len() implies (#[trigger] after[g]).bucket != (
    #[trigger] after[h]).bucket by {
        assert(after[g] == before[g]);
        if h < before.len() {
            assert(after[h] == before[h]);
        }
    }
    assert forall|i: int| 0 <= i < index + 1 implies has_group(after, #[trigger] buckets[i]) by {
        if i < index {
            assert(has_group(before, buckets[i]));
            let g = choose|g: int| 0 <= g < before.len() && (#[trigger] before[g]).bucket == buckets[i];
            assert(after[g].bucket == buckets[i]);
        } else {
            assert(after[before.len() as int].bucket == buckets[i]);
        }
    }
}

proof fn lemma_group_joined(
    before: Seq<ChanceGrouping>,
    after: Seq<ChanceGrouping>,
    outcomes: Seq<ChanceOutcome>,
    buckets: Seq<usize>,
    index: int,
    at: int,
)
    requires
        groups_ok(before, outcomes, buckets, index),
        0 <= index < buckets.len(),
        buckets.len() <= usize::MAX,
        0 <= at < before.len(),
        before[at].bucket == buckets[index],
        after == before.update(at, after[at]),
        after[at].bucket == buckets[index],
        after[at].members@ == before[at].members@.push(index as usize),
        after[at].rep_index == representative(
            outcomes,
            after[at].members@,
            after[at].members@.len() as int,
        ),
        after[at].rep_index <= index,
    ensures
        groups_ok(after, outcomes, buckets, index + 1),
{
    assert forall|g: int| 0 <= g < after.len() implies group_ok(
        #[trigger] after[g],
        outcomes,
        buckets,
        index + 1,
    ) by {
        assert(group_ok(before[g], outcomes, buckets, index));
        if g < at {
            assert(before[g].bucket != before[at].bucket);
        } else if g > at {
            assert(before[at].bucket != before[g].bucket);
        }
    }
    assert forall|g: int, h: int| 0 <= g < h < after.len() implies (#[trigger] after[g]).members@[0]
        < (#[trigger] after[h]).members@[0] by {
        assert(group_ok(before[at], outcomes, buckets, index));
        assert(after[at].members@[0] == before[at].members@[0]);
        assert(before[g].members@[0] < before[h].members@[0]);
    }
    assert forall|g: int, h: int| 0 <= g < h < after.len() implies (#[trigger] after[g]).bucket != (
    #[trigger] after[h]).bucket by {
        assert(before[g].bucket != before[h].bucket);
    }
    assert forall|i: int| 0 <= i < index + 1 implies has_group(after, #[trigger] buckets[i]) by {
        if i < index {
            assert(has_group(before, buckets[i]));
            let g = choose|g: int| 0 <= g < before.len() && (#[trigger] before[g]).bucket == buckets[i];
            assert(after[g].bucket == buckets[i]);
        } else {
            assert(after[at].bucket == buckets[i]);
        }
    }
}

/// Every outcome lies in exactly one group, and the one that stays for a group
/// is a member that no member goes before.
pub proof fn lemma_groups_partition_the_outcomes(
    groups: Seq<ChanceGrouping>,
    outcomes: Seq<ChanceOutcome>,
    buckets: Seq<usize>,
    index: usize,
)
    requires
        buckets.len() == outcomes.len(),
        buckets.len() <= usize::MAX,
        groups_ok(groups, outcomes, buckets, buckets.len() as int),
        index < buckets.len(),
    ensures
        exists|g: int| 0 <= g < groups.len() && (#[trigger] groups[g]).members@.contains(index),
        forall|g: int, h: int|
            0 <= g < groups.len() && 0 <= h < groups.len() && (
            #[trigger] groups[g]).members@.contains(index) && (
            #[trigger] groups[h]).members@.contains(index) ==> g == h,
{
    let count = buckets.len() as int;
    assert(has_group(groups, buckets[index as int]));
    let g = choose|g: int|
        0 <= g < groups.len() && (#[trigger] groups[g]).bucket == buckets[index as int];
    assert(group_ok(groups[g], outcomes, buckets, count));
    lemma_position_listed(buckets, buckets[index as int], count, index as int);
    assert(groups[g].members@.contains(index));
    assert forall|a: int, b: int|
        0 <= a < groups.len() && 0 <= b < groups.len() && (
        #[trigger] groups[a]).members@.contains(index) && (
        #[trigger] groups[b]).members@.contains(index) implies a == b by {
        assert(group_ok(groups[a], outcomes, buckets, count));
        assert(group_ok(groups[b], outcomes, buckets, count));
        lemma_positions(buckets, groups[a].bucket, count);
        lemma_positions(buckets, groups[b].bucket, count);
        let i = choose|i: int|
            0 <= i < groups[a].members@.len() && groups[a].members@[i] == index;
        let j = choose|j: int|
            0 <= j < groups[b].members@.len() && groups[b].members@[j] == index;
        assert(positions_of(buckets, groups[a].bucket, count)[i] == index);
        assert(positions_of(buckets, groups[b].bucket, count)[j] == index);
        if a < b {
            assert(groups[a].bucket != groups[b].bucket);
        } else if b < a {
            assert(groups[b].bucket != groups[a].bucket);
        }
    }
}

proof fn lemma_position_listed(buckets: Seq<usize>, bucket: usize, count: int, index: int)
    requires
        0 <= index < count <= buckets.len(),
        buckets.len() <= usize::MAX,
        buckets[index] == bucket,
    ensures
        positions_of(buckets, bucket, count).contains(index as usize),
    decreases count,
{
    let now = positions_of(buckets, bucket, count);
    if index == count - 1 {
        assert(now[now.len() - 1] == index as usize);
    } else {
        lemma_position_listed(buckets, bucket, count - 1, index);
        let before = positions_of(buckets, bucket, count - 1);
        let k = choose|k: int| 0 <= k < before.len() && before[k] == index as usize;
        assert(now[k] == index as usize);
    }
}

proof fn lemma_cards_order(a: Seq<u8>, b: Seq<u8>, c: Seq<u8>)
    ensures
        !cards_below(a, a),
        cards_below(a, b) ==> !cards_below(b, a),
        !cards_below(b, a) && !cards_below(c, b) ==> !cards_below(c, a),
    decreases a.len() + b.len() + c.len(),
{
    if a.len() > 0 && b.len() > 0 && c.len() > 0 {
        lemma_cards_order(a.skip(1), b.skip(1), c.skip(1));
    } else if a.len() > 0 && b.len() > 0 {
        lemma_cards_order(a.skip(1), b.skip(1), c);
    } else if a.len() > 0 {
        lemma_cards_order(a.skip(1), b, c);
    }
}

/// The outcome that stays for a group is one of its members, and no member has
/// lower cards.
pub proof fn lemma_representative_is_lowest(
    outcomes: Seq<ChanceOutcome>,
    members: Seq<usize>,
    count: int,
)
    requires
        0 < count <= members.len(),
    ensures
        members.contains(representative(outcomes, members, count)),
        forall|k: int|
            0 <= k < count ==> !goes_before(
                outcomes,
                #[trigger] members[k] as int,
                representative(outcomes, members, count) as int,
            ),
    decreases count,
{
    let rep = representative(outcomes, members, count);
    if count == 1 {
        assert(members[0] == rep);
        lemma_cards_order(
            descending(outcomes[rep as int].cards@),
            Seq::empty(),
            Seq::empty(),
        );
    } else {
        lemma_representative_is_lowest(outcomes, members, count - 1);
        let before = representative(outcomes, members, count - 1);
        let last = members[count - 1];
        assert(members.contains(last));
        assert forall|k: int| 0 <= k < count implies !goes_before(
            outcomes,
            #[trigger] members[k] as int,
            rep as int,
        ) by {
            lemma_cards_order(
                descending(outcomes[rep as int].cards@),
                descending(outcomes[before as int].cards@),
                descending(outcomes[members[k] as int].cards@),
            );
        }
    }
}

/// What chance nodes of one street had and have.
#[derive(Debug, Clone, Copy, PartialEq, Eq, Structural)]
pub struct StreetAccumulator {
    pub nodes: usize,
    pub outcomes_before: u64,
    pub outcomes_after: u64,
}

/// The price of an abstraction, by street.
#[derive(Debug, Clone, Copy, PartialEq, Eq, Structural)]
pub struct StatsAccumulator {
    pub flop: StreetAccumulator,
    pub turn: StreetAccumulator,
    pub river: StreetAccumulator,
}

#[derive(Debug, Clone, Copy, PartialEq, Eq, Structural)]
pub struct StreetChanceStats {
    pub street: Street,
    pub nodes: usize,
    pub outcomes_before: u64,
    pub outcomes_after: u64,
}

pub open spec fn no_outcomes() -> StreetAccumulator {
    StreetAccumulator { nodes: 0, outcomes_before: 0, outcomes_after: 0 }
}

/// The accumulator after one more node.
pub open spec fn counted(acc: StreetAccumulator, before: nat, after: nat) -> StreetAccumulator {
    StreetAccumulator {
        nodes: (acc.nodes + 1) as usize,
        outcomes_before: (acc.outcomes_before + before) as u64,
        outcomes_after: (acc.outcomes_after + after) as u64,
    }
}

pub open spec fn countable(acc: StreetAccumulator, before: nat, after: nat) -> bool {
    &&& acc.nodes < usize::MAX
    &&& acc.outcomes_before + before <= u64::MAX
    &&& acc.outcomes_after + after <= u64::MAX
}

impl Default for StatsAccumulator {
    fn default() -> (stats: Self)
        ensures
            stats == (StatsAccumulator {
                flop: no_outcomes(),
                turn: no_outcomes(),
                river: no_outcomes(),
            }),
    {
        let none = StreetAccumulator { nodes: 0, outcomes_before: 0, outcomes_after: 0 };
        StatsAccumulator { flop: none, turn: none, river: none }
    }
}

impl StatsAccumulator {
    pub open spec fn of(self, street: Street) -> StreetAccumulator {
        match street {
            Street::Flop => self.flop,
            Street::Turn => self.turn,
            Street::River => self.river,
            Street::Preflop => no_outcomes(),
        }
    }

    /// Counts a chance node that leads to a street.
    pub fn count(&mut self, street: Street, before: usize, after: usize)
        requires
            street != Street::Preflop,
            countable(old(self).of(street), before as nat, after as nat),
        ensures
            final(self).of(street) == counted(old(self).of(street), before as nat, after as nat),
            forall|other: Street|
                other != street ==> #[trigger] final(self).of(other) == old(self).of(other),
    {
        let acc = match street {
            Street::Flop => self.flop,
            Street::Turn => self.turn,
            _ => self.river,
        };
        let next = StreetAccumulator {
            nodes: acc.nodes + 1,
            outcomes_before: acc.outcomes_before + before as u64,
            outcomes_after: acc.outcomes_after + after as u64,
        };
        match street {
            Street::Flop => {
                self.flop = next;
            },
            Street::Turn => {
                self.turn = next;
            },
            _ => {
                self.river = next;
            },
        }
    }

    pub fn chance_nodes(&self) -> (count: usize)
        requires
            self.flop.nodes + self.turn.nodes + self.river.nodes <= usize::MAX,
        ensures
            count == self.flop.nodes + self.turn.nodes + self.river.nodes,
    {
        self.flop.nodes + self.turn.nodes + self.river.nodes
    }

    pub fn outcomes_before(&self) -> (count: u64)
        requires
            self.flop.outcomes_before + self.turn.outcomes_before + self.river.outcomes_before
                <= u64::MAX,
        ensures
            count == self.flop.outcomes_before + self.turn.outcomes_before
                + self.river.outcomes_before,
    {
        self.flop.outcomes_before + self.turn.outcomes_before + self.river.outcomes_before
    }

    pub fn outcomes_after(&self) -> (count: u64)
        requires
            self.flop.outcomes_after + self.turn.outcomes_after + self.river.outcomes_after
                <= u64::MAX,
        ensures
            count == self.flop.outcomes_after + self.turn.outcomes_after
                + self.river.outcomes_after,
    {
        self.flop.outcomes_after + self.turn.outcomes_after + self.river.outcomes_after
    }

    /// The streets that have chance nodes, in order.
    pub fn into_per_street(self) -> (streets: Vec<StreetChanceStats>)
        ensures
            streets@ == street_stats(Street::Flop, self.flop) + street_stats(Street::Turn, self.turn)
                + street_stats(Street::River, self.river),
    {
        let mut streets: Vec<StreetChanceStats> = Vec::new();
        push_street(&mut streets, Street::Flop, self.flop);
        push_street(&mut streets, Street::Turn, self.turn);
        push_street(&mut streets, Street::River, self.river);
        assert(streets@ =~= street_stats(Street::Flop, self.flop) + street_stats(
            Street::Turn,
            self.turn,
        ) + street_stats(Street::River, self.river));
        streets
    }
}

/// The entry of a street, if it has chance nodes.
pub open spec fn street_stats(street: Street, acc: StreetAccumulator) -> Seq<StreetChanceStats> {
    if acc.nodes > 0 {
        seq![
            StreetChanceStats {
                street,
                nodes: acc.nodes,
                outcomes_before: acc.outcomes_before,
                outcomes_after: acc.outcomes_after,
            },
        ]
    } else {
        Seq::empty()
    }
}

fn push_street(streets: &mut Vec<StreetChanceStats>, street: Street, acc: StreetAccumulator)
    ensures
        final(streets)@ == old(streets)@ + street_stats(street, acc),
{
    if acc.nodes > 0 {
        streets.push(
            StreetChanceStats {
                street,
                nodes: acc.nodes,
                outcomes_before: acc.outcomes_before,
                outcomes_after: acc.outcomes_after,
            },
        );
    }
    assert(streets@ =~= old(streets)@ + street_stats(street, acc));
}

} // verus!
