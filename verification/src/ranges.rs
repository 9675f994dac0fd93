//! Weighted ranges and the deals that they leave possible.
//!
//! Weights are IEEE-754 bits. Which weights belong together is decided here;
//! they are added and multiplied by the caller.
use vstd::prelude::*;

use crate::bits::{above_zero, below_zero, finite, is_above_zero, is_below_zero, is_finite, magnitude, SIGN_BITS};
use crate::cards::{Combo, DeckMask};
use crate::group::{group_items, groups_of, items_of, lemma_group_key};
use crate::table::{lemma_entry, Key, Table};

verus! {

#[derive(Debug, Clone, Copy, PartialEq, Eq, Structural)]
pub struct WeightedCombo {
    pub combo: Combo,
    pub class_id: u16,
    pub weight: u64,
}

#[derive(Debug)]
pub struct WeightedRange {
    pub combos: Vec<WeightedCombo>,
}

#[derive(Debug, Clone, Copy, PartialEq, Eq, Structural)]
pub enum RangeError {
    RangeCount { ranges: usize },
    ZeroMaxDeals,
    InvalidWeight { range: usize },
    NoLegalCombos { range: usize },
    DealLimit { limit: usize },
    NoLegalDeals,
}

/// A weight that a range may hold: finite and not below zero.
pub open spec fn weight_ok(weight: u64) -> bool {
    finite(weight) && !below_zero(weight)
}

/// A combo with its weight.
#[derive(Debug, Clone, Copy, PartialEq, Eq, Structural)]
pub struct Candidate {
    pub combo: Combo,
    pub weight: u64,
}

/// The combos of a range are pairs of different cards.
pub open spec fn range_valid(combos: Seq<WeightedCombo>) -> bool {
    forall|i: int| 0 <= i < combos.len() ==> (#[trigger] combos[i]).combo.valid()
}

pub open spec fn weights_ok(combos: Seq<WeightedCombo>) -> bool {
    forall|i: int| 0 <= i < combos.len() ==> weight_ok((#[trigger] combos[i]).weight)
}

/// The entry can be dealt: its weight is not zero and no dead card is in it.
pub open spec fn dealable(entry: WeightedCombo, dead_cards: u64) -> bool {
    magnitude(entry.weight) != 0 && entry.combo.spec_mask() & dead_cards == 0
}

pub open spec fn combo_key(combo: Combo) -> Key {
    Key { major: combo.first as u64, middle: combo.second as u64, minor: 0 }
}

/// The key of some pair of different cards.
pub open spec fn combo_key_ok(key: Key) -> bool {
    exists|combo: Combo| combo.valid() && key == #[trigger] combo_key(combo)
}

/// The dealable entries of a range, in its order: combo and weight.
pub open spec fn dealable_weights(combos: Seq<WeightedCombo>, dead_cards: u64) -> Seq<(Key, u64)>
    decreases combos.len(),
{
    if combos.len() == 0 {
        Seq::empty()
    } else {
        let rest = dealable_weights(combos.drop_last(), dead_cards);
        if dealable(combos.last(), dead_cards) {
            rest.push((combo_key(combos.last().combo), combos.last().weight))
        } else {
            rest
        }
    }
}

/// The weights that a range gives to `combo`, in the order of the range.
pub open spec fn weights_of(
    combos: Seq<WeightedCombo>,
    combo: Combo,
    dead_cards: u64,
) -> Seq<u64> {
    items_of(dealable_weights(combos, dead_cards), combo_key(combo))
}

/// A combo with the weights that a range gives to it.
#[derive(Debug)]
pub struct ComboWeights {
    pub combo: Combo,
    pub weights: Vec<u64>,
}

/// The combos that can be dealt, each once and ascending, with their weights.
pub open spec fn grouped(
    groups: Seq<ComboWeights>,
    combos: Seq<WeightedCombo>,
    dead_cards: u64,
) -> bool {
    &&& forall|i: int, j: int|
        0 <= i < j < groups.len() ==> combo_key((#[trigger] groups[i]).combo).below(
            combo_key((#[trigger] groups[j]).combo),
        )
    &&& forall|i: int|
        0 <= i < groups.len() ==> (#[trigger] groups[i]).combo.valid() && groups[i].weights@
            == weights_of(combos, groups[i].combo, dead_cards) && groups[i].weights@.len() > 0
    &&& forall|combo: Combo|
        (#[trigger] weights_of(combos, combo, dead_cards)).len() > 0 ==> exists|i: int|
            0 <= i < groups.len() && (#[trigger] groups[i]).combo == combo
}

fn is_zero(weight: u64) -> (yes: bool)
    ensures
        yes == (magnitude(weight) == 0),
{
    weight == 0 || weight == SIGN_BITS
}

/// Checks the weights of a range.
pub fn range_weights_ok(range: &WeightedRange) -> (yes: bool)
    ensures
        yes == weights_ok(range.combos@),
{
    let mut index: usize = 0;
    while index < range.combos.len()
        invariant
            index <= range.combos@.len(),
            forall|i: int| 0 <= i < index ==> weight_ok((#[trigger] range.combos@[i]).weight),
        decreases range.combos.len() - index,
    {
        let weight = range.combos[index].weight;
        if !is_finite(weight) || is_below_zero(weight) {
            assert(!weight_ok(range.combos@[index as int].weight));
            return false;
        }
        index = index + 1;
    }
    true
}

/// Groups the dealable weights of a range by combo, combos in ascending order.
///
/// `player` is the number of the range in errors.
pub fn group_weights(range: &WeightedRange, player: usize, dead_cards: DeckMask) -> (result: Result<
    Vec<ComboWeights>,
    RangeError,
>)
    requires
        range_valid(range.combos@),
    ensures
        match result {
            Ok(groups) => weights_ok(range.combos@) && grouped(
                groups@,
                range.combos@,
                dead_cards,
            ),
            Err(error) => !weights_ok(range.combos@) && error == (RangeError::InvalidWeight {
                range: player,
            }),
        },
{
    if !range_weights_ok(range) {
        return Err(RangeError::InvalidWeight { range: player });
    }
    let mut list: Vec<(Key, u64)> = Vec::new();
    let mut index: usize = 0;
    assert(range.combos@.take(0) =~= Seq::<WeightedCombo>::empty());
    while index < range.combos.len()
        invariant
            index <= range.combos@.len(),
            range_valid(range.combos@),
            list@ == dealable_weights(range.combos@.take(index as int), dead_cards),
            forall|i: int|
                0 <= i < list@.len() ==> combo_key_ok((#[trigger] list@[i]).0),
        decreases range.combos.len() - index,
    {
        let entry = range.combos[index];
        assert(range.combos@.take(index as int + 1).drop_last() =~= range.combos@.take(
            index as int,
        ));
        assert(range.combos@[index as int].combo.valid());
        if !is_zero(entry.weight) && !entry.combo.conflicts(dead_cards) {
            let key = Key {
                major: entry.combo.first as u64,
                middle: entry.combo.second as u64,
                minor: 0,
            };
            assert(combo_key_ok(combo_key(entry.combo)));
            list.push((key, entry.weight));
        }
        index = index + 1;
    }
    assert(range.combos@.take(index as int) =~= range.combos@);
    let table = group_items(&list);
    Ok(read_groups(table, Ghost(range.combos@), Ghost(list@), Ghost(dead_cards)))
}

/// Turns grouped keys back into combos.
fn read_groups(
    table: Table<Vec<u64>>,
    Ghost(combos): Ghost<Seq<WeightedCombo>>,
    Ghost(list): Ghost<Seq<(Key, u64)>>,
    Ghost(dead_cards): Ghost<u64>,
) -> (groups: Vec<ComboWeights>)
    requires
        groups_of(table, list),
        list == dealable_weights(combos, dead_cards),
        forall|i: int|
            0 <= i < list.len() ==> combo_key_ok((#[trigger] list[i]).0),
    ensures
        grouped(groups@, combos, dead_cards),
{
    let mut groups: Vec<ComboWeights> = Vec::new();
    let mut index: usize = 0;
    while index < table.entries.len()
        invariant
            groups_of(table, list),
            list == dealable_weights(combos, dead_cards),
            forall|i: int|
                0 <= i < list.len() ==> combo_key_ok((#[trigger] list[i]).0),
            groups@.len() == index,
            index <= table.entries@.len(),
            forall|i: int|
                0 <= i < index ==> combo_key((#[trigger] groups@[i]).combo) == table.entries@[i].0
                    && groups@[i].combo.valid() && groups@[i].weights@ == weights_of(
                    combos,
                    groups@[i].combo,
                    dead_cards,
                ) && groups@[i].weights@.len() > 0,
        decreases table.entries.len() - index,
    {
        let key = table.entries[index].0;
        proof {
            lemma_entry(table, index as int);
            let at = lemma_group_key(list, key);
            assert(combo_key_ok(list[at].0));
        }
        let combo = Combo { first: key.major as u8, second: key.middle as u8 };
        assert(combo_key(combo) == key);
        groups.push(
            ComboWeights { combo, weights: crate::checkpoint::copy_words(&table.entries[index].1) },
        );
        index = index + 1;
    }
    proof {
        assert forall|i: int, j: int| 0 <= i < j < groups@.len() implies combo_key(
            (#[trigger] groups@[i]).combo,
        ).below(combo_key((#[trigger] groups@[j]).combo)) by {
            assert(table.entries@[i].0.below(table.entries@[j].0));
        }
        assert forall|combo: Combo|
            (#[trigger] weights_of(combos, combo, dead_cards)).len() > 0 implies exists|i: int|
            0 <= i < groups@.len() && (#[trigger] groups@[i]).combo == combo by {
            assert(table@.dom().contains(combo_key(combo)));
            assert(table.has(combo_key(combo)));
            let i = choose|i: int|
                0 <= i < table.entries@.len() && (#[trigger] table.entries@[i]).0 == combo_key(
                    combo,
                );
            assert(combo_key(groups@[i].combo) == combo_key(combo));
        }
    }
    groups
}

/// A legal pair of entries of two ranges.
pub open spec fn pair_dealable(
    first: WeightedCombo,
    second: WeightedCombo,
    dead_cards: u64,
) -> bool {
    &&& dealable(first, dead_cards)
    &&& dealable(second, dead_cards)
    &&& second.combo.spec_mask() & first.combo.spec_mask() == 0
}

pub open spec fn pair_key(first: Combo, second: Combo) -> Key {
    Key {
        major: (256 * first.first + first.second) as u64,
        middle: (256 * second.first + second.second) as u64,
        minor: 0,
    }
}

/// The pairs that `first` makes with the entries of a range.
pub open spec fn row_pairs(
    first: WeightedCombo,
    others: Seq<WeightedCombo>,
    dead_cards: u64,
) -> Seq<(Key, (u64, u64))>
    decreases others.len(),
{
    if others.len() == 0 {
        Seq::empty()
    } else {
        let rest = row_pairs(first, others.drop_last(), dead_cards);
        let second = others.last();
        if pair_dealable(first, second, dead_cards) {
            rest.push((pair_key(first.combo, second.combo), (first.weight, second.weight)))
        } else {
            rest
        }
    }
}

/// The legal pairs of two ranges with the two weights, first range outermost.
pub open spec fn legal_pairs(
    firsts: Seq<WeightedCombo>,
    seconds: Seq<WeightedCombo>,
    dead_cards: u64,
) -> Seq<(Key, (u64, u64))>
    decreases firsts.len(),
{
    if firsts.len() == 0 {
        Seq::empty()
    } else {
        legal_pairs(firsts.drop_last(), seconds, dead_cards) + row_pairs(
            firsts.last(),
            seconds,
            dead_cards,
        )
    }
}

/// The weight pairs whose products a pair of hands sums up.
pub open spec fn pair_weights_of(
    firsts: Seq<WeightedCombo>,
    seconds: Seq<WeightedCombo>,
    dead_cards: u64,
    hands: (Combo, Combo),
) -> Seq<(u64, u64)> {
    items_of(legal_pairs(firsts, seconds, dead_cards), pair_key(hands.0, hands.1))
}

/// Two hands with the weight pairs that the ranges give to them.
#[derive(Debug)]
pub struct PairWeights {
    pub hands: (Combo, Combo),
    pub weights: Vec<(u64, u64)>,
}

/// The hand pairs that can be dealt, each once and ascending, with their
/// weight pairs.
pub open spec fn paired(
    groups: Seq<PairWeights>,
    firsts: Seq<WeightedCombo>,
    seconds: Seq<WeightedCombo>,
    dead_cards: u64,
) -> bool {
    &&& forall|i: int, j: int|
        0 <= i < j < groups.len() ==> pair_key(
            (#[trigger] groups[i]).hands.0,
            groups[i].hands.1,
        ).below(pair_key((#[trigger] groups[j]).hands.0, groups[j].hands.1))
    &&& forall|i: int|
        0 <= i < groups.len() ==> pair_valid((#[trigger] groups[i]).hands, dead_cards)
            && groups[i].weights@ == pair_weights_of(firsts, seconds, dead_cards, groups[i].hands)
            && groups[i].weights@.len() > 0
    &&& forall|hands: (Combo, Combo)|
        hands.0.valid() && hands.1.valid() && (#[trigger] pair_weights_of(
            firsts,
            seconds,
            dead_cards,
            hands,
        )).len() > 0 ==> exists|i: int| 0 <= i < groups.len() && (#[trigger] groups[i]).hands == hands
}

/// The hands are legal together and against the dead cards.
pub open spec fn pair_valid(hands: (Combo, Combo), dead_cards: u64) -> bool {
    &&& hands.0.valid() && hands.1.valid()
    &&& hands.0.spec_mask() & dead_cards == 0
    &&& hands.1.spec_mask() & dead_cards == 0
    &&& hands.1.spec_mask() & hands.0.spec_mask() == 0
}

/// The key of some legal pair of hands.
pub open spec fn pair_key_ok(key: Key, dead_cards: u64) -> bool {
    exists|hands: (Combo, Combo)| #[trigger]
        pair_valid(hands, dead_cards) && key == pair_key(hands.0, hands.1)
}

/// Expands two ranges into the legal hand pairs with the weights that each
/// pair multiplies and sums up.
pub fn private_deals_from_ranges(
    first: &WeightedRange,
    second: &WeightedRange,
    dead_cards: DeckMask,
) -> (result: Result<Vec<PairWeights>, RangeError>)
    requires
        range_valid(first.combos@),
        range_valid(second.combos@),
    ensures
        match result {
            Ok(groups) => {
                &&& weights_ok(first.combos@) && weights_ok(second.combos@)
                &&& groups@.len() > 0
                &&& paired(groups@, first.combos@, second.combos@, dead_cards)
            },
            Err(error) => if !weights_ok(first.combos@) {
                error == (RangeError::InvalidWeight { range: 0 })
            } else if !weights_ok(second.combos@) {
                error == (RangeError::InvalidWeight { range: 1 })
            } else {
                &&& error == RangeError::NoLegalDeals
                &&& legal_pairs(first.combos@, second.combos@, dead_cards).len() == 0
            },
        },
{
    if !range_weights_ok(first) {
        return Err(RangeError::InvalidWeight { range: 0 });
    }
    if !range_weights_ok(second) {
        return Err(RangeError::InvalidWeight { range: 1 });
    }
    let mut list: Vec<(Key, (u64, u64))> = Vec::new();
    let mut index: usize = 0;
    assert(first.combos@.take(0) =~= Seq::<WeightedCombo>::empty());
    while index < first.combos.len()
        invariant
            index <= first.combos@.len(),
            range_valid(first.combos@),
            range_valid(second.combos@),
            list@ == legal_pairs(first.combos@.take(index as int), second.combos@, dead_cards),
            forall|i: int|
                0 <= i < list@.len() ==> pair_key_ok((#[trigger] list@[i]).0, dead_cards),
        decreases first.combos.len() - index,
    {
        assert(first.combos@.take(index as int + 1).drop_last() =~= first.combos@.take(
            index as int,
        ));
        assert(first.combos@[index as int].combo.valid());
        push_row(&mut list, first.combos[index], second, dead_cards);
        index = index + 1;
    }
    assert(first.combos@.take(index as int) =~= first.combos@);
    if list.len() == 0 {
        return Err(RangeError::NoLegalDeals);
    }
    let table = group_items(&list);
    let groups = read_pairs(
        table,
        Ghost(first.combos@),
        Ghost(second.combos@),
        Ghost(list@),
        Ghost(dead_cards),
    );
    proof {
        let last = list@.last();
        assert(items_of(list@, last.0).len() > 0);
        assert(pair_key_ok(last.0, dead_cards));
        let hands = choose|hands: (Combo, Combo)| #[trigger]
            pair_valid(hands, dead_cards) && last.0 == pair_key(hands.0, hands.1);
        assert(pair_weights_of(first.combos@, second.combos@, dead_cards, hands).len() > 0);
    }
    Ok(groups)
}

fn push_row(
    list: &mut Vec<(Key, (u64, u64))>,
    entry: WeightedCombo,
    range: &WeightedRange,
    dead_cards: DeckMask,
)
    requires
        entry.combo.valid(),
        range_valid(range.combos@),
        forall|i: int|
            0 <= i < old(list)@.len() ==> pair_key_ok((#[trigger] old(list)@[i]).0, dead_cards),
    ensures
        final(list)@ == old(list)@ + row_pairs(entry, range.combos@, dead_cards),
        forall|i: int|
            0 <= i < final(list)@.len() ==> pair_key_ok((#[trigger] final(list)@[i]).0, dead_cards),
{
    let mut index: usize = 0;
    let ghost start = list@;
    assert(range.combos@.take(0) =~= Seq::<WeightedCombo>::empty());
    assert(list@ =~= start + row_pairs(entry, range.combos@.take(0), dead_cards));
    while index < range.combos.len()
        invariant
            index <= range.combos@.len(),
            entry.combo.valid(),
            range_valid(range.combos@),
            list@ == start + row_pairs(entry, range.combos@.take(index as int), dead_cards),
            forall|i: int|
                0 <= i < list@.len() ==> pair_key_ok((#[trigger] list@[i]).0, dead_cards),
        decreases range.combos.len() - index,
    {
        let other = range.combos[index];
        let ghost before = list@;
        assert(range.combos@.take(index as int + 1).drop_last() =~= range.combos@.take(
            index as int,
        ));
        assert(range.combos@[index as int].combo.valid());
        if !is_zero(entry.weight) && !entry.combo.conflicts(dead_cards) && !is_zero(other.weight)
            && !other.combo.conflicts(dead_cards) && !other.combo.conflicts(entry.combo.mask()) {
            let key = Key {
                major: 256 * (entry.combo.first as u64) + entry.combo.second as u64,
                middle: 256 * (other.combo.first as u64) + other.combo.second as u64,
                minor: 0,
            };
            list.push((key, (entry.weight, other.weight)));
            proof {
                let hands = (entry.combo, other.combo);
                assert(pair_valid(hands, dead_cards));
                assert(key == pair_key(hands.0, hands.1));
                assert(pair_key_ok(key, dead_cards));
                assert(list@ =~= start + row_pairs(
                    entry,
                    range.combos@.take(index as int + 1),
                    dead_cards,
                ));
            }
        }
        index = index + 1;
    }
    assert(range.combos@.take(index as int) =~= range.combos@);
}

/// Different hand pairs have different keys.
proof fn lemma_pair_key(left: (Combo, Combo), right: (Combo, Combo))
    requires
        pair_key(left.0, left.1) == pair_key(right.0, right.1),
    ensures
        left == right,
{
}

/// Turns grouped keys back into hand pairs.
fn read_pairs(
    table: Table<Vec<(u64, u64)>>,
    Ghost(firsts): Ghost<Seq<WeightedCombo>>,
    Ghost(seconds): Ghost<Seq<WeightedCombo>>,
    Ghost(list): Ghost<Seq<(Key, (u64, u64))>>,
    Ghost(dead_cards): Ghost<u64>,
) -> (groups: Vec<PairWeights>)
    requires
        groups_of(table, list),
        list == legal_pairs(firsts, seconds, dead_cards),
        forall|i: int| 0 <= i < list.len() ==> pair_key_ok((#[trigger] list[i]).0, dead_cards),
    ensures
        paired(groups@, firsts, seconds, dead_cards),
{
    let mut groups: Vec<PairWeights> = Vec::new();
    let mut index: usize = 0;
    while index < table.entries.len()
        invariant
            groups_of(table, list),
            list == legal_pairs(firsts, seconds, dead_cards),
            forall|i: int| 0 <= i < list.len() ==> pair_key_ok((#[trigger] list[i]).0, dead_cards),
            groups@.len() == index,
            index <= table.entries@.len(),
            forall|i: int|
                0 <= i < index ==> pair_key((#[trigger] groups@[i]).hands.0, groups@[i].hands.1)
                    == table.entries@[i].0 && pair_valid(groups@[i].hands, dead_cards)
                    && groups@[i].weights@ == pair_weights_of(
                    firsts,
                    seconds,
                    dead_cards,
                    groups@[i].hands,
                ) && groups@[i].weights@.len() > 0,
        decreases table.entries.len() - index,
    {
        let key = table.entries[index].0;
        let ghost chosen = choose|hands: (Combo, Combo)| #[trigger]
            pair_valid(hands, dead_cards) && key == pair_key(hands.0, hands.1);
        proof {
            lemma_entry(table, index as int);
            let at = lemma_group_key(list, key);
            assert(pair_key_ok(list[at].0, dead_cards));
        }
        let first = Combo { first: (key.major / 256) as u8, second: (key.major % 256) as u8 };
        let second = Combo { first: (key.middle / 256) as u8, second: (key.middle % 256) as u8 };
        assert(first == chosen.0 && second == chosen.1);
        let weights = copy_pairs(&table.entries[index].1);
        groups.push(PairWeights { hands: (first, second), weights });
        index = index + 1;
    }
    proof {
        assert forall|i: int, j: int| 0 <= i < j < groups@.len() implies pair_key(
            (#[trigger] groups@[i]).hands.0,
            groups@[i].hands.1,
        ).below(pair_key((#[trigger] groups@[j]).hands.0, groups@[j].hands.1)) by {
            assert(table.entries@[i].0.below(table.entries@[j].0));
        }
        assert forall|hands: (Combo, Combo)|
            hands.0.valid() && hands.1.valid() && (#[trigger] pair_weights_of(
                firsts,
                seconds,
                dead_cards,
                hands,
            )).len() > 0 implies exists|i: int|
            0 <= i < groups@.len() && (#[trigger] groups@[i]).hands == hands by {
            let key = pair_key(hands.0, hands.1);
            assert(table@.dom().contains(key));
            assert(table.has(key));
            let i = choose|i: int|
                0 <= i < table.entries@.len() && (#[trigger] table.entries@[i]).0 == key;
            lemma_pair_key(groups@[i].hands, hands);
        }
    }
    groups
}

fn copy_pairs(list: &Vec<(u64, u64)>) -> (copy: Vec<(u64, u64)>)
    ensures
        copy@ == list@,
{
    let mut copy: Vec<(u64, u64)> = Vec::new();
    let mut index: usize = 0;
    while index < list.len()
        invariant
            index <= list@.len(),
            copy@ == list@.take(index as int),
        decreases list.len() - index,
    {
        copy.push(list[index]);
        assert(copy@ =~= list@.take(index as int + 1));
        index = index + 1;
    }
    assert(copy@ =~= list@);
    copy
}

/// A summed weight that keeps its combo in play.
pub open spec fn keeps(candidate: Candidate) -> bool {
    above_zero(candidate.weight) && finite(candidate.weight)
}

/// The candidates of a range: its combos with their summed weights, without
/// those whose sum is not a positive finite number.
pub fn usable_candidates(summed: &Vec<Candidate>, player: usize) -> (result: Result<
    Vec<Candidate>,
    RangeError,
>)
    ensures
        ({
            let kept = summed@.filter(|candidate: Candidate| keeps(candidate));
            match result {
                Ok(candidates) => candidates@ == kept && kept.len() > 0,
                Err(error) => kept.len() == 0 && error == (RangeError::NoLegalCombos {
                    range: player,
                }),
            }
        }),
{
    let ghost keep = |candidate: Candidate| keeps(candidate);
    let mut candidates: Vec<Candidate> = Vec::new();
    let mut index: usize = 0;
    assert(summed@.take(0) =~= Seq::<Candidate>::empty());
    assert(summed@.take(0).filter(keep) =~= Seq::<Candidate>::empty()) by {
        reveal(Seq::filter);
    }
    while index < summed.len()
        invariant
            index <= summed@.len(),
            keep == (|candidate: Candidate| keeps(candidate)),
            candidates@ == summed@.take(index as int).filter(keep),
        decreases summed.len() - index,
    {
        let candidate = summed[index];
        proof {
            crate::tree::lemma_filter_step(summed@, keep, index as int);
        }
        if is_above_zero(candidate.weight) && is_finite(candidate.weight) {
            candidates.push(candidate);
        }
        index = index + 1;
    }
    assert(summed@.take(index as int) =~= summed@);
    if candidates.len() == 0 {
        return Err(RangeError::NoLegalCombos { range: player });
    }
    Ok(candidates)
}

/// The profiles that extend `prefix` by candidates of the players from
/// `player` on, that player's candidates from `from` on: one candidate each, no
/// card of `used` and none twice, in the order of the candidates.
pub open spec fn profiles(
    candidates: Seq<Vec<Candidate>>,
    player: int,
    from: int,
    used: u64,
    prefix: Seq<Candidate>,
) -> Seq<Seq<Candidate>>
    decreases candidates.len() - player, candidates[player]@.len() - from,
{
    if player >= candidates.len() {
        seq![prefix]
    } else if from >= candidates[player]@.len() {
        Seq::empty()
    } else {
        let candidate = candidates[player]@[from];
        let rest = profiles(candidates, player, from + 1, used, prefix);
        if candidate.combo.spec_mask() & used != 0 {
            rest
        } else {
            profiles(
                candidates,
                player + 1,
                0,
                used | candidate.combo.spec_mask(),
                prefix.push(candidate),
            ) + rest
        }
    }
}

pub open spec fn candidates_valid(candidates: Seq<Vec<Candidate>>) -> bool {
    forall|p: int, i: int|
        0 <= p < candidates.len() && 0 <= i < candidates[p]@.len() ==> (
        #[trigger] candidates[p]@[i]).combo.valid()
}

pub open spec fn profile_views(list: Seq<Vec<Candidate>>) -> Seq<Seq<Candidate>> {
    list.map(|i: int, profile: Vec<Candidate>| profile@)
}

pub fn copy_candidates(list: &Vec<Candidate>) -> (copy: Vec<Candidate>)
    ensures
        copy@ == list@,
{
    let copy = list.clone();
    assert(copy@ =~= list@);
    copy
}

/// Lists the profiles from one player and candidate on.
fn enumerate_multiway_deals(
    candidates: &Vec<Vec<Candidate>>,
    player: usize,
    from: usize,
    used: DeckMask,
    current: &mut Vec<Candidate>,
    max_deals: usize,
    output: &mut Vec<Vec<Candidate>>,
) -> (result: Result<(), RangeError>)
    requires
        candidates_valid(candidates@),
        player <= candidates@.len(),
        player < candidates@.len() ==> from <= candidates@[player as int]@.len(),
        old(output)@.len() <= max_deals,
    ensures
        ({
            let found = profiles(
                candidates@,
                player as int,
                from as int,
                used,
                old(current)@,
            );
            match result {
                Ok(_) => {
                    &&& final(current)@ == old(current)@
                    &&& profile_views(final(output)@) == profile_views(old(output)@) + found
                    &&& final(output)@.len() <= max_deals
                },
                Err(error) => {
                    &&& old(output)@.len() + found.len() > max_deals
                    &&& error == (RangeError::DealLimit { limit: max_deals })
                },
            }
        }),
    decreases
            candidates@.len() - player,
            if player < candidates@.len() {
                candidates@[player as int]@.len() - from
            } else {
                0
            },
{
    if player == candidates.len() {
        if output.len() >= max_deals {
            return Err(RangeError::DealLimit { limit: max_deals });
        }
        let ghost before = output@;
        let profile = copy_candidates(current);
        output.push(profile);
        assert(profile_views(output@) =~= profile_views(before) + seq![current@]);
        return Ok(());
    }
    if from == candidates[player].len() {
        assert(profile_views(output@) =~= profile_views(old(output)@) + Seq::<
            Seq<Candidate>,
        >::empty());
        return Ok(());
    }
    let candidate = candidates[player][from];
    assert(candidates@[player as int]@[from as int].combo.valid());
    let mask = candidate.combo.mask();
    let ghost start = profile_views(output@);
    let ghost prefix = current@;
    let ghost rest = profiles(candidates@, player as int, from as int + 1, used, prefix);
    if mask & used == 0 {
        let ghost here = profiles(
            candidates@,
            player as int + 1,
            0,
            used | mask,
            prefix.push(candidate),
        );
        current.push(candidate);
        match enumerate_multiway_deals(
            candidates,
            player + 1,
            0,
            used | mask,
            current,
            max_deals,
            output,
        ) {
            Ok(_) => {},
            Err(error) => {
                return Err(error);
            },
        }
        current.pop();
        assert(current@ =~= prefix);
        assert(profile_views(output@) == start + here);
        assert(profile_views(output@).len() == output@.len());
        assert(start.len() == old(output)@.len());
        let ghost middle = profile_views(output@);
        let outcome = enumerate_multiway_deals(
            candidates,
            player,
            from + 1,
            used,
            current,
            max_deals,
            output,
        );
        assert((start + here) + rest =~= start + (here + rest));
        outcome
    } else {
        enumerate_multiway_deals(candidates, player, from + 1, used, current, max_deals, output)
    }
}

/// The profile deals one candidate of each list, no card twice and none of
/// `used`.
pub open spec fn legal_profile(
    candidates: Seq<Vec<Candidate>>,
    used: u64,
    profile: Seq<Candidate>,
) -> bool {
    &&& profile.len() == candidates.len()
    &&& forall|p: int|
        0 <= p < profile.len() ==> candidates[p]@.contains(#[trigger] profile[p])
    &&& forall|p: int|
        0 <= p < profile.len() ==> (#[trigger] profile[p]).combo.spec_mask() & used == 0
    &&& forall|p: int, q: int|
        0 <= p < q < profile.len() ==> (#[trigger] profile[p]).combo.spec_mask() & (
        #[trigger] profile[q]).combo.spec_mask() == 0
}

/// Expands candidates into all legal profiles of three to eight players.
pub fn multiway_private_deals_from_ranges(
    candidates: &Vec<Vec<Candidate>>,
    dead_cards: DeckMask,
    max_deals: usize,
) -> (result: Result<Vec<Vec<Candidate>>, RangeError>)
    requires
        candidates_valid(candidates@),
    ensures
        ({
            let found = profiles(candidates@, 0, 0, dead_cards, Seq::empty());
            if !(3 <= candidates@.len() <= 8) {
                result == Err::<Vec<Vec<Candidate>>, RangeError>(
                    RangeError::RangeCount { ranges: candidates@.len() as usize },
                )
            } else if max_deals == 0 {
                result == Err::<Vec<Vec<Candidate>>, RangeError>(RangeError::ZeroMaxDeals)
            } else if found.len() > max_deals {
                result == Err::<Vec<Vec<Candidate>>, RangeError>(
                    RangeError::DealLimit { limit: max_deals },
                )
            } else if found.len() == 0 {
                result == Err::<Vec<Vec<Candidate>>, RangeError>(RangeError::NoLegalDeals)
            } else {
                result matches Ok(deals) && profile_views(deals@) == found
            }
        }),
{
    match check_range_count(candidates.len(), max_deals) {
        Ok(_) => {},
        Err(error) => {
            return Err(error);
        },
    }
    let mut output: Vec<Vec<Candidate>> = Vec::new();
    let mut current: Vec<Candidate> = Vec::new();
    assert(current@ =~= Seq::<Candidate>::empty());
    match enumerate_multiway_deals(
        candidates,
        0,
        0,
        dead_cards,
        &mut current,
        max_deals,
        &mut output,
    ) {
        Ok(_) => {},
        Err(error) => {
            return Err(error);
        },
    }
    let ghost found = profiles(candidates@, 0, 0, dead_cards, Seq::empty());
    assert(profile_views(Seq::<Vec<Candidate>>::empty()) + found =~= found);
    assert(profile_views(output@).len() == output@.len());
    if output.len() == 0 {
        return Err(RangeError::NoLegalDeals);
    }
    Ok(output)
}

/// Checks the number of ranges and the limit before ranges are expanded.
pub fn check_range_count(ranges: usize, max_deals: usize) -> (result: Result<(), RangeError>)
    ensures
        match result {
            Ok(_) => 3 <= ranges <= 8 && max_deals > 0,
            Err(error) => if !(3 <= ranges <= 8) {
                error == (RangeError::RangeCount { ranges })
            } else {
                max_deals == 0 && error == RangeError::ZeroMaxDeals
            },
        },
{
    if ranges < 3 || ranges > 8 {
        return Err(RangeError::RangeCount { ranges });
    }
    if max_deals == 0 {
        return Err(RangeError::ZeroMaxDeals);
    }
    Ok(())
}

/// `profile` extends `prefix` legally from `player`, candidate `from` on.
spec fn extends_legally(
    candidates: Seq<Vec<Candidate>>,
    player: int,
    from: int,
    used: u64,
    prefix: Seq<Candidate>,
    profile: Seq<Candidate>,
) -> bool {
    &&& profile.len() == candidates.len()
    &&& profile.take(player) == prefix
    &&& player < candidates.len() ==> exists|i: int|
        from <= i < candidates[player]@.len() && #[trigger] candidates[player]@[i]
            == profile[player]
    &&& forall|p: int|
        player <= p < profile.len() ==> candidates[p]@.contains(#[trigger] profile[p])
    &&& forall|p: int|
        player <= p < profile.len() ==> (#[trigger] profile[p]).combo.spec_mask() & used == 0
    &&& forall|p: int, q: int|
        player <= p < q < profile.len() ==> (#[trigger] profile[p]).combo.spec_mask() & (
        #[trigger] profile[q]).combo.spec_mask() == 0
}

proof fn lemma_or_meets(mask: u64, left: u64, right: u64)
    ensures
        mask & (left | right) == 0 <==> mask & left == 0 && mask & right == 0,
{
    assert(mask & (left | right) == 0 <==> mask & left == 0 && mask & right == 0) by (bit_vector);
}

proof fn lemma_and_commutes(left: u64, right: u64)
    ensures
        left & right == right & left,
{
    assert(left & right == right & left) by (bit_vector);
}

proof fn lemma_profiles(
    candidates: Seq<Vec<Candidate>>,
    player: int,
    from: int,
    used: u64,
    prefix: Seq<Candidate>,
    profile: Seq<Candidate>,
)
    requires
        0 <= player <= candidates.len(),
        0 <= from,
        prefix.len() == player,
    ensures
        profiles(candidates, player, from, used, prefix).contains(profile) <==> extends_legally(
            candidates,
            player,
            from,
            used,
            prefix,
            profile,
        ),
    decreases candidates.len() - player, candidates[player]@.len() - from,
{
    let found = profiles(candidates, player, from, used, prefix);
    if player >= candidates.len() {
        assert(found =~= seq![prefix]);
        if found.contains(profile) {
            assert(profile == prefix);
            assert(profile.take(player) =~= prefix);
        }
        if extends_legally(candidates, player, from, used, prefix, profile) {
            assert(profile.take(player) =~= profile);
            assert(found[0] == profile);
        }
    } else if from < candidates[player]@.len() {
        let candidate = candidates[player]@[from];
        let mask = candidate.combo.spec_mask();
        let rest = profiles(candidates, player, from + 1, used, prefix);
        lemma_profiles(candidates, player, from + 1, used, prefix, profile);
        if extends_legally(candidates, player, from + 1, used, prefix, profile) {
            let i = choose|i: int|
                from + 1 <= i < candidates[player]@.len() && #[trigger] candidates[player]@[i]
                    == profile[player];
            assert(candidates[player]@[i] == profile[player]);
            assert(extends_legally(candidates, player, from, used, prefix, profile));
        }
        if mask & used != 0 {
            if extends_legally(candidates, player, from, used, prefix, profile) {
                let i = choose|i: int|
                    from <= i < candidates[player]@.len() && #[trigger] candidates[player]@[i]
                        == profile[player];
                assert(profile[player].combo.spec_mask() & used == 0);
                assert(i != from);
                assert(extends_legally(candidates, player, from + 1, used, prefix, profile));
            }
        } else {
            let here = profiles(candidates, player + 1, 0, used | mask, prefix.push(candidate));
            lemma_profiles(
                candidates,
                player + 1,
                0,
                used | mask,
                prefix.push(candidate),
                profile,
            );
            assert(found == here + rest);
            if found.contains(profile) {
                let x = choose|x: int| 0 <= x < found.len() && found[x] == profile;
                if x < here.len() {
                    assert(here[x] == profile);
                    assert(here.contains(profile));
                    lemma_deeper_is_legal(
                        candidates,
                        player,
                        from,
                        used,
                        prefix,
                        candidate,
                        profile,
                    );
                } else {
                    assert(rest[x - here.len()] == profile);
                    assert(rest.contains(profile));
                }
            }
            if extends_legally(candidates, player, from, used, prefix, profile) {
                let i = choose|i: int|
                    from <= i < candidates[player]@.len() && #[trigger] candidates[player]@[i]
                        == profile[player];
                if profile[player] == candidate {
                    lemma_legal_goes_deeper(
                        candidates,
                        player,
                        from,
                        used,
                        prefix,
                        candidate,
                        profile,
                    );
                    assert(here.contains(profile));
                    let x = choose|x: int| 0 <= x < here.len() && here[x] == profile;
                    assert(found[x] == profile);
                } else {
                    assert(i != from);
                    assert(extends_legally(candidates, player, from + 1, used, prefix, profile));
                    assert(rest.contains(profile));
                    let x = choose|x: int| 0 <= x < rest.len() && rest[x] == profile;
                    assert(found[here.len() + x] == profile);
                }
            }
        }
    }
}

proof fn lemma_deeper_is_legal(
    candidates: Seq<Vec<Candidate>>,
    player: int,
    from: int,
    used: u64,
    prefix: Seq<Candidate>,
    candidate: Candidate,
    profile: Seq<Candidate>,
)
    requires
        0 <= player < candidates.len(),
        0 <= from < candidates[player]@.len(),
        prefix.len() == player,
        candidate == candidates[player]@[from],
        candidate.combo.spec_mask() & used == 0,
        extends_legally(
            candidates,
            player + 1,
            0,
            used | candidate.combo.spec_mask(),
            prefix.push(candidate),
            profile,
        ),
    ensures
        extends_legally(candidates, player, from, used, prefix, profile),
{
    let mask = candidate.combo.spec_mask();
    assert(profile.take(player + 1)[player] == candidate);
    assert(profile[player] == candidate);
    assert(profile.take(player) =~= profile.take(player + 1).take(player));
    assert(prefix.push(candidate).take(player) =~= prefix);
    assert(candidates[player]@[from] == profile[player]);
    assert forall|p: int| player <= p < profile.len() implies (
    #[trigger] profile[p]).combo.spec_mask() & used == 0 by {
        if p > player {
            assert(profile[p].combo.spec_mask() & (used | mask) == 0);
            lemma_or_meets(profile[p].combo.spec_mask(), used, mask);
        }
    }
    assert forall|p: int, q: int| player <= p < q < profile.len() implies (
    #[trigger] profile[p]).combo.spec_mask() & (#[trigger] profile[q]).combo.spec_mask() == 0 by {
        if p == player {
            assert(profile[q].combo.spec_mask() & (used | mask) == 0);
            lemma_or_meets(profile[q].combo.spec_mask(), used, mask);
            lemma_and_commutes(profile[q].combo.spec_mask(), mask);
        }
    }
}

proof fn lemma_legal_goes_deeper(
    candidates: Seq<Vec<Candidate>>,
    player: int,
    from: int,
    used: u64,
    prefix: Seq<Candidate>,
    candidate: Candidate,
    profile: Seq<Candidate>,
)
    requires
        0 <= player < candidates.len(),
        prefix.len() == player,
        profile[player] == candidate,
        extends_legally(candidates, player, from, used, prefix, profile),
    ensures
        extends_legally(
            candidates,
            player + 1,
            0,
            used | candidate.combo.spec_mask(),
            prefix.push(candidate),
            profile,
        ),
{
    let mask = candidate.combo.spec_mask();
    assert(profile.take(player + 1) =~= prefix.push(candidate)) by {
        assert forall|i: int| 0 <= i < player implies profile.take(player + 1)[i]
            == prefix.push(candidate)[i] by {
            assert(profile.take(player)[i] == prefix[i]);
        }
    }
    if player + 1 < candidates.len() {
        assert(candidates[player + 1]@.contains(profile[player + 1]));
        let i = choose|i: int|
            0 <= i < candidates[player + 1]@.len() && #[trigger] candidates[player + 1]@[i]
                == profile[player + 1];
        assert(candidates[player + 1]@[i] == profile[player + 1]);
    }
    assert forall|p: int| player + 1 <= p < profile.len() implies (
    #[trigger] profile[p]).combo.spec_mask() & (used | mask) == 0 by {
        assert(profile[player].combo.spec_mask() & profile[p].combo.spec_mask() == 0);
        lemma_and_commutes(profile[p].combo.spec_mask(), mask);
        lemma_or_meets(profile[p].combo.spec_mask(), used, mask);
    }
}

/// Expansion lists exactly the legal profiles: every choice of one candidate
/// per player without a shared or dead card, and nothing else.
pub proof fn lemma_profiles_are_exact(
    candidates: Seq<Vec<Candidate>>,
    dead_cards: u64,
    profile: Seq<Candidate>,
)
    requires
        candidates.len() > 0,
    ensures
        profiles(candidates, 0, 0, dead_cards, Seq::empty()).contains(profile) <==> legal_profile(
            candidates,
            dead_cards,
            profile,
        ),
{
    lemma_profiles(candidates, 0, 0, dead_cards, Seq::empty(), profile);
    if legal_profile(candidates, dead_cards, profile) {
        assert(profile.take(0) =~= Seq::<Candidate>::empty());
        assert(candidates[0]@.contains(profile[0]));
        let i = choose|i: int| 0 <= i < candidates[0]@.len() && candidates[0]@[i] == profile[0];
        assert(candidates[0]@[i] == profile[0]);
    }
}

/// Each list names its combos in ascending order, none twice.
pub open spec fn lists_ascend(candidates: Seq<Vec<Candidate>>) -> bool {
    forall|p: int, i: int, j: int|
        #![trigger candidates[p]@[i], candidates[p]@[j]]
        0 <= p < candidates.len() && 0 <= i < j < candidates[p]@.len() ==> combo_key(
            candidates[p]@[i].combo,
        ).below(combo_key(candidates[p]@[j].combo))
}

/// `left` comes first: at the first player whose combos differ, its combo is the
/// lower one.
pub open spec fn profile_below(left: Seq<Candidate>, right: Seq<Candidate>) -> bool {
    exists|p: int|
        {
            &&& 0 <= p < left.len()
            &&& p < right.len()
            &&& combo_key((#[trigger] left[p]).combo).below(combo_key(right[p].combo))
            &&& left.take(p) == right.take(p)
        }
}

proof fn lemma_profiles_ascend(
    candidates: Seq<Vec<Candidate>>,
    player: int,
    from: int,
    used: u64,
    prefix: Seq<Candidate>,
)
    requires
        lists_ascend(candidates),
        0 <= player <= candidates.len(),
        0 <= from,
        prefix.len() == player,
    ensures
        ({
            let found = profiles(candidates, player, from, used, prefix);
            forall|x: int, y: int|
                0 <= x < y < found.len() ==> profile_below(#[trigger] found[x], #[trigger] found[y])
        }),
    decreases candidates.len() - player, candidates[player]@.len() - from,
{
    let found = profiles(candidates, player, from, used, prefix);
    if player < candidates.len() && from < candidates[player]@.len() {
        let candidate = candidates[player]@[from];
        let mask = candidate.combo.spec_mask();
        let rest = profiles(candidates, player, from + 1, used, prefix);
        lemma_profiles_ascend(candidates, player, from + 1, used, prefix);
        if mask & used == 0 {
            let longer = prefix.push(candidate);
            let here = profiles(candidates, player + 1, 0, used | mask, longer);
            lemma_profiles_ascend(candidates, player + 1, 0, used | mask, longer);
            assert(found == here + rest);
            assert forall|x: int, y: int| 0 <= x < y < found.len() implies profile_below(
                #[trigger] found[x],
                #[trigger] found[y],
            ) by {
                if y < here.len() {
                    assert(profile_below(here[x], here[y]));
                } else if x >= here.len() {
                    assert(profile_below(rest[x - here.len()], rest[y - here.len()]));
                } else {
                    let left = found[x];
                    let right = found[y];
                    assert(here[x] == left);
                    assert(here.contains(left));
                    assert(rest[y - here.len()] == right);
                    assert(rest.contains(right));
                    lemma_profiles(candidates, player + 1, 0, used | mask, longer, left);
                    lemma_profiles(candidates, player, from + 1, used, prefix, right);
                    assert(left.take(player + 1)[player] == candidate);
                    assert(left[player] == candidate);
                    assert(left.take(player) =~= longer.take(player)) by {
                        assert(left.take(player) =~= left.take(player + 1).take(player));
                    }
                    assert(longer.take(player) =~= prefix);
                    let i = choose|i: int|
                        from + 1 <= i < candidates[player]@.len() && #[trigger]
                            candidates[player]@[i] == right[player];
                    assert(candidates[player]@[from] == candidate);
                    assert(combo_key(left[player].combo).below(combo_key(right[player].combo)));
                }
            }
        }
    }
}

/// Where the lists of candidates ascend, the listed profiles ascend strictly, and
/// each of them is listed once.
pub proof fn lemma_listed_profiles_ascend(candidates: Seq<Vec<Candidate>>, dead_cards: u64)
    requires
        lists_ascend(candidates),
    ensures
        ({
            let found = profiles(candidates, 0, 0, dead_cards, Seq::empty());
            &&& forall|x: int, y: int|
                0 <= x < y < found.len() ==> profile_below(#[trigger] found[x], #[trigger] found[y])
            &&& found.no_duplicates()
        }),
{
    lemma_profiles_ascend(candidates, 0, 0, dead_cards, Seq::empty());
    let found = profiles(candidates, 0, 0, dead_cards, Seq::empty());
    assert forall|x: int, y: int| 0 <= x < found.len() && 0 <= y < found.len() && x
        != y implies found[x] != found[y] by {
        if x < y {
            assert(profile_below(found[x], found[y]));
        } else {
            assert(profile_below(found[y], found[x]));
        }
    }
}

} // verus!
