//! Ranges, the hands they can deal, and the order in which they are drawn.
use vstd::prelude::*;

use crate::bits::magnitude;
use crate::cards::{has_card, lemma_combo_mask, lemma_masks_meet, Combo};
use crate::group::items_of;
use crate::laws::picks::{lemma_pick, picks};
use crate::laws::spots::is_dead;
use crate::ranges::{
    combo_key, dealable, dealable_weights, legal_pairs, legal_profile, pair_dealable, pair_key,
    pair_weights_of, profiles, row_pairs, weights_of, Candidate, WeightedCombo,
};
use crate::rng::{chosen_index, draw_of, xorshift};
use crate::sampler::{attempt, attempts, first_empty, FixedHand};
use crate::table::Key;

verus! {

/// The hands share a card.
pub open spec fn share_a_card(left: Combo, right: Combo) -> bool {
    left.holds(right.first) || left.holds(right.second)
}

/// The masks of hands meet exactly where the hands share a card, and a mask of dead
/// cards exactly where one of the cards is dead.
pub proof fn lemma_hands_meet(left: Combo, right: Combo, dead_cards: u64)
    requires
        left.valid(),
        right.valid(),
    ensures
        left.spec_mask() & right.spec_mask() != 0 <==> share_a_card(left, right),
        left.spec_mask() & dead_cards != 0 <==> is_dead(left, dead_cards),
{
    lemma_masks_meet(left.spec_mask(), right.spec_mask());
    lemma_masks_meet(left.spec_mask(), dead_cards);
    lemma_combo_mask(left, left.first);
    lemma_combo_mask(left, left.second);
    lemma_combo_mask(left, right.first);
    lemma_combo_mask(left, right.second);
    lemma_combo_mask(right, right.first);
    lemma_combo_mask(right, right.second);
    if left.spec_mask() & right.spec_mask() != 0 {
        let card = choose|card: u8|
            card < 64 && has_card(left.spec_mask(), card) && has_card(right.spec_mask(), card);
        lemma_combo_mask(left, card);
        lemma_combo_mask(right, card);
    }
    if left.spec_mask() & dead_cards != 0 {
        let card = choose|card: u8|
            card < 64 && has_card(left.spec_mask(), card) && has_card(dead_cards, card);
        lemma_combo_mask(left, card);
    }
}

/// The entry gives the combo some weight, and none of its cards is dead.
pub open spec fn deals_it(entry: WeightedCombo, combo: Combo, dead_cards: u64) -> bool {
    &&& entry.combo == combo
    &&& magnitude(entry.weight) != 0
    &&& !is_dead(combo, dead_cards)
}

pub open spec fn dealing_entries(combos: Seq<WeightedCombo>, combo: Combo, dead_cards: u64) -> spec_fn(
    int,
) -> bool {
    |i: int| deals_it(combos[i], combo, dead_cards)
}

/// The weights that a range gives a hand are those of the entries that name it and
/// can be dealt, each once and in the order of the range.
pub proof fn lemma_weights_of_a_hand(combos: Seq<WeightedCombo>, combo: Combo, dead_cards: u64) -> (
origin: Seq<int>)
    requires
        combo.valid(),
    ensures
        picks(origin, combos.len() as int, dealing_entries(combos, combo, dead_cards)),
        weights_of(combos, combo, dead_cards).len() == origin.len(),
        forall|k: int|
            0 <= k < origin.len() ==> #[trigger] weights_of(combos, combo, dead_cards)[k]
                == combos[origin[k]].weight,
    decreases combos.len(),
{
    if combos.len() == 0 {
        Seq::empty()
    } else {
        let rest = combos.drop_last();
        let shorter = lemma_weights_of_a_hand(rest, combo, dead_cards);
        let count = combos.len() - 1;
        let keep = dealing_entries(combos, combo, dead_cards);
        let entry = combos.last();
        lemma_hands_meet(combo, combo, dead_cards);
        assert(picks(shorter, count, keep)) by {
            let earlier = dealing_entries(rest, combo, dead_cards);
            assert forall|k: int| 0 <= k < shorter.len() implies 0 <= #[trigger] shorter[k] < count
                && keep(shorter[k]) by {
                assert(earlier(shorter[k]));
            }
            assert forall|i: int| 0 <= i < count && #[trigger] keep(i) implies shorter.contains(
                i,
            ) by {
                assert(earlier(i));
            }
        }
        let list = dealable_weights(rest, dead_cards);
        let key = combo_key(combo);
        if dealable(entry, dead_cards) {
            let longer = list.push((combo_key(entry.combo), entry.weight));
            assert(longer.drop_last() =~= list);
            assert(combo_key(entry.combo) == key <==> entry.combo == combo);
        }
        let origin = lemma_pick(shorter, count, keep);
        assert forall|k: int| 0 <= k < origin.len() implies #[trigger] weights_of(
            combos,
            combo,
            dead_cards,
        )[k] == combos[origin[k]].weight by {
            if k < shorter.len() {
                assert(weights_of(rest, combo, dead_cards)[k] == rest[shorter[k]].weight);
            }
        }
        origin
    }
}

/// The entries deal these two hands: no card dead, none shared.
pub open spec fn deal_both(
    first: WeightedCombo,
    second: WeightedCombo,
    hands: (Combo, Combo),
    dead_cards: u64,
) -> bool {
    &&& deals_it(first, hands.0, dead_cards)
    &&& deals_it(second, hands.1, dead_cards)
    &&& !share_a_card(hands.0, hands.1)
}

/// `origin` names the pairs of entries that deal the hands, all of them, ordered by
/// the first range and then by the second.
pub open spec fn picks_pairs(
    origin: Seq<(int, int)>,
    firsts: Seq<WeightedCombo>,
    seconds: Seq<WeightedCombo>,
    hands: (Combo, Combo),
    dead_cards: u64,
) -> bool {
    &&& forall|j: int, k: int|
        0 <= j < k < origin.len() ==> {
            ||| (#[trigger] origin[j]).0 < (#[trigger] origin[k]).0
            ||| origin[j].0 == origin[k].0 && origin[j].1 < origin[k].1
        }
    &&& forall|k: int|
        0 <= k < origin.len() ==> {
            &&& 0 <= (#[trigger] origin[k]).0 < firsts.len()
            &&& 0 <= origin[k].1 < seconds.len()
            &&& deal_both(firsts[origin[k].0], seconds[origin[k].1], hands, dead_cards)
        }
    &&& forall|a: int, b: int|
        0 <= a < firsts.len() && 0 <= b < seconds.len() && #[trigger] deal_both(
            firsts[a],
            seconds[b],
            hands,
            dead_cards,
        ) ==> origin.contains((a, b))
}

pub open spec fn dealing_seconds(
    first: WeightedCombo,
    seconds: Seq<WeightedCombo>,
    hands: (Combo, Combo),
    dead_cards: u64,
) -> spec_fn(int) -> bool {
    |b: int| deal_both(first, seconds[b], hands, dead_cards)
}

proof fn lemma_row(
    first: WeightedCombo,
    seconds: Seq<WeightedCombo>,
    hands: (Combo, Combo),
    dead_cards: u64,
) -> (origin: Seq<int>)
    requires
        hands.0.valid(),
        hands.1.valid(),
        first.combo.valid(),
        forall|i: int| 0 <= i < seconds.len() ==> (#[trigger] seconds[i]).combo.valid(),
    ensures
        ({
            let items = items_of(
                row_pairs(first, seconds, dead_cards),
                pair_key(hands.0, hands.1),
            );
            &&& picks(
                origin,
                seconds.len() as int,
                dealing_seconds(first, seconds, hands, dead_cards),
            )
            &&& items.len() == origin.len()
            &&& forall|k: int|
                0 <= k < origin.len() ==> #[trigger] items[k] == (
                    first.weight,
                    seconds[origin[k]].weight,
                )
        }),
    decreases seconds.len(),
{
    let key = pair_key(hands.0, hands.1);
    if seconds.len() == 0 {
        Seq::empty()
    } else {
        let rest = seconds.drop_last();
        assert forall|i: int| 0 <= i < rest.len() implies (#[trigger] rest[i]).combo.valid() by {
            assert(seconds[i].combo.valid());
        }
        let shorter = lemma_row(first, rest, hands, dead_cards);
        let count = seconds.len() - 1;
        let second = seconds.last();
        assert(seconds[count].combo.valid());
        let keep = dealing_seconds(first, seconds, hands, dead_cards);
        lemma_hands_meet(second.combo, first.combo, dead_cards);
        lemma_hands_meet(first.combo, second.combo, dead_cards);
        assert(picks(shorter, count, keep)) by {
            let earlier = dealing_seconds(first, rest, hands, dead_cards);
            assert forall|k: int| 0 <= k < shorter.len() implies 0 <= #[trigger] shorter[k] < count
                && keep(shorter[k]) by {
                assert(earlier(shorter[k]));
            }
            assert forall|i: int| 0 <= i < count && #[trigger] keep(i) implies shorter.contains(
                i,
            ) by {
                assert(earlier(i));
            }
        }
        let list = row_pairs(first, rest, dead_cards);
        if pair_dealable(first, second, dead_cards) {
            let longer = list.push(
                (pair_key(first.combo, second.combo), (first.weight, second.weight)),
            );
            assert(longer.drop_last() =~= list);
            assert(pair_key(first.combo, second.combo) == key <==> first.combo == hands.0
                && second.combo == hands.1);
        }
        let origin = lemma_pick(shorter, count, keep);
        let before = items_of(list, key);
        let items = items_of(row_pairs(first, seconds, dead_cards), key);
        assert forall|k: int| 0 <= k < origin.len() implies #[trigger] items[k] == (
            first.weight,
            seconds[origin[k]].weight,
        ) by {
            if k < shorter.len() {
                assert(before[k] == (first.weight, rest[shorter[k]].weight));
            }
        }
        origin
    }
}

proof fn lemma_items_concat<V>(left: Seq<(Key, V)>, right: Seq<(Key, V)>, key: Key)
    ensures
        items_of(left + right, key) == items_of(left, key) + items_of(right, key),
    decreases right.len(),
{
    if right.len() == 0 {
        assert(left + right =~= left);
        assert(items_of(left, key) + items_of(right, key) =~= items_of(left, key));
    } else {
        assert((left + right).drop_last() =~= left + right.drop_last());
        lemma_items_concat(left, right.drop_last(), key);
        assert(items_of(left + right, key) =~= items_of(left, key) + items_of(right, key));
    }
}

/// The weight pairs of two hands are those of the pairs of entries that deal them,
/// each once, ordered by the first range and then by the second.
pub proof fn lemma_weights_of_a_pair(
    firsts: Seq<WeightedCombo>,
    seconds: Seq<WeightedCombo>,
    hands: (Combo, Combo),
    dead_cards: u64,
) -> (origin: Seq<(int, int)>)
    requires
        hands.0.valid(),
        hands.1.valid(),
        forall|i: int| 0 <= i < firsts.len() ==> (#[trigger] firsts[i]).combo.valid(),
        forall|i: int| 0 <= i < seconds.len() ==> (#[trigger] seconds[i]).combo.valid(),
    ensures
        picks_pairs(origin, firsts, seconds, hands, dead_cards),
        pair_weights_of(firsts, seconds, dead_cards, hands).len() == origin.len(),
        forall|k: int|
            0 <= k < origin.len() ==> #[trigger] pair_weights_of(firsts, seconds, dead_cards, hands)[k]
                == (firsts[origin[k].0].weight, seconds[origin[k].1].weight),
    decreases firsts.len(),
{
    if firsts.len() == 0 {
        Seq::empty()
    } else {
        let key = pair_key(hands.0, hands.1);
        let rest = firsts.drop_last();
        let last = firsts.len() - 1;
        assert forall|i: int| 0 <= i < rest.len() implies (#[trigger] rest[i]).combo.valid() by {
            assert(firsts[i].combo.valid());
        }
        assert(firsts[last].combo.valid());
        let shorter = lemma_weights_of_a_pair(rest, seconds, hands, dead_cards);
        let row = lemma_row(firsts[last], seconds, hands, dead_cards);
        let list = legal_pairs(rest, seconds, dead_cards);
        let line = row_pairs(firsts[last], seconds, dead_cards);
        lemma_items_concat(list, line, key);
        let tail = row.map_values(|b: int| (last, b));
        let origin = shorter + tail;
        let before = pair_weights_of(rest, seconds, dead_cards, hands);
        let items = items_of(line, key);
        assert(pair_weights_of(firsts, seconds, dead_cards, hands) == before + items);
        let keep = dealing_seconds(firsts[last], seconds, hands, dead_cards);
        assert forall|k: int| 0 <= k < origin.len() implies {
            &&& 0 <= (#[trigger] origin[k]).0 < firsts.len()
            &&& 0 <= origin[k].1 < seconds.len()
            &&& deal_both(firsts[origin[k].0], seconds[origin[k].1], hands, dead_cards)
        } by {
            if k < shorter.len() {
                assert(origin[k] == shorter[k]);
                assert(rest[shorter[k].0] == firsts[shorter[k].0]);
            } else {
                let m = k - shorter.len();
                assert(origin[k] == (last, row[m]));
                assert(keep(row[m]));
            }
        }
        assert forall|a: int, b: int|
            0 <= a < firsts.len() && 0 <= b < seconds.len() && #[trigger] deal_both(
                firsts[a],
                seconds[b],
                hands,
                dead_cards,
            ) implies origin.contains((a, b)) by {
            if a < last {
                assert(rest[a] == firsts[a]);
                assert(shorter.contains((a, b)));
                let k = choose|k: int| 0 <= k < shorter.len() && shorter[k] == (a, b);
                assert(origin[k] == (a, b));
            } else {
                assert(keep(b));
                let m = choose|m: int| 0 <= m < row.len() && row[m] == b;
                assert(tail[m] == (last, b));
                assert(origin[shorter.len() + m] == (a, b));
            }
        }
        assert forall|j: int, k: int| 0 <= j < k < origin.len() implies {
            ||| (#[trigger] origin[j]).0 < (#[trigger] origin[k]).0
            ||| origin[j].0 == origin[k].0 && origin[j].1 < origin[k].1
        } by {
            if k < shorter.len() {
                assert(origin[j] == shorter[j] && origin[k] == shorter[k]);
            } else if j < shorter.len() {
                assert(origin[j] == shorter[j]);
                assert(origin[k] == (last, row[k - shorter.len()]));
                assert(0 <= shorter[j].0 < rest.len());
            } else {
                assert(origin[j] == (last, row[j - shorter.len()]));
                assert(origin[k] == (last, row[k - shorter.len()]));
            }
        }
        assert forall|k: int| 0 <= k < origin.len() implies #[trigger] pair_weights_of(
            firsts,
            seconds,
            dead_cards,
            hands,
        )[k] == (firsts[origin[k].0].weight, seconds[origin[k].1].weight) by {
            if k < shorter.len() {
                assert(before[k] == (rest[shorter[k].0].weight, seconds[shorter[k].1].weight));
                assert(0 <= shorter[k].0 < rest.len());
                assert(origin[k] == shorter[k]);
            } else {
                let m = k - shorter.len();
                assert(items[m] == (firsts[last].weight, seconds[row[m]].weight));
                assert(origin[k] == (last, row[m]));
            }
        }
        origin
    }
}

/// A listed profile deals each player one hand of their candidates, no dead card and
/// no card to two players.
pub proof fn lemma_profiles_deal_each_card_once(
    candidates: Seq<Vec<Candidate>>,
    dead_cards: u64,
    profile: Seq<Candidate>,
    p: int,
    q: int,
)
    requires
        crate::ranges::candidates_valid(candidates),
        profiles(candidates, 0, 0, dead_cards, Seq::empty()).contains(profile),
        0 <= p < candidates.len(),
        0 <= q < candidates.len(),
        p != q,
    ensures
        profile.len() == candidates.len(),
        candidates[p]@.contains(profile[p]),
        !is_dead(profile[p].combo, dead_cards),
        !share_a_card(profile[p].combo, profile[q].combo),
{
    crate::ranges::lemma_profiles_are_exact(candidates, dead_cards, profile);
    assert(legal_profile(candidates, dead_cards, profile));
    assert(candidates[p]@.contains(profile[p]) && candidates[q]@.contains(profile[q]));
    let i = choose|i: int| 0 <= i < candidates[p]@.len() && candidates[p]@[i] == profile[p];
    let j = choose|j: int| 0 <= j < candidates[q]@.len() && candidates[q]@[j] == profile[q];
    assert(candidates[p]@[i].combo.valid() && candidates[q]@[j].combo.valid());
    lemma_hands_meet(profile[p].combo, profile[q].combo, dead_cards);
    lemma_hands_meet(profile[q].combo, profile[p].combo, dead_cards);
    assert(profile[p].combo.spec_mask() & dead_cards == 0);
    if p < q {
        assert(profile[p].combo.spec_mask() & profile[q].combo.spec_mask() == 0);
    } else {
        assert(profile[q].combo.spec_mask() & profile[p].combo.spec_mask() == 0);
    }
}

/// A draw is the upper 53 bits of the state.
pub proof fn lemma_draws(state: u64)
    ensures
        draw_of(state) == state / 2048,
        draw_of(state) < 0x20_0000_0000_0000,
{
    assert(state >> 11u64 == state / 2048) by (bit_vector);
    assert(state >> 11u64 < 0x20_0000_0000_0000) by (bit_vector);
}

/// The seat draws no hand: it holds the given one.
pub open spec fn holds_fixed(fixed: Option<FixedHand>, seat: int) -> bool {
    fixed is Some && fixed->Some_0.player == seat
}

/// How a seat comes to its hand: by the given one, without a draw, or by the
/// candidate that the next draw names.
pub open spec fn drawn(
    candidates: Seq<Vec<Candidate>>,
    thresholds: Seq<Vec<u64>>,
    fixed: Option<FixedHand>,
    seat: int,
    before: u64,
    after: u64,
    hand: Combo,
) -> bool {
    if holds_fixed(fixed, seat) {
        after == before && hand == fixed->Some_0.hand
    } else {
        after == xorshift(before) && hand == candidates[seat]@[chosen_index(
            thresholds[seat]@,
            after >> 11u64,
        )].combo
    }
}

/// A deal is drawn seat by seat: each seat moves the generator once and takes the
/// candidate that the draw names; a given hand is dealt without a draw.
pub proof fn lemma_hands_are_drawn_in_turn(
    candidates: Seq<Vec<Candidate>>,
    thresholds: Seq<Vec<u64>>,
    fixed: Option<FixedHand>,
    player: int,
    used: u64,
    hands: Seq<Combo>,
    state: u64,
) -> (states: Seq<u64>)
    requires
        0 <= player <= candidates.len(),
        hands.len() == player,
    ensures
        attempt(candidates, thresholds, fixed, player, used, hands, state).0 matches Some(dealt)
            ==> {
            &&& dealt.len() == candidates.len()
            &&& dealt.take(player) == hands
            &&& states.len() == candidates.len() - player + 1
            &&& states[0] == state
            &&& states.last() == attempt(
                candidates,
                thresholds,
                fixed,
                player,
                used,
                hands,
                state,
            ).1
            &&& forall|p: int|
                player <= p < candidates.len() ==> drawn(
                    candidates,
                    thresholds,
                    fixed,
                    p,
                    states[p - player],
                    states[p - player + 1],
                    #[trigger] dealt[p],
                )
        },
    decreases candidates.len() - player,
{
    let result = attempt(candidates, thresholds, fixed, player, used, hands, state);
    if player >= candidates.len() {
        assert(hands.take(player) =~= hands);
        seq![state]
    } else if result.0 is Some {
        let held = holds_fixed(fixed, player);
        let next = if held {
            state
        } else {
            xorshift(state)
        };
        let combo = if held {
            fixed->Some_0.hand
        } else {
            candidates[player]@[chosen_index(thresholds[player]@, draw_of(next))].combo
        };
        let rest = lemma_hands_are_drawn_in_turn(
            candidates,
            thresholds,
            fixed,
            player + 1,
            used | combo.spec_mask(),
            hands.push(combo),
            next,
        );
        let states = seq![state] + rest;
        let dealt = result.0->Some_0;
        assert(dealt.take(player + 1)[player] == hands.push(combo)[player]);
        assert(dealt.take(player) =~= hands) by {
            assert forall|i: int| 0 <= i < player implies dealt[i] == hands[i] by {
                assert(dealt.take(player + 1)[i] == hands.push(combo)[i]);
            }
        }
        assert(states.last() == rest.last());
        assert forall|p: int| player <= p < candidates.len() implies drawn(
            candidates,
            thresholds,
            fixed,
            p,
            states[p - player],
            states[p - player + 1],
            #[trigger] dealt[p],
        ) by {
            if p > player {
                assert(drawn(
                    candidates,
                    thresholds,
                    fixed,
                    p,
                    rest[p - (player + 1)],
                    rest[p - (player + 1) + 1],
                    dealt[p],
                ));
                assert(states[p - player] == rest[p - (player + 1)]);
                assert(states[p - player + 1] == rest[p - (player + 1) + 1]);
            } else {
                assert(states[1] == rest[0]);
            }
        }
        states
    } else {
        seq![state]
    }
}

/// A sample is the first attempt that succeeds: every attempt before it failed, each
/// began where the one before it stopped, and the number counts them.
#[verifier::rlimit(60)]
pub proof fn lemma_attempts_follow_each_other(
    candidates: Seq<Vec<Candidate>>,
    thresholds: Seq<Vec<u64>>,
    fixed: Option<FixedHand>,
    dead_cards: u64,
    state: u64,
    number: int,
    limit: int,
) -> (states: Seq<u64>)
    requires
        number <= limit + 1,
    ensures
        ({
            let (sample, end) = attempts(
                candidates,
                thresholds,
                fixed,
                dead_cards,
                state,
                number,
                limit,
            );
            let tried = match sample {
                Some(found) => found.1 - number,
                None => limit - number + 1,
            };
            let none = Seq::<Combo>::empty();
            &&& sample matches Some(found) ==> number <= found.1 <= limit
            &&& states.len() == tried + 1
            &&& states[0] == state
            &&& forall|k: int|
                0 <= k < tried ==> attempt(
                    candidates,
                    thresholds,
                    fixed,
                    0,
                    dead_cards,
                    none,
                    #[trigger] states[k],
                ) == (None::<Seq<Combo>>, states[k + 1])
            &&& sample matches Some(found) ==> attempt(
                candidates,
                thresholds,
                fixed,
                0,
                dead_cards,
                none,
                states.last(),
            ) == (Some(found.0), end)
            &&& sample is None ==> states.last() == end
        }),
    decreases limit - number + 1,
{
    if number > limit {
        seq![state]
    } else {
        let (dealt, next) = attempt(
            candidates,
            thresholds,
            fixed,
            0,
            dead_cards,
            Seq::empty(),
            state,
        );
        if dealt is Some {
            seq![state]
        } else {
            let rest = lemma_attempts_follow_each_other(
                candidates,
                thresholds,
                fixed,
                dead_cards,
                next,
                number + 1,
                limit,
            );
            let states = seq![state] + rest;
            assert(states.last() == rest.last());
            assert(states[1] == rest[0]);
            assert forall|k: int| 0 <= k < states.len() - 1 implies attempt(
                candidates,
                thresholds,
                fixed,
                0,
                dead_cards,
                Seq::<Combo>::empty(),
                #[trigger] states[k],
            ) == (None::<Seq<Combo>>, states[k + 1]) by {
                if k > 0 {
                    assert(states[k] == rest[k - 1]);
                    assert(states[k + 1] == rest[k]);
                }
            }
            states
        }
    }
}

/// The player named as without candidates is the first one.
pub proof fn lemma_first_without_candidates(candidates: Seq<Vec<Candidate>>, from: int)
    requires
        0 <= from <= candidates.len(),
    ensures
        match first_empty(candidates, from) {
            Some(player) => {
                &&& from <= player < candidates.len()
                &&& candidates[player]@.len() == 0
                &&& forall|p: int| from <= p < player ==> (#[trigger] candidates[p])@.len() > 0
            },
            None => forall|p: int|
                from <= p < candidates.len() ==> (#[trigger] candidates[p])@.len() > 0,
        },
    decreases candidates.len() - from,
{
    if from < candidates.len() && candidates[from]@.len() > 0 {
        lemma_first_without_candidates(candidates, from + 1);
    }
}

} // verus!
