//! The order in which cards are chosen and things are kept, and what is kept at all.
use vstd::prelude::*;

use crate::batch_metrics::BatchMetricsView;
use crate::bits::{above_zero, below_zero, finite};
use crate::chance::{card_triples, choices, second_cards, single_cards, third_cards};
use crate::checkpoint::{fit_error, key_has_count, usable, DecisionKey, InfoSetCheckpoint};
use crate::game::{game_error, GameError, StaticGame};
use crate::hash::{fnv_byte, fnv_bytes, le_byte, FNV_PRIME};
use crate::laws::picks::picks;
use crate::laws::trees::lemma_filtered;
use crate::multiway::{multiway_structure_error, MultiwayError, MultiwayStaticGame};
use crate::ranges::{keeps, usable_candidates, weight_ok, Candidate, RangeError};
use crate::table::Key;
use crate::text::is_space;
use crate::walk::Shape;

verus! {

/// The cards of one choice come before those of another: the first difference decides.
pub open spec fn comes_first(left: Seq<u8>, right: Seq<u8>) -> bool {
    exists|at: int|
        {
            &&& 0 <= at < left.len()
            &&& at < right.len()
            &&& #[trigger] left[at] < right[at]
            &&& forall|i: int| 0 <= i < at ==> left[i] == right[i]
        }
}

/// The choices ascend.
pub open spec fn choices_ascend(list: Seq<Seq<u8>>) -> bool {
    forall|x: int, y: int|
        0 <= x < y < list.len() ==> comes_first(#[trigger] list[x], #[trigger] list[y])
}

pub open spec fn cards_ascend(cards: Seq<u8>) -> bool {
    forall|i: int, j: int| 0 <= i < j < cards.len() ==> cards[i] < cards[j]
}

proof fn lemma_joined(left: Seq<Seq<u8>>, right: Seq<Seq<u8>>)
    requires
        choices_ascend(left),
        choices_ascend(right),
        forall|x: int, y: int|
            0 <= x < left.len() && 0 <= y < right.len() ==> comes_first(
                #[trigger] left[x],
                #[trigger] right[y],
            ),
    ensures
        choices_ascend(left + right),
{
    let all = left + right;
    assert forall|x: int, y: int| 0 <= x < y < all.len() implies comes_first(
        #[trigger] all[x],
        #[trigger] all[y],
    ) by {
        if y < left.len() {
            assert(all[x] == left[x] && all[y] == left[y]);
        } else if x < left.len() {
            assert(all[x] == left[x] && all[y] == right[y - left.len()]);
        } else {
            assert(all[x] == right[x - left.len()] && all[y] == right[y - left.len()]);
        }
    }
}

proof fn lemma_singles_ascend(cards: Seq<u8>, i: int)
    requires
        cards_ascend(cards),
        0 <= i <= cards.len(),
    ensures
        choices_ascend(single_cards(cards, i)),
        forall|x: int|
            0 <= x < single_cards(cards, i).len() ==> (#[trigger] single_cards(cards, i)[x]).len()
                == 1 && (i < cards.len() ==> single_cards(cards, i)[x][0] >= cards[i]),
    decreases cards.len() - i,
{
    if i < cards.len() {
        lemma_singles_ascend(cards, i + 1);
        let head = seq![seq![cards[i]]];
        let rest = single_cards(cards, i + 1);
        assert forall|x: int, y: int| 0 <= x < head.len() && 0 <= y < rest.len() implies comes_first(
            #[trigger] head[x],
            #[trigger] rest[y],
        ) by {
            assert(rest[y].len() == 1);
            assert(i + 1 < cards.len());
            assert(head[x][0] < rest[y][0]);
        }
        lemma_joined(head, rest);
        assert forall|x: int| 0 <= x < single_cards(cards, i).len() implies (
        #[trigger] single_cards(cards, i)[x]).len() == 1 && single_cards(cards, i)[x][0]
            >= cards[i] by {
            if x > 0 {
                assert(single_cards(cards, i)[x] == rest[x - 1]);
                assert(i + 1 < cards.len());
            }
        }
    }
}

proof fn lemma_thirds_ascend(cards: Seq<u8>, i: int, j: int, k: int)
    requires
        cards_ascend(cards),
        0 <= i < j < k <= cards.len(),
    ensures
        choices_ascend(third_cards(cards, i, j, k)),
        forall|x: int|
            0 <= x < third_cards(cards, i, j, k).len() ==> {
                let chosen = #[trigger] third_cards(cards, i, j, k)[x];
                chosen.len() == 3 && chosen[0] == cards[i] && chosen[1] == cards[j] && (k
                    < cards.len() ==> chosen[2] >= cards[k])
            },
    decreases cards.len() - k,
{
    if k < cards.len() {
        lemma_thirds_ascend(cards, i, j, k + 1);
        let head = seq![seq![cards[i], cards[j], cards[k]]];
        let rest = third_cards(cards, i, j, k + 1);
        assert forall|x: int, y: int| 0 <= x < head.len() && 0 <= y < rest.len() implies comes_first(
            #[trigger] head[x],
            #[trigger] rest[y],
        ) by {
            assert(rest[y].len() == 3);
            assert(k + 1 < cards.len());
            assert(head[x][2] < rest[y][2]);
        }
        lemma_joined(head, rest);
        assert forall|x: int| 0 <= x < third_cards(cards, i, j, k).len() implies {
            let chosen = #[trigger] third_cards(cards, i, j, k)[x];
            chosen.len() == 3 && chosen[0] == cards[i] && chosen[1] == cards[j] && chosen[2]
                >= cards[k]
        } by {
            if x > 0 {
                assert(third_cards(cards, i, j, k)[x] == rest[x - 1]);
                assert(k + 1 < cards.len());
            }
        }
    }
}

proof fn lemma_seconds_ascend(cards: Seq<u8>, i: int, j: int)
    requires
        cards_ascend(cards),
        0 <= i < j <= cards.len(),
    ensures
        choices_ascend(second_cards(cards, i, j)),
        forall|x: int|
            0 <= x < second_cards(cards, i, j).len() ==> {
                let chosen = #[trigger] second_cards(cards, i, j)[x];
                chosen.len() == 3 && chosen[0] == cards[i] && (j < cards.len() ==> chosen[1]
                    >= cards[j])
            },
    decreases cards.len() - j,
{
    if j < cards.len() {
        lemma_seconds_ascend(cards, i, j + 1);
        lemma_thirds_ascend(cards, i, j, j + 1);
        let head = third_cards(cards, i, j, j + 1);
        let rest = second_cards(cards, i, j + 1);
        assert forall|x: int, y: int| 0 <= x < head.len() && 0 <= y < rest.len() implies comes_first(
            #[trigger] head[x],
            #[trigger] rest[y],
        ) by {
            assert(rest[y].len() == 3 && head[x].len() == 3);
            assert(j + 1 < cards.len());
            assert(head[x][1] < rest[y][1]);
            assert(head[x][0] == rest[y][0]);
        }
        lemma_joined(head, rest);
        assert forall|x: int| 0 <= x < second_cards(cards, i, j).len() implies {
            let chosen = #[trigger] second_cards(cards, i, j)[x];
            chosen.len() == 3 && chosen[0] == cards[i] && chosen[1] >= cards[j]
        } by {
            if x < head.len() {
                assert(second_cards(cards, i, j)[x] == head[x]);
            } else {
                assert(second_cards(cards, i, j)[x] == rest[x - head.len()]);
                assert(j + 1 < cards.len());
            }
        }
    }
}

proof fn lemma_triples_ascend(cards: Seq<u8>, i: int)
    requires
        cards_ascend(cards),
        0 <= i <= cards.len(),
    ensures
        choices_ascend(card_triples(cards, i)),
        forall|x: int|
            0 <= x < card_triples(cards, i).len() ==> {
                let chosen = #[trigger] card_triples(cards, i)[x];
                chosen.len() == 3 && (i < cards.len() ==> chosen[0] >= cards[i])
            },
    decreases cards.len() - i,
{
    if i < cards.len() {
        lemma_triples_ascend(cards, i + 1);
        lemma_seconds_ascend(cards, i, i + 1);
        let head = second_cards(cards, i, i + 1);
        let rest = card_triples(cards, i + 1);
        assert forall|x: int, y: int| 0 <= x < head.len() && 0 <= y < rest.len() implies comes_first(
            #[trigger] head[x],
            #[trigger] rest[y],
        ) by {
            assert(rest[y].len() == 3 && head[x].len() == 3);
            assert(i + 1 < cards.len());
            assert(head[x][0] < rest[y][0]);
        }
        lemma_joined(head, rest);
        assert forall|x: int| 0 <= x < card_triples(cards, i).len() implies {
            let chosen = #[trigger] card_triples(cards, i)[x];
            chosen.len() == 3 && chosen[0] >= cards[i]
        } by {
            if x < head.len() {
                assert(card_triples(cards, i)[x] == head[x]);
            } else {
                assert(card_triples(cards, i)[x] == rest[x - head.len()]);
                assert(i + 1 < cards.len());
            }
        }
    }
}

/// Enumerated cards come in ascending order, the lowest first, and no choice comes
/// twice.
pub proof fn lemma_choices_in_order(cards: Seq<u8>, width: nat)
    requires
        cards_ascend(cards),
        width == 1 || width == 3,
    ensures
        choices_ascend(choices(cards, width)),
{
    lemma_singles_ascend(cards, 0);
    lemma_triples_ascend(cards, 0);
}

/// A weight may stand in a range, and a sum in a checkpoint, where it is a number of at
/// least zero; a combo stays in play where its sum is a number above zero.
pub proof fn lemma_usable_numbers(bits: u64, candidate: Candidate)
    ensures
        weight_ok(bits) <==> finite(bits) && !below_zero(bits),
        usable(bits) <==> finite(bits) && !below_zero(bits),
        keeps(candidate) <==> finite(candidate.weight) && above_zero(candidate.weight),
{
}

pub open spec fn stays_in_play(summed: Seq<Candidate>) -> spec_fn(int) -> bool {
    |i: int| finite(summed[i].weight) && above_zero(summed[i].weight)
}

/// The candidates of a range are its combos whose weight is a number above zero, all of
/// them and in order; a range without one is refused under its number.
pub proof fn lemma_candidates_in_play(
    summed: Vec<Candidate>,
    player: usize,
    result: Result<Vec<Candidate>, RangeError>,
) -> (origin: Seq<int>)
    requires
        call_ensures(usable_candidates, (&summed, player), result),
    ensures
        picks(origin, summed@.len() as int, stays_in_play(summed@)),
        result is Ok <==> origin.len() > 0,
        result matches Err(error) ==> error == (RangeError::NoLegalCombos { range: player }),
        result matches Ok(candidates) ==> candidates@.len() == origin.len() && forall|k: int|
            0 <= k < origin.len() ==> #[trigger] candidates@[k] == summed@[origin[k]],
{
    let keep = |candidate: Candidate| keeps(candidate);
    let origin = lemma_filtered(summed@, keep);
    let by_index = |i: int| keep(summed@[i]);
    let stays = stays_in_play(summed@);
    assert(picks(origin, summed@.len() as int, stays)) by {
        assert forall|k: int| 0 <= k < origin.len() implies 0 <= #[trigger] origin[k]
            < summed@.len() && stays(origin[k]) by {
            assert(by_index(origin[k]));
        }
        assert forall|i: int| 0 <= i < summed@.len() && #[trigger] stays(i) implies origin.contains(
            i,
        ) by {
            assert(by_index(i));
        }
    }
    origin
}

/// Keys are ordered by their first part, then by their second, then by their third.
pub proof fn lemma_key_order(left: Key, right: Key)
    ensures
        left.major < right.major ==> left.below(right),
        left.major == right.major && left.middle < right.middle ==> left.below(right),
        left.major == right.major && left.middle == right.middle ==> (left.below(right)
            <==> left.minor < right.minor),
        left != right ==> left.below(right) != right.below(left),
        !left.below(left),
{
}

/// A game for two needs nodes and a root among them.
pub proof fn lemma_games_need_a_root(game: StaticGame, sums_ok: Seq<bool>)
    requires
        game.nodes@.len() <= usize::MAX,
    ensures
        game.nodes@.len() == 0 ==> game_error(game, sums_ok) == Some(GameError::NoNodes),
        game.nodes@.len() > 0 && game.root >= game.nodes@.len() ==> game_error(game, sums_ok)
            == Some(GameError::RootOutOfRange),
{
}

/// A game of several players needs three of them, nodes, and a root among those.
pub proof fn lemma_multiway_games_need_a_root(game: MultiwayStaticGame, sums_ok: Seq<bool>)
    ensures
        game.player_count < 3 ==> multiway_structure_error(game, sums_ok) == Some(
            MultiwayError::TooFewPlayers { players: game.player_count },
        ),
        game.player_count >= 3 && game.nodes@.len() == 0 ==> multiway_structure_error(
            game,
            sums_ok,
        ) == Some(MultiwayError::NoNodes),
        game.player_count >= 3 && game.nodes@.len() > 0 && game.root >= game.nodes@.len()
            ==> multiway_structure_error(game, sums_ok) == Some(MultiwayError::RootOutOfRange),
{
}

/// An entry fits a game where some decision of its information set offers as many
/// actions; where all fit, there is no error.
pub proof fn lemma_entries_that_fit(
    nodes: Seq<Option<DecisionKey>>,
    entries: Seq<InfoSetCheckpoint>,
    from: int,
    i: int,
) -> (n: int)
    requires
        0 <= from <= i < entries.len(),
        fit_error(nodes, entries, from) is None,
    ensures
        0 <= n < nodes.len(),
        nodes[n] is Some,
        nodes[n]->Some_0.player == entries[i].player,
        nodes[n]->Some_0.infoset == entries[i].infoset,
        nodes[n]->Some_0.actions == entries[i].regret_sum@.len(),
    decreases i - from,
{
    if from == i {
        let key = entries[i].key();
        let count = entries[i].regret_sum@.len();
        assert(key_has_count(nodes, nodes.len() as int, key, count));
        choose|n: int|
            0 <= n < nodes.len() && n < nodes.len() && #[trigger] crate::checkpoint::decision_key(
                nodes[n],
            ) == Some((key, count))
    } else {
        lemma_entries_that_fit(nodes, entries, from + 1, i)
    }
}

/// A walk that draws counts one chance node or one action, by what it drew for; a walk
/// that does not draw counts nothing.
pub proof fn lemma_counted_draws(metrics: BatchMetricsView, drawn: bool, shape: Shape)
    requires
        metrics.sampled_chance_nodes < u64::MAX,
        metrics.sampled_opponent_actions < u64::MAX,
    ensures
        ({
            let after = metrics.walked(drawn, shape);
            &&& after.sampled_chance_nodes == metrics.sampled_chance_nodes + if drawn && shape
                is Chance {
                1int
            } else {
                0
            }
            &&& after.sampled_opponent_actions == metrics.sampled_opponent_actions + if drawn
                && shape is Decision {
                1int
            } else {
                0
            }
            &&& !drawn ==> after == metrics
            &&& after.infoset_visits == metrics.infoset_visits
            &&& after.traverser_updates == metrics.traverser_updates
            &&& after.sampled_private_deals == metrics.sampled_private_deals
            &&& after.private_sampling_attempts == metrics.private_sampling_attempts
        }),
{
}

/// Of the plain characters only the blank and the five controls from the tab on are
/// white space; letters, digits and signs are not.
pub proof fn lemma_plain_white_space(character: char)
    requires
        character as u32 <= 0x7f,
    ensures
        is_space(character) <==> character == ' ' || character == '\t' || character == '\n'
            || character == '\r' || character as u32 == 0xb || character as u32 == 0xc,
{
}

/// The bytes of a word are its digits to the base of 256, the lowest first.
pub proof fn lemma_bytes_of_a_word(value: u64, i: int)
    requires
        0 < i < 8,
    ensures
        le_byte(value, 0) == value % 256,
        le_byte(value, i) == le_byte(value / 256, i - 1),
{
    assert((value >> 0u64) & 0xff == value % 256) by (bit_vector);
    let high = (8 * i) as u64;
    let low = (8 * (i - 1)) as u64;
    assert((value >> high) & 0xff == ((value / 256) >> low) & 0xff) by (bit_vector)
        requires
            high == low + 8,
            low < 56,
    ;
}

/// The hash takes the lowest byte of a word first, then the bytes of what is left; a
/// byte is mixed in before the multiplication.
pub proof fn lemma_hash_takes_low_bytes_first(hash: u64, value: u64, count: nat)
    requires
        count < 8,
    ensures
        fnv_bytes(hash, value, count + 1) == fnv_bytes(
            fnv_byte(hash, value % 256),
            value / 256,
            count,
        ),
        fnv_byte(hash, hash) == 0,
        hash ^ value != 0 ==> fnv_byte(hash, value) == ((hash ^ value) * FNV_PRIME) % 0x1_0000_0000_0000_0000,
    decreases count,
{
    assert(hash ^ hash == 0) by (bit_vector);
    if count == 0 {
        lemma_bytes_of_a_word(value, 1);
        assert(fnv_bytes(hash, value, 0) == hash);
        assert(fnv_bytes(hash, value, 1) == fnv_byte(fnv_bytes(hash, value, 0), le_byte(value, 0)));
    } else {
        lemma_hash_takes_low_bytes_first(hash, value, (count - 1) as nat);
        lemma_bytes_of_a_word(value, count as int);
        assert(fnv_bytes(hash, value, count + 1) == fnv_byte(
            fnv_bytes(hash, value, count),
            le_byte(value, count as int),
        ));
    }
}

} // verus!
