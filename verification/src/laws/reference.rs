//! The reference games by the rules of their play.
use vstd::prelude::*;

use crate::bits::{ONE_BITS, SIGN_BITS};
use crate::game::StaticGame;
use crate::reference_games::{
    board_block, board_nodes, board_outcomes, kuhn_block, kuhn_deals, kuhn_nodes, kuhn_outcomes,
    kuhn_poker, kuhn_showdown, leduc_deals, leduc_nodes, leduc_outcomes, leduc_poker,
    leduc_showdown, matching_pennies, node_views, number_bits, postflop_block,
    preflop_block, round_block, NodeView, RoundKeys, ONE_QUARTER_BITS, ONE_SIXTH_BITS,
    ONE_THIRTIETH_BITS,
};

verus! {

/// How strong a rank is beside a board: a pair beats every card without one.
pub open spec fn strength(rank: int, board: int) -> int {
    if rank == board {
        1_000
    } else {
        rank
    }
}

/// One for the first player's win, minus one for the second player's, zero for a
/// split.
pub open spec fn winner_sign(first: int, second: int) -> int {
    if first > second {
        1
    } else if first < second {
        -1
    } else {
        0
    }
}

/// A leaf at which the first player wins `amount` and the second loses it.
pub open spec fn is_worth(node: NodeView, amount: int) -> bool {
    node matches NodeView::Terminal { first, second } && first == number_bits(amount) && second
        == number_bits(-amount)
}

/// The number of the node that an action leads to.
pub open spec fn after(nodes: Seq<NodeView>, node: int, action: int) -> int {
    nodes[node]->Decision_children[action] as int
}

/// A player decides between two actions at a node of an information set.
pub open spec fn is_up(nodes: Seq<NodeView>, node: int, player: usize, infoset: int) -> bool {
    &&& 0 <= node < nodes.len()
    &&& nodes[node] matches NodeView::Decision { player: actor, infoset: set, children }
    &&& actor == player
    &&& set == infoset
    &&& children.len() == 2
}

/// The nodes `block` stand in `nodes` from `base` on.
pub open spec fn stands(nodes: Seq<NodeView>, base: int, block: Seq<NodeView>) -> bool {
    &&& 0 <= base
    &&& base + block.len() <= nodes.len() <= usize::MAX
    &&& forall|i: int| 0 <= i < block.len() ==> #[trigger] nodes[base + i] == block[i]
}

/// The play of a betting round from its first node: action zero checks or folds,
/// action one bets or calls.
pub open spec fn plays_round(
    nodes: Seq<NodeView>,
    root: int,
    keys: RoundKeys,
    checked: int,
    called: int,
    stake: int,
) -> bool {
    let check = after(nodes, root, 0);
    let bet = after(nodes, root, 1);
    let check_bet = after(nodes, check, 1);
    &&& is_up(nodes, root, 0, keys.open as int)
    &&& is_up(nodes, check, 1, keys.checked as int)
    &&& is_worth(nodes[after(nodes, check, 0)], checked)
    &&& is_up(nodes, check_bet, 0, keys.check_raised as int)
    &&& is_worth(nodes[after(nodes, check_bet, 0)], -stake)
    &&& is_worth(nodes[after(nodes, check_bet, 1)], called)
    &&& is_up(nodes, bet, 1, keys.bet as int)
    &&& is_worth(nodes[after(nodes, bet, 0)], stake)
    &&& is_worth(nodes[after(nodes, bet, 1)], called)
}

/// Who folds loses the stake, a round that is checked through is worth the small
/// pot, a called bet the large one, whoever made it.
proof fn lemma_round_play(
    nodes: Seq<NodeView>,
    base: int,
    keys: RoundKeys,
    small: int,
    large: int,
    stake: int,
)
    requires
        stands(nodes, base, round_block(base, keys, small, large, stake)),
    ensures
        plays_round(nodes, base + 8, keys, small, large, stake),
{
    let block = round_block(base, keys, small, large, stake);
    assert(nodes[base + 8] == block[8]);
    assert(nodes[base + 7] == block[7]);
    assert(nodes[base + 6] == block[6]);
    assert(nodes[base + 5] == block[5]);
    assert(nodes[base + 4] == block[4]);
    assert(nodes[base + 3] == block[3]);
    assert(nodes[base + 2] == block[2]);
    assert(nodes[base + 1] == block[1]);
    assert(nodes[base + 0] == block[0]);
}

/// At a showdown of Leduc poker the only pair with the board wins, else the higher
/// rank, and equal ranks win nothing; both players see it the same way.
pub proof fn lemma_leduc_showdowns(rank_zero: int, rank_one: int, board: int, stake: int)
    requires
        0 <= rank_zero < 3,
        0 <= rank_one < 3,
        0 <= board < 3,
    ensures
        leduc_showdown(rank_zero, rank_one, board, stake) == winner_sign(
            strength(rank_zero, board),
            strength(rank_one, board),
        ) * stake,
        rank_zero == board && rank_one != board ==> leduc_showdown(
            rank_zero,
            rank_one,
            board,
            stake,
        ) == stake,
        rank_one == board && rank_zero != board ==> leduc_showdown(
            rank_zero,
            rank_one,
            board,
            stake,
        ) == -stake,
        rank_zero != board && rank_one != board && rank_zero > rank_one ==> leduc_showdown(
            rank_zero,
            rank_one,
            board,
            stake,
        ) == stake,
        rank_zero == rank_one ==> leduc_showdown(rank_zero, rank_one, board, stake) == 0,
        leduc_showdown(rank_one, rank_zero, board, stake) == -leduc_showdown(
            rank_zero,
            rank_one,
            board,
            stake,
        ),
{
    assert(1 * stake == stake && -1 * stake == -stake && 0 * stake == 0) by (nonlinear_arith);
}

/// At a showdown of Kuhn poker the higher card wins the stake.
pub proof fn lemma_kuhn_showdowns(card_zero: int, card_one: int, stake: int)
    requires
        card_zero != card_one,
    ensures
        kuhn_showdown(card_zero, card_one, stake) == winner_sign(card_zero, card_one) * stake,
        kuhn_showdown(card_one, card_zero, stake) == -kuhn_showdown(card_zero, card_one, stake),
{
    assert(1 * stake == stake && -1 * stake == -stake) by (nonlinear_arith);
}

/// Numbers and their opposites, as bits: the sign is a bit of its own, two is one
/// exponent above one, and three lies half way between two and four.
pub proof fn lemma_small_numbers(value: int)
    requires
        1 <= value <= 3,
    ensures
        number_bits(-value) == number_bits(value) + SIGN_BITS,
        number_bits(1) == ONE_BITS,
        number_bits(2) == number_bits(1) + 0x0010_0000_0000_0000,
        number_bits(3) == number_bits(2) + 0x0008_0000_0000_0000,
        number_bits(0) == 0,
{
}

/// The play of one deal of Kuhn poker: each player has put in one and may put in one
/// more; a fold costs one, the higher card wins one, or two after a called bet.
pub proof fn lemma_kuhn_play(nodes: Seq<NodeView>, base: int, card_zero: int, card_one: int)
    requires
        0 <= card_zero < 3,
        0 <= card_one < 3,
        card_zero != card_one,
        stands(nodes, base, kuhn_block(base, card_zero, card_one)),
    ensures
        plays_round(
            nodes,
            base + 8,
            RoundKeys {
                open: card_zero as u64,
                checked: (100 + card_one) as u64,
                check_raised: (200 + card_zero) as u64,
                bet: (300 + card_one) as u64,
            },
            winner_sign(card_zero, card_one),
            2 * winner_sign(card_zero, card_one),
            1,
        ),
{
    lemma_round_play(
        nodes,
        base,
        crate::reference_games::kuhn_keys(card_zero, card_one),
        kuhn_showdown(card_zero, card_one, 1),
        kuhn_showdown(card_zero, card_one, 2),
        1,
    );
}

/// The second round of Leduc poker, with `stake` in from each player: a fold costs
/// the stake, a showdown without a bet is worth it, and a called bet adds one.
pub proof fn lemma_second_round_play(
    nodes: Seq<NodeView>,
    base: int,
    card_zero: int,
    card_one: int,
    board: int,
    stake: int,
)
    requires
        0 <= card_zero < 6,
        0 <= card_one < 6,
        0 <= board < 3,
        stands(nodes, base, postflop_block(base, card_zero, card_one, board, stake)),
    ensures
        ({
            let sign = winner_sign(strength(card_zero / 2, board), strength(card_one / 2, board));
            plays_round(
                nodes,
                base + 8,
                RoundKeys {
                    open: (2_000 + 10 * board + card_zero / 2) as u64,
                    checked: (2_100 + 10 * board + card_one / 2) as u64,
                    check_raised: (2_200 + 10 * board + card_zero / 2) as u64,
                    bet: (2_300 + 10 * board + card_one / 2) as u64,
                },
                sign * stake,
                sign * (stake + 1),
                stake,
            )
        }),
{
    lemma_leduc_showdowns(card_zero / 2, card_one / 2, board, stake);
    lemma_leduc_showdowns(card_zero / 2, card_one / 2, board, stake + 1);
    lemma_round_play(
        nodes,
        base,
        crate::reference_games::leduc_keys(card_zero / 2, card_one / 2, board),
        leduc_showdown(card_zero / 2, card_one / 2, board, stake),
        leduc_showdown(card_zero / 2, card_one / 2, board, stake + 1),
        stake,
    );
}

/// How many of the cards below `card` are not held.
pub open spec fn free_below(card_zero: int, card_one: int, card: int) -> int {
    card - (if card_zero < card {
        1int
    } else {
        0
    }) - (if card_one < card {
        1int
    } else {
        0
    })
}

proof fn lemma_board_places(
    base: int,
    card_zero: int,
    card_one: int,
    stake: int,
    boards: int,
    card: int,
)
    requires
        0 <= card_zero < 6,
        0 <= card_one < 6,
        card_zero != card_one,
        0 <= card < boards <= 6,
        card != card_zero,
        card != card_one,
        0 <= base <= 100_000,
    ensures
        ({
            let nodes = board_nodes(base, card_zero, card_one, stake, boards);
            let outcomes = board_outcomes(base, card_zero, card_one, stake, boards);
            let place = free_below(card_zero, card_one, card);
            let at = 9 * place;
            &&& nodes.len() == 9 * free_below(card_zero, card_one, boards)
            &&& outcomes.len() == free_below(card_zero, card_one, boards)
            &&& 0 <= place < outcomes.len()
            &&& outcomes[place] == (ONE_QUARTER_BITS, (base + at + 8) as usize)
            &&& nodes.subrange(at, at + 9) == postflop_block(
                base + at,
                card_zero,
                card_one,
                card / 2,
                stake,
            )
        }),
    decreases boards,
{
    lemma_board_sizes(base, card_zero, card_one, stake, boards);
    lemma_board_sizes(base, card_zero, card_one, stake, boards - 1);
    let rest = board_nodes(base, card_zero, card_one, stake, boards - 1);
    let nodes = board_nodes(base, card_zero, card_one, stake, boards);
    let at = 9 * free_below(card_zero, card_one, card);
    if card == boards - 1 {
        let block = postflop_block(base + rest.len(), card_zero, card_one, card / 2, stake);
        assert(nodes == rest + block);
        assert(nodes.subrange(at, at + 9) =~= block);
    } else {
        lemma_board_places(base, card_zero, card_one, stake, boards - 1, card);
        assert(nodes.subrange(at, at + 9) =~= rest.subrange(at, at + 9));
    }
}

proof fn lemma_board_sizes(base: int, card_zero: int, card_one: int, stake: int, boards: int)
    requires
        0 <= boards <= 6,
        0 <= card_zero < 6,
        0 <= card_one < 6,
        card_zero != card_one,
    ensures
        board_nodes(base, card_zero, card_one, stake, boards).len() == 9 * free_below(
            card_zero,
            card_one,
            boards,
        ),
        board_outcomes(base, card_zero, card_one, stake, boards).len() == free_below(
            card_zero,
            card_one,
            boards,
        ),
    decreases boards,
{
    if boards > 0 {
        lemma_board_sizes(base, card_zero, card_one, stake, boards - 1);
    }
}

/// The board of Leduc poker: each of the four cards that nobody holds comes with one
/// quarter, and the second round that follows is played with its rank as the board.
pub proof fn lemma_leduc_board(
    nodes: Seq<NodeView>,
    base: int,
    card_zero: int,
    card_one: int,
    stake: int,
    card: int,
) -> (place: int)
    requires
        0 <= card_zero < 6,
        0 <= card_one < 6,
        card_zero != card_one,
        0 <= card < 6,
        card != card_zero,
        card != card_one,
        0 <= base <= 100_000,
        stands(nodes, base, board_block(base, card_zero, card_one, stake)),
    ensures
        ({
            let sign = winner_sign(
                strength(card_zero / 2, card / 2),
                strength(card_one / 2, card / 2),
            );
            &&& nodes[base + 36] matches NodeView::Chance { outcomes }
            &&& outcomes.len() == 4
            &&& 0 <= place < 4
            &&& place == free_below(card_zero, card_one, card)
            &&& outcomes[place].0 == ONE_QUARTER_BITS
            &&& plays_round(
                nodes,
                outcomes[place].1 as int,
                RoundKeys {
                    open: (2_000 + 10 * (card / 2) + card_zero / 2) as u64,
                    checked: (2_100 + 10 * (card / 2) + card_one / 2) as u64,
                    check_raised: (2_200 + 10 * (card / 2) + card_zero / 2) as u64,
                    bet: (2_300 + 10 * (card / 2) + card_one / 2) as u64,
                },
                sign * stake,
                sign * (stake + 1),
                stake,
            )
        }),
{
    let block = board_block(base, card_zero, card_one, stake);
    let place = free_below(card_zero, card_one, card);
    let at = 9 * place;
    lemma_board_places(base, card_zero, card_one, stake, 6, card);
    let inner = board_nodes(base, card_zero, card_one, stake, 6);
    let round = postflop_block(base + at, card_zero, card_one, card / 2, stake);
    assert(inner.len() == 36);
    assert(nodes[base + 36] == block[36]);
    assert forall|i: int| 0 <= i < round.len() implies #[trigger] nodes[base + at + i]
        == round[i] by {
        assert(nodes[base + (at + i)] == block[at + i]);
        assert(inner.subrange(at, at + 9)[i] == inner[at + i]);
    }
    lemma_second_round_play(nodes, base + at, card_zero, card_one, card / 2, stake);
    place
}

/// The first round of Leduc poker: each player has put in one. Checked through, the
/// board comes with one in from each; after a called bet with two; a fold costs one.
#[verifier::rlimit(60)]
pub proof fn lemma_first_round_play(nodes: Seq<NodeView>, base: int, card_zero: int, card_one: int)
    requires
        0 <= card_zero < 6,
        0 <= card_one < 6,
        card_zero != card_one,
        0 <= base <= 10_000,
        stands(nodes, base, preflop_block(base, card_zero, card_one)),
    ensures
        ({
            let root = base + 116;
            let check = after(nodes, root, 0);
            let bet = after(nodes, root, 1);
            let check_bet = after(nodes, check, 1);
            &&& is_up(nodes, root, 0, 1_000 + card_zero / 2)
            &&& is_up(nodes, check, 1, 1_100 + card_one / 2)
            &&& is_up(nodes, check_bet, 0, 1_300 + card_zero / 2)
            &&& is_up(nodes, bet, 1, 1_200 + card_one / 2)
            &&& is_worth(nodes[after(nodes, bet, 0)], 1)
            &&& is_worth(nodes[after(nodes, check_bet, 0)], -1)
            &&& after(nodes, check, 0) >= 36 && stands(
                nodes,
                after(nodes, check, 0) - 36,
                board_block(after(nodes, check, 0) - 36, card_zero, card_one, 1),
            )
            &&& after(nodes, bet, 1) >= 36 && stands(
                nodes,
                after(nodes, bet, 1) - 36,
                board_block(after(nodes, bet, 1) - 36, card_zero, card_one, 2),
            )
            &&& after(nodes, check_bet, 1) >= 36 && stands(
                nodes,
                after(nodes, check_bet, 1) - 36,
                board_block(after(nodes, check_bet, 1) - 36, card_zero, card_one, 2),
            )
        }),
{
    let block = preflop_block(base, card_zero, card_one);
    let one = board_block(base, card_zero, card_one, 2);
    let two = board_block(base + 39, card_zero, card_one, 1);
    let three = board_block(base + 78, card_zero, card_one, 2);
    lemma_board_sizes(base, card_zero, card_one, 2, 6);
    lemma_board_sizes(base + 39, card_zero, card_one, 1, 6);
    lemma_board_sizes(base + 78, card_zero, card_one, 2, 6);
    assert(one.len() == 37 && two.len() == 37 && three.len() == 37);
    assert(block.len() == 117);
    assert(nodes[base + 116] == block[116]);
    assert(nodes[base + 115] == block[115]);
    assert(nodes[base + 77] == block[77]);
    assert(nodes[base + 76] == block[76]);
    assert(nodes[base + 38] == block[38]);
    assert(nodes[base + 37] == block[37]);
    assert forall|i: int| 0 <= i < 37 implies #[trigger] nodes[base + i] == one[i] by {
        assert(nodes[base + i] == block[i]);
    }
    assert forall|i: int| 0 <= i < 37 implies #[trigger] nodes[base + 39 + i] == two[i] by {
        assert(nodes[base + (39 + i)] == block[39 + i]);
    }
    assert forall|i: int| 0 <= i < 37 implies #[trigger] nodes[base + 78 + i] == three[i] by {
        assert(nodes[base + (78 + i)] == block[78 + i]);
    }
}

/// How many of the ordered pairs before the given one deal two different cards.
pub open spec fn deals_before(ranks: int, card_zero: int, card_one: int) -> int {
    (ranks - 1) * card_zero + card_one - if card_zero < card_one {
        1int
    } else {
        0
    }
}

proof fn lemma_kuhn_deal(deals: int, card_zero: int, card_one: int)
    requires
        0 <= card_zero < 3,
        0 <= card_one < 3,
        card_zero != card_one,
        3 * card_zero + card_one < deals <= 9,
    ensures
        ({
            let k = deals_before(3, card_zero, card_one);
            &&& 0 <= k < kuhn_outcomes(deals).len()
            &&& kuhn_outcomes(deals)[k] == (ONE_SIXTH_BITS, (9 * k + 9) as usize)
            &&& 9 * k + 9 <= kuhn_deals(deals).len()
            &&& kuhn_deals(deals).subrange(9 * k, 9 * k + 9) == kuhn_block(
                9 * k + 1,
                card_zero,
                card_one,
            )
        }),
    decreases deals,
{
    lemma_kuhn_sizes(deals);
    lemma_kuhn_sizes(deals - 1);
    let k = deals_before(3, card_zero, card_one);
    let rest = kuhn_deals(deals - 1);
    if deals - 1 == 3 * card_zero + card_one {
        assert((deals - 1) / 3 == card_zero && (deals - 1) % 3 == card_one);
        let block = kuhn_block(1 + rest.len() as int, card_zero, card_one);
        assert(kuhn_deals(deals) == rest + block);
        assert(kuhn_deals(deals).subrange(9 * k, 9 * k + 9) =~= block);
    } else {
        lemma_kuhn_deal(deals - 1, card_zero, card_one);
        assert(kuhn_deals(deals).subrange(9 * k, 9 * k + 9) =~= rest.subrange(9 * k, 9 * k + 9));
    }
}

/// The number of deals among the first pairs.
pub open spec fn deals_among(ranks: int, pairs: int) -> int
    decreases pairs,
{
    if pairs <= 0 {
        0
    } else {
        deals_among(ranks, pairs - 1) + if (pairs - 1) / ranks == (pairs - 1) % ranks {
            0int
        } else {
            1
        }
    }
}

proof fn lemma_kuhn_sizes(deals: int)
    requires
        0 <= deals <= 9,
    ensures
        kuhn_outcomes(deals).len() == deals_among(3, deals),
        kuhn_deals(deals).len() == 9 * deals_among(3, deals),
        deals < 9 && deals / 3 != deals % 3 ==> deals_among(3, deals) == deals_before(
            3,
            deals / 3,
            deals % 3,
        ),
        deals_among(3, 9) == 6,
    decreases deals,
{
    reveal_with_fuel(deals_among, 10);
    if deals > 0 {
        lemma_kuhn_sizes(deals - 1);
    }
}

/// Kuhn poker deals each ordered pair of different cards with one sixth, and plays
/// it by its cards.
pub proof fn lemma_kuhn_deals_every_pair(game: StaticGame, card_zero: int, card_one: int) -> (k: int)
    requires
        call_ensures(kuhn_poker, (), game),
        0 <= card_zero < 3,
        0 <= card_one < 3,
        card_zero != card_one,
    ensures
        ({
            let nodes = node_views(game.nodes@);
            let sign = winner_sign(card_zero, card_one);
            &&& game.root == 0
            &&& nodes[0] matches NodeView::Chance { outcomes }
            &&& outcomes.len() == 6
            &&& 0 <= k < 6
            &&& k == deals_before(3, card_zero, card_one)
            &&& outcomes[k].0 == ONE_SIXTH_BITS
            &&& plays_round(
                nodes,
                outcomes[k].1 as int,
                RoundKeys {
                    open: card_zero as u64,
                    checked: (100 + card_one) as u64,
                    check_raised: (200 + card_zero) as u64,
                    bet: (300 + card_one) as u64,
                },
                sign,
                2 * sign,
                1,
            )
        }),
{
    let nodes = node_views(game.nodes@);
    let k = deals_before(3, card_zero, card_one);
    lemma_kuhn_deal(9, card_zero, card_one);
    lemma_kuhn_sizes(9);
    let block = kuhn_block(9 * k + 1, card_zero, card_one);
    assert(nodes == kuhn_nodes());
    assert(game.nodes.len() == game.nodes@.len());
    assert forall|i: int| 0 <= i < block.len() implies #[trigger] nodes[9 * k + 1 + i]
        == block[i] by {
        assert(kuhn_deals(9).subrange(9 * k, 9 * k + 9)[i] == kuhn_deals(9)[9 * k + i]);
    }
    lemma_kuhn_play(nodes, 9 * k + 1, card_zero, card_one);
    k
}

proof fn lemma_leduc_sizes(deals: int)
    requires
        0 <= deals <= 36,
    ensures
        leduc_outcomes(deals).len() == deals_among(6, deals),
        leduc_deals(deals).len() == 117 * deals_among(6, deals),
        0 <= deals_among(6, deals) <= deals,
    decreases deals,
{
    if deals > 0 {
        lemma_leduc_sizes(deals - 1);
        let base = 1 + leduc_deals(deals - 1).len() as int;
        let card_zero = (deals - 1) / 6;
        let card_one = (deals - 1) % 6;
        if card_zero != card_one {
            lemma_board_sizes(base, card_zero, card_one, 2, 6);
            lemma_board_sizes(base + 39, card_zero, card_one, 1, 6);
            lemma_board_sizes(base + 78, card_zero, card_one, 2, 6);
            assert(preflop_block(base, card_zero, card_one).len() == 117);
        }
    }
}

#[verifier::rlimit(60)]
proof fn lemma_leduc_counts(deals: int)
    requires
        0 <= deals <= 36,
    ensures
        deals_among(6, deals) == deals - (deals + 6) / 7 || deals == 36 && deals_among(6, 36)
            == 30,
    decreases deals,
{
    if deals > 0 {
        lemma_leduc_counts(deals - 1);
        let pair = deals - 1;
        assert(pair / 6 == pair % 6 <==> pair % 7 == 0) by {
            let a = pair / 6;
            let b = pair % 6;
            assert(pair == 6 * a + b);
            assert(0 <= a < 6 && 0 <= b < 6);
            assert(pair == 7 * a + (b - a));
        }
    }
}

#[verifier::rlimit(60)]
proof fn lemma_leduc_deal(deals: int, card_zero: int, card_one: int)
    requires
        0 <= card_zero < 6,
        0 <= card_one < 6,
        card_zero != card_one,
        6 * card_zero + card_one < deals <= 36,
    ensures
        ({
            let k = deals_among(6, 6 * card_zero + card_one);
            &&& 0 <= k < leduc_outcomes(deals).len()
            &&& leduc_outcomes(deals)[k] == (ONE_THIRTIETH_BITS, (117 * k + 117) as usize)
            &&& 117 * k + 117 <= leduc_deals(deals).len()
            &&& leduc_deals(deals).subrange(117 * k, 117 * k + 117) == preflop_block(
                117 * k + 1,
                card_zero,
                card_one,
            )
        }),
    decreases deals,
{
    lemma_leduc_sizes(deals);
    lemma_leduc_sizes(deals - 1);
    let k = deals_among(6, 6 * card_zero + card_one);
    let rest = leduc_deals(deals - 1);
    if deals - 1 == 6 * card_zero + card_one {
        assert((deals - 1) / 6 == card_zero && (deals - 1) % 6 == card_one);
        let base = 1 + rest.len() as int;
        let block = preflop_block(base, card_zero, card_one);
        assert(leduc_deals(deals) == rest + block);
        assert(leduc_deals(deals).subrange(117 * k, 117 * k + 117) =~= block);
    } else {
        lemma_leduc_deal(deals - 1, card_zero, card_one);
        assert(leduc_deals(deals).subrange(117 * k, 117 * k + 117) =~= rest.subrange(
            117 * k,
            117 * k + 117,
        ));
    }
}

/// Leduc poker deals each ordered pair of different cards of six with one thirtieth;
/// the first round of the deal is played by their ranks.
#[verifier::rlimit(60)]
pub proof fn lemma_leduc_deals_every_pair(game: StaticGame, card_zero: int, card_one: int) -> (base:
    int)
    requires
        call_ensures(leduc_poker, (), game),
        0 <= card_zero < 6,
        0 <= card_one < 6,
        card_zero != card_one,
    ensures
        ({
            let nodes = node_views(game.nodes@);
            &&& game.root == 0
            &&& nodes[0] matches NodeView::Chance { outcomes }
            &&& outcomes.len() == 30
            &&& 0 <= base <= 10_000
            &&& outcomes.contains((ONE_THIRTIETH_BITS, (base + 116) as usize))
            &&& (base - 1) % 117 == 0
            &&& (base - 1) / 117 == deals_among(6, 6 * card_zero + card_one)
            &&& stands(nodes, base, preflop_block(base, card_zero, card_one))
        }),
{
    let nodes = node_views(game.nodes@);
    let k = deals_among(6, 6 * card_zero + card_one);
    lemma_leduc_deal(36, card_zero, card_one);
    lemma_leduc_sizes(36);
    lemma_leduc_counts(36);
    let base = 117 * k + 1;
    let block = preflop_block(base, card_zero, card_one);
    assert(nodes == leduc_nodes());
    assert(game.nodes.len() == game.nodes@.len());
    lemma_board_sizes(base, card_zero, card_one, 2, 6);
    lemma_board_sizes(base + 39, card_zero, card_one, 1, 6);
    lemma_board_sizes(base + 78, card_zero, card_one, 2, 6);
    assert(block.len() == 117);
    assert forall|i: int| 0 <= i < block.len() implies #[trigger] nodes[base + i] == block[i] by {
        assert(leduc_deals(36).subrange(117 * k, 117 * k + 117)[i] == leduc_deals(36)[117 * k + i]);
    }
    assert(leduc_outcomes(36)[k] == (ONE_THIRTIETH_BITS, (base + 116) as usize));
    base
}

/// Matching pennies: player one does not see the choice, equal choices pay player
/// zero, different ones player one.
pub proof fn lemma_pennies_match(game: StaticGame, first: int, second: int)
    requires
        call_ensures(matching_pennies, (), game),
        0 <= first < 2,
        0 <= second < 2,
    ensures
        ({
            let nodes = node_views(game.nodes@);
            let seen = after(nodes, 0, first);
            &&& game.root == 0
            &&& is_up(nodes, 0, 0, 0)
            &&& is_up(nodes, seen, 1, 1)
            &&& is_worth(
                nodes[after(nodes, seen, second)],
                if first == second {
                    1
                } else {
                    -1
                },
            )
        }),
{
}

} // verus!
