//! Small reference games: matching pennies, Kuhn poker and Leduc poker.
//!
//! Their node lists are stated block by block: a block holds the nodes of one
//! betting round, its children first and its root last.
use vstd::prelude::*;

use crate::bits::{above_zero, finite};
use crate::game::{game_node_ok, GameNode, StaticGame};

verus! {

/// Bits of one sixth.
pub const ONE_SIXTH_BITS: u64 = 0x3fc5_5555_5555_5555;

/// Bits of one quarter.
pub const ONE_QUARTER_BITS: u64 = 0x3fd0_0000_0000_0000;

/// Bits of one thirtieth.
pub const ONE_THIRTIETH_BITS: u64 = 0x3fa1_1111_1111_1111;

/// The bits of a whole number from minus three to three.
pub open spec fn number_bits(value: int) -> u64 {
    if value == 1 {
        0x3ff0_0000_0000_0000
    } else if value == 2 {
        0x4000_0000_0000_0000
    } else if value == 3 {
        0x4008_0000_0000_0000
    } else if value == -1 {
        0xbff0_0000_0000_0000
    } else if value == -2 {
        0xc000_0000_0000_0000
    } else if value == -3 {
        0xc008_0000_0000_0000
    } else {
        0
    }
}

fn small_number_bits(value: i64) -> (bits: u64)
    requires
        -3 <= value <= 3,
    ensures
        bits == number_bits(value as int),
{
    if value == 1 {
        0x3ff0_0000_0000_0000
    } else if value == 2 {
        0x4000_0000_0000_0000
    } else if value == 3 {
        0x4008_0000_0000_0000
    } else if value == -1 {
        0xbff0_0000_0000_0000
    } else if value == -2 {
        0xc000_0000_0000_0000
    } else if value == -3 {
        0xc008_0000_0000_0000
    } else {
        0
    }
}

/// A node by its parts.
#[verifier::ext_equal]
pub enum NodeView {
    Decision { player: usize, infoset: u64, children: Seq<usize> },
    Chance { outcomes: Seq<(u64, usize)> },
    Terminal { first: u64, second: u64 },
}

pub open spec fn node_view(node: GameNode) -> NodeView {
    match node {
        GameNode::Decision { player, infoset, children } => NodeView::Decision {
            player,
            infoset,
            children: children@,
        },
        GameNode::Chance { outcomes } => NodeView::Chance { outcomes: outcomes@ },
        GameNode::Terminal { utility } => NodeView::Terminal {
            first: utility@[0],
            second: utility@[1],
        },
    }
}

pub open spec fn node_views(nodes: Seq<GameNode>) -> Seq<NodeView> {
    nodes.map(|i: int, node: GameNode| node_view(node))
}

/// A leaf at which player zero wins `amount` from player one.
pub open spec fn pays(amount: int) -> NodeView {
    NodeView::Terminal { first: number_bits(amount), second: number_bits(-amount) }
}

pub open spec fn decides(player: usize, infoset: int, first: int, second: int) -> NodeView {
    NodeView::Decision {
        player,
        infoset: infoset as u64,
        children: seq![first as usize, second as usize],
    }
}

/// The information sets of one betting round, in the order open, after a check,
/// after a bet behind a check, after an opening bet.
pub struct RoundKeys {
    pub open: u64,
    pub checked: u64,
    pub check_raised: u64,
    pub bet: u64,
}

/// One betting round with at most one bet, from node number `base` on: it is
/// worth `small` when checked through and `large` when a bet is called, and a
/// fold costs `stake`.
pub open spec fn round_block(
    base: int,
    keys: RoundKeys,
    small: int,
    large: int,
    stake: int,
) -> Seq<NodeView> {
    seq![
        pays(large),
        pays(-stake),
        decides(0, keys.check_raised as int, base + 1, base),
        pays(small),
        decides(1, keys.checked as int, base + 3, base + 2),
        pays(stake),
        pays(large),
        decides(1, keys.bet as int, base + 5, base + 6),
        decides(0, keys.open as int, base + 4, base + 7),
    ]
}

/// Adds a leaf.
fn push_pays(nodes: &mut Vec<GameNode>, amount: i64) -> (id: usize)
    requires
        -3 <= amount <= 3,
    ensures
        id == old(nodes)@.len(),
        node_views(final(nodes)@) == node_views(old(nodes)@).push(pays(amount as int)),
{
    let id = nodes.len();
    let first = small_number_bits(amount);
    let second = small_number_bits(-amount);
    nodes.push(GameNode::Terminal { utility: [first, second] });
    assert(node_views(nodes@) =~= node_views(old(nodes)@).push(pays(amount as int)));
    id
}

/// Adds a decision between two nodes.
fn push_decides(
    nodes: &mut Vec<GameNode>,
    player: usize,
    infoset: u64,
    first: usize,
    second: usize,
) -> (id: usize)
    ensures
        id == old(nodes)@.len(),
        node_views(final(nodes)@) == node_views(old(nodes)@).push(
            decides(player, infoset as int, first as int, second as int),
        ),
{
    let id = nodes.len();
    let children = vec![first, second];
    assert(children@ =~= seq![first, second]);
    nodes.push(GameNode::Decision { player, infoset, children });
    assert(node_views(nodes@) =~= node_views(old(nodes)@).push(
        decides(player, infoset as int, first as int, second as int),
    ));
    id
}

fn push_chance(nodes: &mut Vec<GameNode>, outcomes: Vec<(u64, usize)>) -> (id: usize)
    ensures
        id == old(nodes)@.len(),
        node_views(final(nodes)@) == node_views(old(nodes)@).push(
            (NodeView::Chance { outcomes: outcomes@ }),
        ),
{
    let id = nodes.len();
    nodes.push(GameNode::Chance { outcomes });
    assert(node_views(nodes@) =~= node_views(old(nodes)@).push(
        (NodeView::Chance { outcomes: outcomes@ }),
    ));
    id
}

/// Adds one betting round.
fn push_round(
    nodes: &mut Vec<GameNode>,
    keys: RoundKeys,
    small: i64,
    large: i64,
    stake: i64,
) -> (root: usize)
    requires
        -3 <= small <= 3,
        -3 <= large <= 3,
        -3 <= stake <= 3,
        old(nodes)@.len() + 9 <= usize::MAX,
    ensures
        root == old(nodes)@.len() + 8,
        node_views(final(nodes)@) == node_views(old(nodes)@) + round_block(
            old(nodes)@.len() as int,
            keys,
            small as int,
            large as int,
            stake as int,
        ),
        final(nodes)@.len() == old(nodes)@.len() + 9,
{
    let ghost before = node_views(nodes@);
    let called_after_check = push_pays(nodes, large);
    let folded_after_check = push_pays(nodes, -stake);
    let after_check_bet = push_decides(
        nodes,
        0,
        keys.check_raised,
        folded_after_check,
        called_after_check,
    );
    let checked_through = push_pays(nodes, small);
    let after_check = push_decides(nodes, 1, keys.checked, checked_through, after_check_bet);
    let folded = push_pays(nodes, stake);
    let called = push_pays(nodes, large);
    let after_bet = push_decides(nodes, 1, keys.bet, folded, called);
    let root = push_decides(nodes, 0, keys.open, after_check, after_bet);
    assert(node_views(nodes@).len() == nodes@.len());
    assert(node_views(nodes@) =~= before + round_block(
        before.len() as int,
        keys,
        small as int,
        large as int,
        stake as int,
    ));
    root
}

/// The nodes of matching pennies, played one after the other: player one does
/// not see what player zero chose.
pub open spec fn pennies_nodes() -> Seq<NodeView> {
    seq![
        decides(0, 0, 1, 2),
        decides(1, 1, 3, 4),
        decides(1, 1, 5, 6),
        pays(1),
        pays(-1),
        pays(-1),
        pays(1),
    ]
}

/// Sequential representation of simultaneous matching pennies. Player one has
/// one information set after either action of player zero.
pub fn matching_pennies() -> (game: StaticGame)
    ensures
        game.root == 0,
        node_views(game.nodes@) == pennies_nodes(),
        game.playable(),
{
    let mut nodes: Vec<GameNode> = Vec::new();
    push_decides(&mut nodes, 0, 0, 1, 2);
    push_decides(&mut nodes, 1, 1, 3, 4);
    push_decides(&mut nodes, 1, 1, 5, 6);
    push_pays(&mut nodes, 1);
    push_pays(&mut nodes, -1);
    push_pays(&mut nodes, -1);
    push_pays(&mut nodes, 1);
    assert(node_views(nodes@) =~= pennies_nodes());
    proof {
        lemma_playable(nodes@, 0);
    }
    StaticGame { root: 0, nodes }
}

/// What player zero wins at a showdown of Kuhn poker.
pub open spec fn kuhn_showdown(card_zero: int, card_one: int, stake: int) -> int {
    if card_zero > card_one {
        stake
    } else {
        -stake
    }
}

pub open spec fn kuhn_keys(card_zero: int, card_one: int) -> RoundKeys {
    RoundKeys {
        open: card_zero as u64,
        checked: (100 + card_one) as u64,
        check_raised: (200 + card_zero) as u64,
        bet: (300 + card_one) as u64,
    }
}

/// The betting of one deal.
pub open spec fn kuhn_block(base: int, card_zero: int, card_one: int) -> Seq<NodeView> {
    round_block(
        base,
        kuhn_keys(card_zero, card_one),
        kuhn_showdown(card_zero, card_one, 1),
        kuhn_showdown(card_zero, card_one, 2),
        1,
    )
}

/// The nodes of the first `deals` of the nine pairs of cards, after the root;
/// a pair of equal cards is no deal.
pub open spec fn kuhn_deals(deals: int) -> Seq<NodeView>
    decreases deals,
{
    if deals <= 0 {
        Seq::empty()
    } else {
        let rest = kuhn_deals(deals - 1);
        let card_zero = (deals - 1) / 3;
        let card_one = (deals - 1) % 3;
        if card_zero == card_one {
            rest
        } else {
            rest + kuhn_block(1 + rest.len() as int, card_zero, card_one)
        }
    }
}

/// The outcomes of the deal: the root of each block, one sixth each.
pub open spec fn kuhn_outcomes(deals: int) -> Seq<(u64, usize)>
    decreases deals,
{
    if deals <= 0 {
        Seq::empty()
    } else if (deals - 1) / 3 == (deals - 1) % 3 {
        kuhn_outcomes(deals - 1)
    } else {
        kuhn_outcomes(deals - 1).push((ONE_SIXTH_BITS, kuhn_deals(deals).len() as usize))
    }
}

/// All nodes of Kuhn poker.
pub open spec fn kuhn_nodes() -> Seq<NodeView> {
    seq![NodeView::Chance { outcomes: kuhn_outcomes(9) }] + kuhn_deals(9)
}

/// The classic three-card game.
///
/// Cards are ordered jack, queen, king. The deal is an ordered pair, and the
/// information sets are shared by the deals that look the same to the player
/// that acts.
pub fn kuhn_poker() -> (game: StaticGame)
    ensures
        game.root == 0,
        node_views(game.nodes@) == kuhn_nodes(),
        game.playable(),
{
    let mut nodes: Vec<GameNode> = Vec::new();
    nodes.push(GameNode::Chance { outcomes: Vec::new() });
    let mut outcomes: Vec<(u64, usize)> = Vec::new();
    let mut deal: usize = 0;
    assert(node_views(nodes@).skip(1) =~= kuhn_deals(0));
    while deal < 9
        invariant
            deal <= 9,
            nodes@.len() >= 1,
            nodes@.len() <= 1 + 9 * deal,
            node_views(nodes@).skip(1) == kuhn_deals(deal as int),
            outcomes@ == kuhn_outcomes(deal as int),
        decreases 9 - deal,
    {
        let card_zero = deal / 3;
        let card_one = deal % 3;
        if card_zero != card_one {
            let ghost before = node_views(nodes@);
            assert(before.skip(1).len() + 1 == nodes@.len());
            let keys = RoundKeys {
                open: card_zero as u64,
                checked: 100 + card_one as u64,
                check_raised: 200 + card_zero as u64,
                bet: 300 + card_one as u64,
            };
            let sign: i64 = if card_zero > card_one { 1 } else { -1 };
            let large: i64 = if card_zero > card_one { 2 } else { -2 };
            let ghost block = kuhn_block(nodes@.len() as int, card_zero as int, card_one as int);
            let root = push_round(&mut nodes, keys, sign, large, 1);
            assert(node_views(nodes@) == before + block);
            assert(node_views(nodes@).skip(1) =~= before.skip(1) + block);
            outcomes.push((ONE_SIXTH_BITS, root));
        }
        deal = deal + 1;
    }
    let ghost built = node_views(nodes@);
    let ghost listed = outcomes@;
    assert(built.skip(1).len() + 1 == nodes@.len());
    nodes[0] = GameNode::Chance { outcomes };
    assert(node_views(nodes@) =~= kuhn_nodes());
    proof {
        lemma_kuhn_closed();
        lemma_playable(nodes@, 0);
    }
    StaticGame { root: 0, nodes }
}

/// What player zero wins at a showdown of Leduc poker with `stake` from each: a
/// pair with the board wins, then the higher card, and equal cards split.
pub open spec fn leduc_showdown(rank_zero: int, rank_one: int, board: int, stake: int) -> int {
    if rank_zero == board && rank_one != board {
        stake
    } else if rank_one == board && rank_zero != board {
        -stake
    } else if rank_zero == rank_one {
        0
    } else if rank_zero > rank_one {
        stake
    } else {
        -stake
    }
}

fn showdown_value(rank_zero: usize, rank_one: usize, board: usize, stake: i64) -> (value: i64)
    requires
        0 <= stake <= 3,
    ensures
        value == leduc_showdown(rank_zero as int, rank_one as int, board as int, stake as int),
        -3 <= value <= 3,
{
    if rank_zero == board && rank_one != board {
        stake
    } else if rank_one == board && rank_zero != board {
        -stake
    } else if rank_zero == rank_one {
        0
    } else if rank_zero > rank_one {
        stake
    } else {
        -stake
    }
}

pub open spec fn leduc_keys(rank_zero: int, rank_one: int, board: int) -> RoundKeys {
    RoundKeys {
        open: (2_000 + 10 * board + rank_zero) as u64,
        checked: (2_100 + 10 * board + rank_one) as u64,
        check_raised: (2_200 + 10 * board + rank_zero) as u64,
        bet: (2_300 + 10 * board + rank_one) as u64,
    }
}

/// The second betting round, with `stake` in from each player.
pub open spec fn postflop_block(
    base: int,
    card_zero: int,
    card_one: int,
    board: int,
    stake: int,
) -> Seq<NodeView> {
    round_block(
        base,
        leduc_keys(card_zero / 2, card_one / 2, board),
        leduc_showdown(card_zero / 2, card_one / 2, board, stake),
        leduc_showdown(card_zero / 2, card_one / 2, board, stake + 1),
        stake,
    )
}

/// The second rounds for the board cards below `boards`; a card that a player
/// holds cannot come.
pub open spec fn board_nodes(
    base: int,
    card_zero: int,
    card_one: int,
    stake: int,
    boards: int,
) -> Seq<NodeView>
    decreases boards,
{
    if boards <= 0 {
        Seq::empty()
    } else {
        let rest = board_nodes(base, card_zero, card_one, stake, boards - 1);
        let card = boards - 1;
        if card == card_zero || card == card_one {
            rest
        } else {
            rest + postflop_block(base + rest.len(), card_zero, card_one, card / 2, stake)
        }
    }
}

/// The outcomes of the board card: the root of each second round, one quarter
/// each.
pub open spec fn board_outcomes(
    base: int,
    card_zero: int,
    card_one: int,
    stake: int,
    boards: int,
) -> Seq<(u64, usize)>
    decreases boards,
{
    if boards <= 0 {
        Seq::empty()
    } else {
        let rest = board_outcomes(base, card_zero, card_one, stake, boards - 1);
        if boards - 1 == card_zero || boards - 1 == card_one {
            rest
        } else {
            rest.push(
                (
                    ONE_QUARTER_BITS,
                    (base + board_nodes(base, card_zero, card_one, stake, boards).len() - 1)
                        as usize,
                ),
            )
        }
    }
}

/// The board card and all second rounds.
pub open spec fn board_block(base: int, card_zero: int, card_one: int, stake: int) -> Seq<
    NodeView,
> {
    board_nodes(base, card_zero, card_one, stake, 6).push(
        (NodeView::Chance { outcomes: board_outcomes(base, card_zero, card_one, stake, 6) }),
    )
}

/// The first betting round of one deal and all that follows: 117 nodes.
pub open spec fn preflop_block(base: int, card_zero: int, card_one: int) -> Seq<NodeView> {
    let rank_zero = card_zero / 2;
    let rank_one = card_one / 2;
    board_block(base, card_zero, card_one, 2) + seq![
        pays(-1),
        decides(0, 1_300 + rank_zero, base + 37, base + 36),
    ] + board_block(base + 39, card_zero, card_one, 1) + seq![
        decides(1, 1_100 + rank_one, base + 75, base + 38),
        pays(1),
    ] + board_block(base + 78, card_zero, card_one, 2) + seq![
        decides(1, 1_200 + rank_one, base + 77, base + 114),
        decides(0, 1_000 + rank_zero, base + 76, base + 115),
    ]
}

/// The nodes of the first `deals` of the 36 pairs of cards, after the root.
pub open spec fn leduc_deals(deals: int) -> Seq<NodeView>
    decreases deals,
{
    if deals <= 0 {
        Seq::empty()
    } else {
        let rest = leduc_deals(deals - 1);
        let card_zero = (deals - 1) / 6;
        let card_one = (deals - 1) % 6;
        if card_zero == card_one {
            rest
        } else {
            rest + preflop_block(1 + rest.len() as int, card_zero, card_one)
        }
    }
}

pub open spec fn leduc_outcomes(deals: int) -> Seq<(u64, usize)>
    decreases deals,
{
    if deals <= 0 {
        Seq::empty()
    } else if (deals - 1) / 6 == (deals - 1) % 6 {
        leduc_outcomes(deals - 1)
    } else {
        leduc_outcomes(deals - 1).push((ONE_THIRTIETH_BITS, leduc_deals(deals).len() as usize))
    }
}

/// All nodes of Leduc poker.
pub open spec fn leduc_nodes() -> Seq<NodeView> {
    seq![NodeView::Chance { outcomes: leduc_outcomes(36) }] + leduc_deals(36)
}

/// How many of the cards below `boards` are not held.
pub open spec fn free_cards(card_zero: int, card_one: int, boards: int) -> int {
    boards - (if card_zero < boards {
        1int
    } else {
        0
    }) - (if card_one < boards {
        1int
    } else {
        0
    })
}

proof fn lemma_board_nodes_len(
    base: int,
    card_zero: int,
    card_one: int,
    stake: int,
    boards: int,
)
    requires
        0 <= boards <= 6,
        0 <= card_zero < 6,
        0 <= card_one < 6,
        card_zero != card_one,
    ensures
        board_nodes(base, card_zero, card_one, stake, boards).len() == 9 * free_cards(
            card_zero,
            card_one,
            boards,
        ),
        board_outcomes(base, card_zero, card_one, stake, boards).len() == free_cards(
            card_zero,
            card_one,
            boards,
        ),
    decreases boards,
{
    if boards > 0 {
        lemma_board_nodes_len(base, card_zero, card_one, stake, boards - 1);
    }
}

/// Adds the board card and the second rounds that follow.
fn push_board_chance(nodes: &mut Vec<GameNode>, card_zero: usize, card_one: usize, stake: i64) -> (
id: usize)
    requires
        card_zero < 6,
        card_one < 6,
        card_zero != card_one,
        0 <= stake <= 2,
        old(nodes)@.len() <= 10_000,
    ensures
        id == old(nodes)@.len() + 36,
        node_views(final(nodes)@) == node_views(old(nodes)@) + board_block(
            old(nodes)@.len() as int,
            card_zero as int,
            card_one as int,
            stake as int,
        ),
        final(nodes)@.len() == old(nodes)@.len() + 37,
{
    let ghost before = node_views(nodes@);
    let ghost base = nodes@.len() as int;
    let ghost zero = card_zero as int;
    let ghost one = card_one as int;
    let mut outcomes: Vec<(u64, usize)> = Vec::new();
    let mut board_card: usize = 0;
    assert(before + board_nodes(base, zero, one, stake as int, 0) =~= before);
    while board_card < 6
        invariant
            board_card <= 6,
            card_zero < 6,
            card_one < 6,
            card_zero != card_one,
            0 <= stake <= 2,
            zero == card_zero,
            one == card_one,
            base <= 10_000,
            before.len() == base,
            node_views(nodes@) == before + board_nodes(
                base,
                zero,
                one,
                stake as int,
                board_card as int,
            ),
            outcomes@ == board_outcomes(base, zero, one, stake as int, board_card as int),
        decreases 6 - board_card,
    {
        proof {
            lemma_board_nodes_len(base, zero, one, stake as int, board_card as int);
            assert(node_views(nodes@).len() == nodes@.len());
        }
        if board_card != card_zero && board_card != card_one {
            let rank_zero = card_zero / 2;
            let rank_one = card_one / 2;
            let board = board_card / 2;
            let board_offset: u64 = 10 * board as u64;
            let keys = RoundKeys {
                open: 2_000 + board_offset + rank_zero as u64,
                checked: 2_100 + board_offset + rank_one as u64,
                check_raised: 2_200 + board_offset + rank_zero as u64,
                bet: 2_300 + board_offset + rank_one as u64,
            };
            let small = showdown_value(rank_zero, rank_one, board, stake);
            let large = showdown_value(rank_zero, rank_one, board, stake + 1);
            let ghost rest = board_nodes(base, zero, one, stake as int, board_card as int);
            let ghost block = postflop_block(
                base + rest.len(),
                zero,
                one,
                board as int,
                stake as int,
            );
            let root = push_round(nodes, keys, small, large, stake);
            assert(node_views(nodes@) =~= before + (rest + block));
            outcomes.push((ONE_QUARTER_BITS, root));
        }
        board_card = board_card + 1;
    }
    proof {
        lemma_board_nodes_len(base, zero, one, stake as int, 6);
        assert(node_views(nodes@).len() == nodes@.len());
    }
    let ghost listed = node_views(nodes@);
    let id = push_chance(nodes, outcomes);
    assert(node_views(nodes@) =~= before + board_block(base, zero, one, stake as int));
    assert(node_views(nodes@).len() == nodes@.len());
    id
}

/// Adds the first round of one deal.
fn push_preflop(nodes: &mut Vec<GameNode>, card_zero: usize, card_one: usize) -> (root: usize)
    requires
        card_zero < 6,
        card_one < 6,
        card_zero != card_one,
        old(nodes)@.len() <= 9_000,
    ensures
        root == old(nodes)@.len() + 116,
        node_views(final(nodes)@) == node_views(old(nodes)@) + preflop_block(
            old(nodes)@.len() as int,
            card_zero as int,
            card_one as int,
        ),
        final(nodes)@.len() == old(nodes)@.len() + 117,
{
    let ghost start = node_views(nodes@);
    let ghost base = nodes@.len() as int;
    let rank_zero = card_zero / 2;
    let rank_one = card_one / 2;
    assert(node_views(nodes@).len() == nodes@.len());
    let called_after_check = push_board_chance(nodes, card_zero, card_one, 2);
    let folded_after_check = push_pays(nodes, -1);
    let after_check_bet = push_decides(
        nodes,
        0,
        1_300 + rank_zero as u64,
        folded_after_check,
        called_after_check,
    );
    assert(node_views(nodes@).len() == nodes@.len());
    let checked_through = push_board_chance(nodes, card_zero, card_one, 1);
    let after_check = push_decides(
        nodes,
        1,
        1_100 + rank_one as u64,
        checked_through,
        after_check_bet,
    );
    let folded = push_pays(nodes, 1);
    assert(node_views(nodes@).len() == nodes@.len());
    let called = push_board_chance(nodes, card_zero, card_one, 2);
    let after_bet = push_decides(nodes, 1, 1_200 + rank_one as u64, folded, called);
    let root = push_decides(nodes, 0, 1_000 + rank_zero as u64, after_check, after_bet);
    assert(node_views(nodes@).len() == nodes@.len());
    assert(node_views(nodes@) =~= start + preflop_block(base, card_zero as int, card_one as int));
    root
}

/// A one-bet-per-round Leduc poker game.
///
/// The deck has two copies of each of three ranks. Private cards are dealt at
/// the root, a single public card comes between the two betting rounds, and
/// each round allows at most one bet.
pub fn leduc_poker() -> (game: StaticGame)
    ensures
        game.root == 0,
        node_views(game.nodes@) == leduc_nodes(),
        game.playable(),
{
    let mut nodes: Vec<GameNode> = Vec::new();
    nodes.push(GameNode::Chance { outcomes: Vec::new() });
    let mut outcomes: Vec<(u64, usize)> = Vec::new();
    let mut deal: usize = 0;
    assert(node_views(nodes@).skip(1) =~= leduc_deals(0));
    while deal < 36
        invariant
            deal <= 36,
            nodes@.len() >= 1,
            nodes@.len() <= 1 + 117 * deal,
            node_views(nodes@).skip(1) == leduc_deals(deal as int),
            outcomes@ == leduc_outcomes(deal as int),
        decreases 36 - deal,
    {
        let card_zero = deal / 6;
        let card_one = deal % 6;
        if card_zero != card_one {
            let ghost before = node_views(nodes@);
            assert(before.skip(1).len() + 1 == nodes@.len());
            let ghost block = preflop_block(nodes@.len() as int, card_zero as int, card_one as int);
            let root = push_preflop(&mut nodes, card_zero, card_one);
            assert(node_views(nodes@).len() == nodes@.len());
            assert(node_views(nodes@).skip(1) =~= before.skip(1) + block);
            outcomes.push((ONE_THIRTIETH_BITS, root));
        }
        deal = deal + 1;
    }
    let ghost built = node_views(nodes@);
    assert(built.skip(1).len() + 1 == nodes@.len());
    nodes[0] = GameNode::Chance { outcomes };
    assert(node_views(nodes@) =~= leduc_nodes());
    proof {
        lemma_leduc_closed();
        lemma_playable(nodes@, 0);
    }
    StaticGame { root: 0, nodes }
}

/// The node leads only to nodes below `count`.
pub open spec fn view_ok(view: NodeView, count: int) -> bool {
    match view {
        NodeView::Decision { player, children, .. } => {
            &&& player <= 1
            &&& children.len() > 0
            &&& forall|k: int| 0 <= k < children.len() ==> #[trigger] children[k] < count
        },
        NodeView::Chance { outcomes } => {
            &&& outcomes.len() > 0
            &&& forall|k: int|
                0 <= k < outcomes.len() ==> {
                    let outcome = #[trigger] outcomes[k];
                    finite(outcome.0) && above_zero(outcome.0) && outcome.1 < count
                }
        },
        NodeView::Terminal { first, second } => finite(first) && finite(second),
    }
}

pub open spec fn views_ok(views: Seq<NodeView>, count: int) -> bool {
    forall|i: int| 0 <= i < views.len() ==> view_ok(#[trigger] views[i], count)
}

proof fn lemma_views_join(left: Seq<NodeView>, right: Seq<NodeView>, count: int)
    requires
        views_ok(left, count),
        views_ok(right, count),
    ensures
        views_ok(left + right, count),
{
    let all = left + right;
    assert forall|i: int| 0 <= i < all.len() implies view_ok(#[trigger] all[i], count) by {
        if i < left.len() {
            assert(all[i] == left[i]);
        } else {
            assert(all[i] == right[i - left.len()]);
        }
    }
}

proof fn lemma_views_grow(views: Seq<NodeView>, few: int, many: int)
    requires
        views_ok(views, few),
        few <= many,
    ensures
        views_ok(views, many),
{
    assert forall|i: int| 0 <= i < views.len() implies view_ok(#[trigger] views[i], many) by {
        assert(view_ok(views[i], few));
    }
}

proof fn lemma_playable(nodes: Seq<GameNode>, root: usize)
    requires
        views_ok(node_views(nodes), nodes.len() as int),
        root < nodes.len(),
    ensures
        forall|i: int|
            0 <= i < nodes.len() ==> game_node_ok(#[trigger] nodes[i], nodes.len()),
{
    assert forall|i: int| 0 <= i < nodes.len() implies game_node_ok(
        #[trigger] nodes[i],
        nodes.len(),
    ) by {
        assert(node_views(nodes)[i] == node_view(nodes[i]));
        assert(view_ok(node_views(nodes)[i], nodes.len() as int));
    }
}

proof fn lemma_round_ok(base: int, keys: RoundKeys, small: int, large: int, stake: int)
    requires
        0 <= base < 10_000,
    ensures
        views_ok(round_block(base, keys, small, large, stake), base + 9),
{
}

proof fn lemma_kuhn_ok(deals: int)
    requires
        0 <= deals <= 9,
    ensures
        kuhn_deals(deals).len() <= 9 * deals,
        views_ok(kuhn_deals(deals), 1 + kuhn_deals(deals).len() as int),
        kuhn_deals(deals).len() == 9 * kuhn_outcomes(deals).len(),
        forall|k: int|
            0 <= k < kuhn_outcomes(deals).len() ==> {
                let outcome = #[trigger] kuhn_outcomes(deals)[k];
                outcome.0 == ONE_SIXTH_BITS && outcome.1 <= kuhn_deals(deals).len()
            },
    decreases deals,
{
    if deals > 0 {
        lemma_kuhn_ok(deals - 1);
        let rest = kuhn_deals(deals - 1);
        let card_zero = (deals - 1) / 3;
        let card_one = (deals - 1) % 3;
        if card_zero != card_one {
            let block = kuhn_block(1 + rest.len() as int, card_zero, card_one);
            lemma_round_ok(
                1 + rest.len() as int,
                kuhn_keys(card_zero, card_one),
                kuhn_showdown(card_zero, card_one, 1),
                kuhn_showdown(card_zero, card_one, 2),
                1,
            );
            lemma_views_grow(rest, 1 + rest.len() as int, 1 + kuhn_deals(deals).len() as int);
            lemma_views_join(rest, block, 1 + kuhn_deals(deals).len() as int);
        }
    }
}

/// Kuhn poker has 55 nodes, and every edge leads to one of them.
pub proof fn lemma_kuhn_closed()
    ensures
        views_ok(kuhn_nodes(), kuhn_nodes().len() as int),
        kuhn_nodes().len() == 55,
{
    lemma_kuhn_ok(9);
    reveal_with_fuel(kuhn_outcomes, 10);
    assert(kuhn_outcomes(9).len() == 6);
    lemma_views_join(
        seq![NodeView::Chance { outcomes: kuhn_outcomes(9) }],
        kuhn_deals(9),
        kuhn_nodes().len() as int,
    );
}

proof fn lemma_board_ok(base: int, card_zero: int, card_one: int, stake: int, boards: int)
    requires
        0 <= base < 9_900,
        0 <= boards <= 6,
        0 <= card_zero < 6,
        0 <= card_one < 6,
        card_zero != card_one,
    ensures
        views_ok(
            board_nodes(base, card_zero, card_one, stake, boards),
            base + board_nodes(base, card_zero, card_one, stake, boards).len(),
        ),
        forall|k: int|
            0 <= k < board_outcomes(base, card_zero, card_one, stake, boards).len() ==> {
                let outcome = #[trigger] board_outcomes(base, card_zero, card_one, stake, boards)[k];
                outcome.0 == ONE_QUARTER_BITS && outcome.1 < base + board_nodes(
                    base,
                    card_zero,
                    card_one,
                    stake,
                    boards,
                ).len()
            },
    decreases boards,
{
    lemma_board_nodes_len(base, card_zero, card_one, stake, boards);
    if boards > 0 {
        lemma_board_ok(base, card_zero, card_one, stake, boards - 1);
        lemma_board_nodes_len(base, card_zero, card_one, stake, boards - 1);
        let rest = board_nodes(base, card_zero, card_one, stake, boards - 1);
        let all = board_nodes(base, card_zero, card_one, stake, boards);
        let card = boards - 1;
        if card != card_zero && card != card_one {
            let block = postflop_block(base + rest.len(), card_zero, card_one, card / 2, stake);
            lemma_round_ok(
                base + rest.len(),
                leduc_keys(card_zero / 2, card_one / 2, card / 2),
                leduc_showdown(card_zero / 2, card_one / 2, card / 2, stake),
                leduc_showdown(card_zero / 2, card_one / 2, card / 2, stake + 1),
                stake,
            );
            lemma_views_grow(rest, base + rest.len(), base + all.len());
            lemma_views_join(rest, block, base + all.len());
        }
    }
}

proof fn lemma_board_block_ok(base: int, card_zero: int, card_one: int, stake: int)
    requires
        0 <= base < 9_900,
        0 <= card_zero < 6,
        0 <= card_one < 6,
        card_zero != card_one,
    ensures
        board_block(base, card_zero, card_one, stake).len() == 37,
        views_ok(board_block(base, card_zero, card_one, stake), base + 37),
{
    lemma_board_nodes_len(base, card_zero, card_one, stake, 6);
    lemma_board_ok(base, card_zero, card_one, stake, 6);
    let rounds = board_nodes(base, card_zero, card_one, stake, 6);
    let outcomes = board_outcomes(base, card_zero, card_one, stake, 6);
    lemma_views_grow(rounds, base + 36, base + 37);
    lemma_views_join(rounds, seq![NodeView::Chance { outcomes }], base + 37);
    assert(board_block(base, card_zero, card_one, stake) =~= rounds + seq![
        NodeView::Chance { outcomes },
    ]);
}

proof fn lemma_preflop_ok(base: int, card_zero: int, card_one: int)
    requires
        0 <= base < 9_000,
        0 <= card_zero < 6,
        0 <= card_one < 6,
        card_zero != card_one,
    ensures
        preflop_block(base, card_zero, card_one).len() == 117,
        views_ok(preflop_block(base, card_zero, card_one), base + 117),
{
    let total = base + 117;
    let first = board_block(base, card_zero, card_one, 2);
    let second = board_block(base + 39, card_zero, card_one, 1);
    let third = board_block(base + 78, card_zero, card_one, 2);
    lemma_board_block_ok(base, card_zero, card_one, 2);
    lemma_board_block_ok(base + 39, card_zero, card_one, 1);
    lemma_board_block_ok(base + 78, card_zero, card_one, 2);
    lemma_views_grow(first, base + 37, total);
    lemma_views_grow(second, base + 39 + 37, total);
    lemma_views_grow(third, base + 78 + 37, total);
    let a = seq![pays(-1), decides(0, 1_300 + card_zero / 2, base + 37, base + 36)];
    let b = seq![decides(1, 1_100 + card_one / 2, base + 75, base + 38), pays(1)];
    let c = seq![
        decides(1, 1_200 + card_one / 2, base + 77, base + 114),
        decides(0, 1_000 + card_zero / 2, base + 76, base + 115),
    ];
    lemma_views_join(first, a, total);
    lemma_views_join(first + a, second, total);
    lemma_views_join(first + a + second, b, total);
    lemma_views_join(first + a + second + b, third, total);
    lemma_views_join(first + a + second + b + third, c, total);
}

proof fn lemma_leduc_ok(deals: int)
    requires
        0 <= deals <= 36,
    ensures
        leduc_deals(deals).len() <= 117 * deals,
        views_ok(leduc_deals(deals), 1 + leduc_deals(deals).len() as int),
        leduc_deals(deals).len() == 117 * leduc_outcomes(deals).len(),
        forall|k: int|
            0 <= k < leduc_outcomes(deals).len() ==> {
                let outcome = #[trigger] leduc_outcomes(deals)[k];
                outcome.0 == ONE_THIRTIETH_BITS && outcome.1 <= leduc_deals(deals).len()
            },
    decreases deals,
{
    if deals > 0 {
        lemma_leduc_ok(deals - 1);
        let rest = leduc_deals(deals - 1);
        let card_zero = (deals - 1) / 6;
        let card_one = (deals - 1) % 6;
        if card_zero != card_one {
            let block = preflop_block(1 + rest.len() as int, card_zero, card_one);
            lemma_preflop_ok(1 + rest.len() as int, card_zero, card_one);
            lemma_views_grow(rest, 1 + rest.len() as int, 1 + leduc_deals(deals).len() as int);
            lemma_views_join(rest, block, 1 + leduc_deals(deals).len() as int);
        }
    }
}

/// Leduc poker has 3511 nodes, and every edge leads to one of them.
pub proof fn lemma_leduc_closed()
    ensures
        views_ok(leduc_nodes(), leduc_nodes().len() as int),
        leduc_nodes().len() == 3_511,
{
    lemma_leduc_ok(36);
    lemma_leduc_outcome_count(36);
    lemma_views_join(
        seq![NodeView::Chance { outcomes: leduc_outcomes(36) }],
        leduc_deals(36),
        leduc_nodes().len() as int,
    );
}

proof fn lemma_leduc_outcome_count(deals: int)
    requires
        0 <= deals <= 36,
    ensures
        leduc_outcomes(deals).len() == deals - (deals + 6) / 7,
    decreases deals,
{
    if deals > 0 {
        lemma_leduc_outcome_count(deals - 1);
    }
}

/// The node is no leaf, or what one player wins there the other loses.
pub open spec fn zero_sum(view: NodeView) -> bool {
    view is Terminal ==> exists|amount: int| -3 <= amount <= 3 && view == #[trigger] pays(amount)
}

/// In every reference game the players play for each other's money: no leaf
/// creates or loses any.
pub proof fn lemma_reference_games_are_zero_sum(index: int)
    ensures
        0 <= index < pennies_nodes().len() ==> zero_sum(pennies_nodes()[index]),
        0 <= index < kuhn_nodes().len() ==> zero_sum(kuhn_nodes()[index]),
        0 <= index < leduc_nodes().len() ==> zero_sum(leduc_nodes()[index]),
{
    if 0 <= index < pennies_nodes().len() {
        assert(zero_sum(pays(1)) && zero_sum(pays(-1)));
    }
    if 0 < index < kuhn_nodes().len() {
        lemma_kuhn_zero_sum(9, index - 1);
        assert(kuhn_nodes()[index] == kuhn_deals(9)[index - 1]);
    }
    if 0 < index < leduc_nodes().len() {
        lemma_leduc_zero_sum(36, index - 1);
        assert(leduc_nodes()[index] == leduc_deals(36)[index - 1]);
    }
}

proof fn lemma_round_zero_sum(
    base: int,
    keys: RoundKeys,
    small: int,
    large: int,
    stake: int,
    index: int,
)
    requires
        -3 <= small <= 3,
        -3 <= large <= 3,
        -3 <= stake <= 3,
        0 <= index < 9,
    ensures
        zero_sum(round_block(base, keys, small, large, stake)[index]),
{
    assert(zero_sum(pays(large)));
    assert(zero_sum(pays(small)));
    assert(zero_sum(pays(stake)));
    assert(zero_sum(pays(-stake)));
}

proof fn lemma_kuhn_zero_sum(deals: int, index: int)
    requires
        0 <= index < kuhn_deals(deals).len(),
    ensures
        zero_sum(kuhn_deals(deals)[index]),
    decreases deals,
{
    let rest = kuhn_deals(deals - 1);
    let card_zero = (deals - 1) / 3;
    let card_one = (deals - 1) % 3;
    if index < rest.len() {
        lemma_kuhn_zero_sum(deals - 1, index);
    } else {
        lemma_round_zero_sum(
            1 + rest.len() as int,
            kuhn_keys(card_zero, card_one),
            kuhn_showdown(card_zero, card_one, 1),
            kuhn_showdown(card_zero, card_one, 2),
            1,
            index - rest.len(),
        );
    }
}

proof fn lemma_board_zero_sum(
    base: int,
    card_zero: int,
    card_one: int,
    stake: int,
    boards: int,
    index: int,
)
    requires
        0 <= stake <= 2,
        0 <= index < board_nodes(base, card_zero, card_one, stake, boards).len(),
    ensures
        zero_sum(board_nodes(base, card_zero, card_one, stake, boards)[index]),
    decreases boards,
{
    let rest = board_nodes(base, card_zero, card_one, stake, boards - 1);
    let card = boards - 1;
    if index < rest.len() {
        lemma_board_zero_sum(base, card_zero, card_one, stake, boards - 1, index);
    } else {
        lemma_round_zero_sum(
            base + rest.len(),
            leduc_keys(card_zero / 2, card_one / 2, card / 2),
            leduc_showdown(card_zero / 2, card_one / 2, card / 2, stake),
            leduc_showdown(card_zero / 2, card_one / 2, card / 2, stake + 1),
            stake,
            index - rest.len(),
        );
    }
}

proof fn lemma_block_zero_sum(base: int, card_zero: int, card_one: int, stake: int, index: int)
    requires
        0 <= stake <= 2,
        0 <= index < board_block(base, card_zero, card_one, stake).len(),
    ensures
        zero_sum(board_block(base, card_zero, card_one, stake)[index]),
{
    let rounds = board_nodes(base, card_zero, card_one, stake, 6);
    if index < rounds.len() {
        lemma_board_zero_sum(base, card_zero, card_one, stake, 6, index);
    }
}

proof fn lemma_leduc_zero_sum(deals: int, index: int)
    requires
        0 <= deals <= 36,
        0 <= index < leduc_deals(deals).len(),
    ensures
        zero_sum(leduc_deals(deals)[index]),
    decreases deals,
{
    let rest = leduc_deals(deals - 1);
    let card_zero = (deals - 1) / 6;
    let card_one = (deals - 1) % 6;
    if index < rest.len() {
        lemma_leduc_zero_sum(deals - 1, index);
    } else {
        lemma_leduc_ok(deals - 1);
        let base = 1 + rest.len() as int;
        let at = index - rest.len();
        let block = preflop_block(base, card_zero, card_one);
        lemma_preflop_ok(base, card_zero, card_one);
        lemma_board_block_ok(base, card_zero, card_one, 2);
        lemma_board_block_ok(base + 39, card_zero, card_one, 1);
        lemma_board_block_ok(base + 78, card_zero, card_one, 2);
        assert(leduc_deals(deals)[index] == block[at]);
        assert(zero_sum(pays(1)) && zero_sum(pays(-1)));
        if at < 37 {
            lemma_block_zero_sum(base, card_zero, card_one, 2, at);
            assert(block[at] == board_block(base, card_zero, card_one, 2)[at]);
        } else if 39 <= at < 76 {
            lemma_block_zero_sum(base + 39, card_zero, card_one, 1, at - 39);
            assert(block[at] == board_block(base + 39, card_zero, card_one, 1)[at - 39]);
        } else if 78 <= at < 115 {
            lemma_block_zero_sum(base + 78, card_zero, card_one, 2, at - 78);
            assert(block[at] == board_block(base + 78, card_zero, card_one, 2)[at - 78]);
        }
    }
}

} // verus!
