//! What a solved spot says of the hero, and the index of its public tree.
use vstd::prelude::*;

use crate::batch_report::MultiwayBatchInfoSetReport;
use crate::cards::{Card, Combo};
use crate::domain::{Action, Chips, PlayerId, PlayerState, PlayerStatus, Street, TerminalState};
use crate::matrix_csv::{exported, ActionExport};
use crate::spot::{MultiwayHoldemSpotConfig, SpotError};
use crate::tree::{ChanceOutcome, GameTree, LeafKind, NodeId, TreeNode};

verus! {

/// A hand of the hero that was met, and the row of the report that tells of it.
#[derive(Debug, Clone, Copy, PartialEq, Eq, Structural)]
pub struct MultiwayHoldemSpotHeroHandReport {
    pub private_hand: Combo,
    pub visits: u64,
    pub row: usize,
}

#[derive(Debug, Clone)]
pub struct MultiwayHoldemSpotHeroReport {
    pub player: PlayerId,
    pub label: String,
    pub public_node: NodeId,
    pub requested_hands: usize,
    pub observed_hands: Vec<MultiwayHoldemSpotHeroHandReport>,
    pub missing_hands: Vec<Combo>,
    /// The actions of the decision.
    pub actions: Vec<Action>,
}

/// The row tells of a player's decision with a hand.
pub open spec fn row_matches(
    row: MultiwayBatchInfoSetReport,
    player: usize,
    node: usize,
    hand: Combo,
) -> bool {
    row.player == player && row.public_node == node && row.private_hand == hand
}

/// The first row from `from` on that tells of the decision.
pub open spec fn first_row(
    rows: Seq<MultiwayBatchInfoSetReport>,
    player: usize,
    node: usize,
    hand: Combo,
    from: int,
) -> Option<int>
    decreases rows.len() - from,
{
    if from >= rows.len() {
        None
    } else if row_matches(rows[from], player, node, hand) {
        Some(from)
    } else {
        first_row(rows, player, node, hand, from + 1)
    }
}

/// The first `count` hands, as far as a row tells of them.
pub open spec fn observed_of(
    rows: Seq<MultiwayBatchInfoSetReport>,
    player: usize,
    node: usize,
    hands: Seq<Combo>,
    count: int,
) -> Seq<MultiwayHoldemSpotHeroHandReport>
    decreases count,
{
    if count <= 0 {
        Seq::empty()
    } else {
        let before = observed_of(rows, player, node, hands, count - 1);
        match first_row(rows, player, node, hands[count - 1], 0) {
            Some(row) => before.push(
                MultiwayHoldemSpotHeroHandReport {
                    private_hand: hands[count - 1],
                    visits: rows[row].visits,
                    row: row as usize,
                },
            ),
            None => before,
        }
    }
}

/// Those of the first `count` hands of which no row tells.
pub open spec fn missing_of(
    rows: Seq<MultiwayBatchInfoSetReport>,
    player: usize,
    node: usize,
    hands: Seq<Combo>,
    count: int,
) -> Seq<Combo>
    decreases count,
{
    if count <= 0 {
        Seq::empty()
    } else {
        let before = missing_of(rows, player, node, hands, count - 1);
        match first_row(rows, player, node, hands[count - 1], 0) {
            Some(_) => before,
            None => before.push(hands[count - 1]),
        }
    }
}

/// The first of the observed hands whose actions are not `actions`.
pub open spec fn first_different(
    rows: Seq<MultiwayBatchInfoSetReport>,
    observed: Seq<MultiwayHoldemSpotHeroHandReport>,
    actions: Seq<Action>,
    from: int,
) -> Option<Combo>
    decreases observed.len() - from,
{
    if from >= observed.len() {
        None
    } else if rows[observed[from].row as int].actions@ != actions {
        Some(observed[from].private_hand)
    } else {
        first_different(rows, observed, actions, from + 1)
    }
}

fn find_row(
    rows: &Vec<MultiwayBatchInfoSetReport>,
    player: usize,
    node: usize,
    hand: Combo,
) -> (row: Option<usize>)
    ensures
        match row {
            Some(found) => {
                &&& first_row(rows@, player, node, hand, 0) == Some(found as int)
                &&& found < rows@.len()
            },
            None => first_row(rows@, player, node, hand, 0) is None,
        },
{
    let mut index: usize = 0;
    while index < rows.len()
        invariant
            index <= rows@.len(),
            first_row(rows@, player, node, hand, 0) == first_row(
                rows@,
                player,
                node,
                hand,
                index as int,
            ),
        decreases rows.len() - index,
    {
        if rows[index].player == player && rows[index].public_node == node
            && rows[index].private_hand == hand {
            return Some(index);
        }
        index = index + 1;
    }
    None
}

fn same_actions(left: &Vec<Action>, right: &Vec<Action>) -> (yes: bool)
    ensures
        yes == (left@ == right@),
{
    if left.len() != right.len() {
        return false;
    }
    let mut index: usize = 0;
    while index < left.len()
        invariant
            index <= left@.len(),
            left@.len() == right@.len(),
            forall|i: int| 0 <= i < index ==> left@[i] == right@[i],
        decreases left.len() - index,
    {
        if left[index] != right[index] {
            return false;
        }
        index = index + 1;
    }
    assert(left@ =~= right@);
    true
}

/// Collects what the report says of the hero's hands at a node. `has_weight`
/// tells whether the range gives the requested hands a weight above zero.
pub fn aggregate_hero_report(
    config: &MultiwayHoldemSpotConfig,
    public_node: NodeId,
    rows: &Vec<MultiwayBatchInfoSetReport>,
    has_weight: bool,
) -> (result: Result<MultiwayHoldemSpotHeroReport, SpotError>)
    ensures
        ({
            let hands = config.hero_hands@;
            let count = hands.len() as int;
            let observed = observed_of(rows@, config.hero_player, public_node, hands, count);
            let actions = rows@[observed[0].row as int].actions@;
            match result {
                Ok(report) => {
                    &&& has_weight
                    &&& observed.len() > 0
                    &&& first_different(rows@, observed, actions, 0) is None
                    &&& report.player == config.hero_player
                    &&& report.label@ == config.hero_label@
                    &&& report.public_node == public_node
                    &&& report.requested_hands == hands.len()
                    &&& report.observed_hands@ == observed
                    &&& report.missing_hands@ == missing_of(
                        rows@,
                        config.hero_player,
                        public_node,
                        hands,
                        count,
                    )
                    &&& report.actions@ == actions
                },
                Err(error) => if !has_weight {
                    error == SpotError::NoRequestedWeight
                } else if observed.len() == 0 {
                    error == SpotError::NoHandVisited
                } else {
                    &&& first_different(rows@, observed, actions, 0) matches Some(hand)
                    &&& error == (SpotError::DifferentActions { hand })
                },
            }
        }),
{
    if !has_weight {
        return Err(SpotError::NoRequestedWeight);
    }
    let hands = &config.hero_hands;
    let player = config.hero_player;
    let mut observed_hands: Vec<MultiwayHoldemSpotHeroHandReport> = Vec::new();
    let mut missing_hands: Vec<Combo> = Vec::new();
    let mut index: usize = 0;
    while index < hands.len()
        invariant
            index <= hands@.len(),
            observed_hands@ == observed_of(rows@, player, public_node, hands@, index as int),
            missing_hands@ == missing_of(rows@, player, public_node, hands@, index as int),
            forall|i: int|
                0 <= i < observed_hands@.len() ==> (#[trigger] observed_hands@[i]).row
                    < rows@.len(),
        decreases hands.len() - index,
    {
        let hand = hands[index];
        match find_row(rows, player, public_node, hand) {
            Some(row) => {
                observed_hands.push(
                    MultiwayHoldemSpotHeroHandReport {
                        private_hand: hand,
                        visits: rows[row].visits,
                        row,
                    },
                );
            },
            None => {
                missing_hands.push(hand);
            },
        }
        index = index + 1;
    }
    if observed_hands.len() == 0 {
        return Err(SpotError::NoHandVisited);
    }
    let first = &rows[observed_hands[0].row].actions;
    let mut checked: usize = 0;
    while checked < observed_hands.len()
        invariant
            checked <= observed_hands@.len(),
            has_weight,
            observed_hands@.len() > 0,
            observed_hands@ == observed_of(
                rows@,
                config.hero_player,
                public_node,
                config.hero_hands@,
                config.hero_hands@.len() as int,
            ),
            first@ == rows@[observed_hands@[0].row as int].actions@,
            forall|i: int|
                0 <= i < observed_hands@.len() ==> (#[trigger] observed_hands@[i]).row
                    < rows@.len(),
            first_different(rows@, observed_hands@, first@, 0) == first_different(
                rows@,
                observed_hands@,
                first@,
                checked as int,
            ),
        decreases observed_hands.len() - checked,
    {
        let hand = observed_hands[checked];
        if !same_actions(&rows[hand.row].actions, first) {
            return Err(SpotError::DifferentActions { hand: hand.private_hand });
        }
        checked = checked + 1;
    }
    let actions = first.clone();
    assert(actions@ =~= first@);
    Ok(
        MultiwayHoldemSpotHeroReport {
            player,
            label: config.hero_label.clone(),
            public_node,
            requested_hands: hands.len(),
            observed_hands,
            missing_hands,
            actions,
        },
    )
}

/// Every requested hand is either observed or missing.
pub proof fn lemma_hero_hands_are_accounted_for(
    rows: Seq<MultiwayBatchInfoSetReport>,
    player: usize,
    node: usize,
    hands: Seq<Combo>,
    count: int,
)
    requires
        0 <= count <= hands.len(),
    ensures
        observed_of(rows, player, node, hands, count).len() + missing_of(
            rows,
            player,
            node,
            hands,
            count,
        ).len() == count,
    decreases count,
{
    if count > 0 {
        lemma_hero_hands_are_accounted_for(rows, player, node, hands, count - 1);
    }
}

pub open spec fn street_text(street: Street) -> Seq<char> {
    match street {
        Street::Preflop => "preflop"@,
        Street::Flop => "flop"@,
        Street::Turn => "turn"@,
        Street::River => "river"@,
    }
}

pub fn street_name(street: Street) -> (name: &'static str)
    ensures
        name@ == street_text(street),
{
    match street {
        Street::Preflop => "preflop",
        Street::Flop => "flop",
        Street::Turn => "turn",
        Street::River => "river",
    }
}

pub open spec fn status_text(status: PlayerStatus) -> Seq<char> {
    match status {
        PlayerStatus::Active => "active"@,
        PlayerStatus::Folded => "folded"@,
        PlayerStatus::AllIn => "all_in"@,
        PlayerStatus::OutOfHand => "out_of_hand"@,
    }
}

pub fn status_name(status: PlayerStatus) -> (name: &'static str)
    ensures
        name@ == status_text(status),
{
    match status {
        PlayerStatus::Active => "active",
        PlayerStatus::Folded => "folded",
        PlayerStatus::AllIn => "all_in",
        PlayerStatus::OutOfHand => "out_of_hand",
    }
}

#[derive(Debug)]
pub struct TreeIndexPlayer {
    pub seat: usize,
    pub stack: Chips,
    pub committed: Chips,
    pub status: &'static str,
}

#[derive(Debug, Clone, Copy, PartialEq, Eq, Structural)]
pub struct TreeIndexAction {
    pub action: ActionExport,
    pub child: NodeId,
}

#[derive(Debug)]
pub struct TreeIndexDeal {
    pub cards: Vec<Card>,
    pub child: NodeId,
}

#[derive(Debug, Clone, Copy, PartialEq, Eq, Structural)]
pub enum TreeIndexEnd {
    RoundComplete,
    Fold { winner: usize },
    Showdown,
}

/// One node of the public tree, as results list it.
#[derive(Debug)]
pub struct TreeIndexNode {
    pub id: NodeId,
    pub parent: Option<NodeId>,
    pub street: &'static str,
    pub board: Vec<Card>,
    pub pot: Chips,
    pub current_bet: Chips,
    pub dead_money: Chips,
    pub actor: Option<PlayerId>,
    pub players: Vec<TreeIndexPlayer>,
    pub actions: Vec<TreeIndexAction>,
    pub chance: Option<Vec<TreeIndexDeal>>,
    pub terminal: Option<TreeIndexEnd>,
}

/// The first `count` children that an action leads to.
pub open spec fn indexed_actions(
    nodes: Seq<TreeNode>,
    children: Seq<usize>,
    count: int,
) -> Seq<TreeIndexAction>
    decreases count,
{
    if count <= 0 {
        Seq::empty()
    } else {
        let before = indexed_actions(nodes, children, count - 1);
        let child = children[count - 1];
        if child < nodes.len() && nodes[child as int].action_from_parent is Some {
            before.push(
                TreeIndexAction {
                    action: exported(nodes[child as int].action_from_parent->0),
                    child,
                },
            )
        } else {
            before
        }
    }
}

pub open spec fn indexed_deals(
    deals: Seq<TreeIndexDeal>,
    outcomes: Seq<ChanceOutcome>,
    children: Seq<usize>,
) -> bool {
    &&& deals.len() == if outcomes.len() <= children.len() {
        outcomes.len()
    } else {
        children.len()
    }
    &&& forall|i: int|
        0 <= i < deals.len() ==> (#[trigger] deals[i]).cards@ == outcomes[i].cards@
            && deals[i].child == children[i]
}

pub open spec fn indexed_end(leaf: LeafKind) -> TreeIndexEnd {
    match leaf {
        LeafKind::RoundComplete => TreeIndexEnd::RoundComplete,
        LeafKind::Terminal(TerminalState::Fold { winner }) => TreeIndexEnd::Fold { winner },
        LeafKind::Terminal(TerminalState::Showdown) => TreeIndexEnd::Showdown,
    }
}

pub open spec fn indexed_players(
    list: Seq<TreeIndexPlayer>,
    players: Seq<PlayerState>,
) -> bool {
    &&& list.len() == players.len()
    &&& forall|i: int|
        0 <= i < list.len() ==> {
            &&& (#[trigger] list[i]).seat == players[i].seat
            &&& list[i].stack == players[i].stack_remaining
            &&& list[i].committed == players[i].committed_total
            &&& list[i].status@ == status_text(players[i].status)
        }
}

/// The entry of a node.
pub open spec fn indexed(entry: TreeIndexNode, nodes: Seq<TreeNode>, node: TreeNode) -> bool {
    &&& entry.id == node.id
    &&& entry.parent == node.parent
    &&& entry.street@ == street_text(node.state.street)
    &&& entry.board@ == node.state.board@
    &&& entry.pot == node.state.pot
    &&& entry.current_bet == node.state.current_bet
    &&& entry.dead_money == node.state.dead_money
    &&& entry.actor == node.state.actor
    &&& indexed_players(entry.players@, node.state.players@)
    &&& entry.actions@ == indexed_actions(nodes, node.children@, node.children@.len() as int)
    &&& match node.chance {
        None => entry.chance is None,
        Some(chance) => {
            &&& entry.chance matches Some(deals)
            &&& indexed_deals(deals@, chance.outcomes@, node.children@)
        },
    }
    &&& match node.leaf {
        None => entry.terminal is None,
        Some(leaf) => entry.terminal == Some(indexed_end(leaf)),
    }
}

fn index_players(players: &Vec<PlayerState>) -> (list: Vec<TreeIndexPlayer>)
    ensures
        indexed_players(list@, players@),
{
    let mut list: Vec<TreeIndexPlayer> = Vec::new();
    let mut index: usize = 0;
    while index < players.len()
        invariant
            index <= players@.len(),
            indexed_players(list@, players@.take(index as int)),
        decreases players.len() - index,
    {
        let player = players[index];
        list.push(
            TreeIndexPlayer {
                seat: player.seat,
                stack: player.stack_remaining,
                committed: player.committed_total,
                status: status_name(player.status),
            },
        );
        index = index + 1;
    }
    assert(players@.take(index as int) =~= players@);
    list
}

fn index_actions(nodes: &Vec<TreeNode>, children: &Vec<NodeId>) -> (list: Vec<TreeIndexAction>)
    ensures
        list@ == indexed_actions(nodes@, children@, children@.len() as int),
{
    let mut list: Vec<TreeIndexAction> = Vec::new();
    let mut index: usize = 0;
    while index < children.len()
        invariant
            index <= children@.len(),
            list@ == indexed_actions(nodes@, children@, index as int),
        decreases children.len() - index,
    {
        let child = children[index];
        if child < nodes.len() {
            match nodes[child].action_from_parent {
                Some(action) => {
                    list.push(
                        TreeIndexAction { action: ActionExport::from_action(&action), child },
                    );
                },
                None => {},
            }
        }
        index = index + 1;
    }
    list
}

fn index_deals(outcomes: &Vec<ChanceOutcome>, children: &Vec<NodeId>) -> (list: Vec<TreeIndexDeal>)
    ensures
        indexed_deals(list@, outcomes@, children@),
{
    let mut list: Vec<TreeIndexDeal> = Vec::new();
    let mut index: usize = 0;
    while index < outcomes.len() && index < children.len()
        invariant
            index <= outcomes@.len(),
            index <= children@.len(),
            list@.len() == index,
            forall|i: int|
                0 <= i < index ==> (#[trigger] list@[i]).cards@ == outcomes@[i].cards@
                    && list@[i].child == children@[i],
        decreases outcomes.len() - index,
    {
        let cards = outcomes[index].cards.clone();
        assert(cards@ =~= outcomes@[index as int].cards@);
        list.push(TreeIndexDeal { cards, child: children[index] });
        index = index + 1;
    }
    list
}

/// One entry per node of the public tree, in order.
pub fn tree_index(tree: &GameTree) -> (list: Vec<TreeIndexNode>)
    ensures
        list@.len() == tree.nodes@.len(),
        forall|i: int|
            0 <= i < list@.len() ==> indexed(#[trigger] list@[i], tree.nodes@, tree.nodes@[i]),
{
    let mut list: Vec<TreeIndexNode> = Vec::new();
    let mut index: usize = 0;
    while index < tree.nodes.len()
        invariant
            index <= tree.nodes@.len(),
            list@.len() == index,
            forall|i: int|
                0 <= i < list@.len() ==> indexed(#[trigger] list@[i], tree.nodes@, tree.nodes@[i]),
        decreases tree.nodes.len() - index,
    {
        let node = &tree.nodes[index];
        let board = node.state.board.clone();
        assert(board@ =~= node.state.board@);
        let chance = match &node.chance {
            None => None,
            Some(chance) => Some(index_deals(&chance.outcomes, &node.children)),
        };
        let terminal = match node.leaf {
            None => None,
            Some(LeafKind::RoundComplete) => Some(TreeIndexEnd::RoundComplete),
            Some(LeafKind::Terminal(TerminalState::Fold { winner })) => Some(
                TreeIndexEnd::Fold { winner },
            ),
            Some(LeafKind::Terminal(TerminalState::Showdown)) => Some(TreeIndexEnd::Showdown),
        };
        let entry = TreeIndexNode {
            id: node.id,
            parent: node.parent,
            street: street_name(node.state.street),
            board,
            pot: node.state.pot,
            current_bet: node.state.current_bet,
            dead_money: node.state.dead_money,
            actor: node.state.actor,
            players: index_players(&node.state.players),
            actions: index_actions(&tree.nodes, &node.children),
            chance,
            terminal,
        };
        list.push(entry);
        index = index + 1;
    }
    list
}

} // verus!
