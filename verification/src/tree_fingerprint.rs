//! Structural fingerprint of a public hold'em tree.
//!
//! It covers state and accounting fields, action edges, chance outcomes and
//! leaf kinds, so that a checkpoint is not resumed against a changed spot.
use vstd::prelude::*;

use crate::chance::{card_words, hash_cards, hash_outcomes, outcome_encoding, outcome_words};
use crate::domain::{Action, GameState, PlayerState, PlayerStatus, Position, TerminalState};
use crate::hash::{
    concat_words, fnv_words, lemma_concat_step, lemma_list_readable, lemma_same_front, lemma_vec_len, list_words,
    readable, same_items, Fingerprint, FNV_OFFSET,
};
use crate::tree::{
    same_outcomes, ChanceNodeSpec, ChanceOutcome, GameTree, LeafKind, TreeNode,
};
use crate::tree_builder::{hash_ids, id_encoding};

verus! {

pub open spec fn action_code(action: Action) -> (u64, u64) {
    match action {
        Action::Fold => (1, 0),
        Action::Check => (2, 0),
        Action::Call => (3, 0),
        Action::Bet { to } => (4, to),
        Action::Raise { to } => (5, to),
        Action::AllIn => (6, 0),
    }
}

pub open spec fn status_code(status: PlayerStatus) -> u64 {
    match status {
        PlayerStatus::Active => 0,
        PlayerStatus::Folded => 1,
        PlayerStatus::AllIn => 2,
        PlayerStatus::OutOfHand => 3,
    }
}

pub open spec fn position_code(position: Position) -> u64 {
    match position {
        Position::Unknown => 0,
        Position::ButtonSmallBlind => 1,
        Position::Button => 2,
        Position::SmallBlind => 3,
        Position::BigBlind => 4,
        Position::Utg => 5,
        Position::Utg1 => 6,
        Position::Lj => 7,
        Position::Hj => 8,
        Position::Co => 9,
    }
}

pub open spec fn terminal_code(terminal: TerminalState) -> (u64, u64) {
    match terminal {
        TerminalState::Fold { winner } => (1, winner as u64),
        TerminalState::Showdown => (2, 0),
    }
}

/// A number that may be missing; the largest one stands for none.
pub open spec fn optional_id(id: Option<usize>) -> u64 {
    match id {
        Some(id) => id as u64,
        None => usize::MAX as u64,
    }
}

pub open spec fn player_words(player: PlayerState) -> Seq<u64> {
    seq![
        player.seat as u64,
        position_code(player.position),
        player.stack_remaining,
        player.committed_total,
        player.committed_street,
        player.ante_paid,
        status_code(player.status),
    ]
}

pub open spec fn player_encoding() -> spec_fn(PlayerState) -> Seq<u64> {
    |player: PlayerState| player_words(player)
}

pub open spec fn action_words(action: Option<Action>) -> Seq<u64> {
    match action {
        Some(action) => seq![1u64, action_code(action).0, action_code(action).1],
        None => seq![0u64],
    }
}

pub open spec fn leaf_words(leaf: Option<LeafKind>) -> Seq<u64> {
    match leaf {
        Some(LeafKind::RoundComplete) => seq![1u64],
        Some(LeafKind::Terminal(terminal)) => seq![
            2u64,
            terminal_code(terminal).0,
            terminal_code(terminal).1,
        ],
        None => seq![0u64],
    }
}

pub open spec fn chance_words(chance: Option<ChanceNodeSpec>) -> Seq<u64> {
    match chance {
        Some(chance) => seq![1u64, chance.next_street.spec_code()] + list_words(
            chance.outcomes@,
            outcome_encoding(),
        ),
        None => seq![0u64],
    }
}

pub open spec fn accounting_words(state: GameState) -> Seq<u64> {
    seq![
        state.dead_money,
        state.pot,
        optional_id(state.actor),
        state.current_bet,
        state.min_raise_increment,
    ]
}

pub open spec fn head_words(node: TreeNode) -> Seq<u64> {
    seq![
        node.id as u64,
        optional_id(node.parent),
        node.state.table_size as u64,
        node.state.street.spec_code(),
    ]
}

pub open spec fn edge_words(node: TreeNode) -> Seq<u64> {
    list_words(node.children@, id_encoding()) + (action_words(node.action_from_parent) + (
    leaf_words(node.leaf) + chance_words(node.chance)))
}

/// All words of one node.
pub open spec fn node_words(node: TreeNode) -> Seq<u64> {
    head_words(node) + (list_words(node.state.board@, card_words()) + (list_words(
        node.state.players@,
        player_encoding(),
    ) + (accounting_words(node.state) + (list_words(node.state.pending_players@, id_encoding()) + (
    list_words(node.state.raise_allowed@, id_encoding()) + edge_words(node))))))
}

pub open spec fn node_encoding() -> spec_fn(TreeNode) -> Seq<u64> {
    |node: TreeNode| node_words(node)
}

/// All words of the tree.
pub open spec fn tree_words(tree: GameTree) -> Seq<u64> {
    seq![tree.root as u64] + list_words(tree.nodes@, node_encoding())
}

fn hash_player(fingerprint: &mut Fingerprint, player: PlayerState)
    requires
        old(fingerprint).wf(),
    ensures
        final(fingerprint).wf(),
        final(fingerprint).words@ == old(fingerprint).words@ + player_words(player),
{
    fingerprint.word(player.seat as u64);
    fingerprint.word(
        match player.position {
            Position::Unknown => 0,
            Position::ButtonSmallBlind => 1,
            Position::Button => 2,
            Position::SmallBlind => 3,
            Position::BigBlind => 4,
            Position::Utg => 5,
            Position::Utg1 => 6,
            Position::Lj => 7,
            Position::Hj => 8,
            Position::Co => 9,
        },
    );
    fingerprint.word(player.stack_remaining);
    fingerprint.word(player.committed_total);
    fingerprint.word(player.committed_street);
    fingerprint.word(player.ante_paid);
    fingerprint.word(
        match player.status {
            PlayerStatus::Active => 0,
            PlayerStatus::Folded => 1,
            PlayerStatus::AllIn => 2,
            PlayerStatus::OutOfHand => 3,
        },
    );
    assert(fingerprint.words@ =~= old(fingerprint).words@ + player_words(player));
}

fn hash_players(fingerprint: &mut Fingerprint, players: &Vec<PlayerState>)
    requires
        old(fingerprint).wf(),
    ensures
        final(fingerprint).wf(),
        final(fingerprint).words@ == old(fingerprint).words@ + list_words(
            players@,
            player_encoding(),
        ),
{
    let ghost start = fingerprint.words@;
    fingerprint.word(players.len() as u64);
    let mut index: usize = 0;
    assert(players@.take(0) =~= Seq::<PlayerState>::empty());
    assert(fingerprint.words@ =~= start.push(players@.len() as u64) + concat_words(
        players@.take(0),
        player_encoding(),
    ));
    while index < players.len()
        invariant
            index <= players@.len(),
            fingerprint.wf(),
            fingerprint.words@ == start.push(players@.len() as u64) + concat_words(
                players@.take(index as int),
                player_encoding(),
            ),
        decreases players.len() - index,
    {
        proof {
            lemma_concat_step(players@, player_encoding(), index as int);
        }
        hash_player(fingerprint, players[index]);
        index = index + 1;
        assert(fingerprint.words@ =~= start.push(players@.len() as u64) + concat_words(
            players@.take(index as int),
            player_encoding(),
        ));
    }
    assert(players@.take(index as int) =~= players@);
    assert(fingerprint.words@ =~= start + list_words(players@, player_encoding()));
}

fn hash_optional_id(fingerprint: &mut Fingerprint, id: Option<usize>)
    requires
        old(fingerprint).wf(),
    ensures
        final(fingerprint).wf(),
        final(fingerprint).words@ == old(fingerprint).words@.push(optional_id(id)),
{
    match id {
        Some(id) => fingerprint.word(id as u64),
        None => fingerprint.word(usize::MAX as u64),
    }
}

fn hash_action(fingerprint: &mut Fingerprint, action: Option<Action>)
    requires
        old(fingerprint).wf(),
    ensures
        final(fingerprint).wf(),
        final(fingerprint).words@ == old(fingerprint).words@ + action_words(action),
{
    if let Some(action) = action {
        let (kind, value): (u64, u64) = match action {
            Action::Fold => (1, 0),
            Action::Check => (2, 0),
            Action::Call => (3, 0),
            Action::Bet { to } => (4, to),
            Action::Raise { to } => (5, to),
            Action::AllIn => (6, 0),
        };
        fingerprint.word(1);
        fingerprint.word(kind);
        fingerprint.word(value);
    } else {
        fingerprint.word(0);
    }
    assert(fingerprint.words@ =~= old(fingerprint).words@ + action_words(action));
}

fn hash_leaf(fingerprint: &mut Fingerprint, leaf: Option<LeafKind>)
    requires
        old(fingerprint).wf(),
    ensures
        final(fingerprint).wf(),
        final(fingerprint).words@ == old(fingerprint).words@ + leaf_words(leaf),
{
    match leaf {
        Some(LeafKind::RoundComplete) => fingerprint.word(1),
        Some(LeafKind::Terminal(terminal)) => {
            let (kind, value): (u64, u64) = match terminal {
                TerminalState::Fold { winner } => (1, winner as u64),
                TerminalState::Showdown => (2, 0),
            };
            fingerprint.word(2);
            fingerprint.word(kind);
            fingerprint.word(value);
        },
        None => fingerprint.word(0),
    }
    assert(fingerprint.words@ =~= old(fingerprint).words@ + leaf_words(leaf));
}

fn hash_chance(fingerprint: &mut Fingerprint, chance: &Option<ChanceNodeSpec>)
    requires
        old(fingerprint).wf(),
    ensures
        final(fingerprint).wf(),
        final(fingerprint).words@ == old(fingerprint).words@ + chance_words(*chance),
{
    match chance {
        Some(chance) => {
            fingerprint.word(1);
            fingerprint.word(chance.next_street.code());
            hash_outcomes(fingerprint, &chance.outcomes);
        },
        None => fingerprint.word(0),
    }
    assert(fingerprint.words@ =~= old(fingerprint).words@ + chance_words(*chance));
}

pub proof fn lemma_regroup(a: Seq<u64>, b: Seq<u64>, c: Seq<u64>)
    ensures
        (a + b) + c == a + (b + c),
{
    assert((a + b) + c =~= a + (b + c));
}

fn hash_edges(fingerprint: &mut Fingerprint, node: &TreeNode)
    requires
        old(fingerprint).wf(),
    ensures
        final(fingerprint).wf(),
        final(fingerprint).words@ == old(fingerprint).words@ + edge_words(*node),
{
    hash_ids(fingerprint, &node.children);
    hash_action(fingerprint, node.action_from_parent);
    hash_leaf(fingerprint, node.leaf);
    hash_chance(fingerprint, &node.chance);
    proof {
        let start = old(fingerprint).words@;
        let children = list_words(node.children@, id_encoding());
        let action = action_words(node.action_from_parent);
        let leaf = leaf_words(node.leaf);
        let chance = chance_words(node.chance);
        lemma_regroup(start + children + action, leaf, chance);
        lemma_regroup(start + children, action, leaf + chance);
        lemma_regroup(start, children, action + (leaf + chance));
    }
}

fn hash_head(fingerprint: &mut Fingerprint, node: &TreeNode)
    requires
        old(fingerprint).wf(),
    ensures
        final(fingerprint).wf(),
        final(fingerprint).words@ == old(fingerprint).words@ + head_words(*node),
{
    fingerprint.word(node.id as u64);
    hash_optional_id(fingerprint, node.parent);
    fingerprint.word(node.state.table_size as u64);
    fingerprint.word(node.state.street.code());
    assert(fingerprint.words@ =~= old(fingerprint).words@ + head_words(*node));
}

fn hash_accounting(fingerprint: &mut Fingerprint, state: &GameState)
    requires
        old(fingerprint).wf(),
    ensures
        final(fingerprint).wf(),
        final(fingerprint).words@ == old(fingerprint).words@ + accounting_words(*state),
{
    fingerprint.word(state.dead_money);
    fingerprint.word(state.pot);
    hash_optional_id(fingerprint, state.actor);
    fingerprint.word(state.current_bet);
    fingerprint.word(state.min_raise_increment);
    assert(fingerprint.words@ =~= old(fingerprint).words@ + accounting_words(*state));
}

fn hash_node(fingerprint: &mut Fingerprint, node: &TreeNode)
    requires
        old(fingerprint).wf(),
    ensures
        final(fingerprint).wf(),
        final(fingerprint).words@ == old(fingerprint).words@ + node_words(*node),
{
    hash_head(fingerprint, node);
    hash_cards(fingerprint, &node.state.board);
    hash_players(fingerprint, &node.state.players);
    hash_accounting(fingerprint, &node.state);
    hash_ids(fingerprint, &node.state.pending_players);
    hash_ids(fingerprint, &node.state.raise_allowed);
    hash_edges(fingerprint, node);
    proof {
        let start = old(fingerprint).words@;
        let head = head_words(*node);
        let board = list_words(node.state.board@, card_words());
        let players = list_words(node.state.players@, player_encoding());
        let accounting = accounting_words(node.state);
        let pending = list_words(node.state.pending_players@, id_encoding());
        let raise = list_words(node.state.raise_allowed@, id_encoding());
        let edges = edge_words(*node);
        lemma_regroup(start + head + board + players + accounting + pending, raise, edges);
        lemma_regroup(start + head + board + players + accounting, pending, raise + edges);
        lemma_regroup(start + head + board + players, accounting, pending + (raise + edges));
        lemma_regroup(start + head + board, players, accounting + (pending + (raise + edges)));
        lemma_regroup(
            start + head,
            board,
            players + (accounting + (pending + (raise + edges))),
        );
        lemma_regroup(
            start,
            head,
            board + (players + (accounting + (pending + (raise + edges)))),
        );
    }
}

/// Deterministic structural fingerprint of a public tree.
pub fn multiway_holdem_tree_fingerprint(tree: &GameTree) -> (hash: u64)
    ensures
        hash == fnv_words(FNV_OFFSET, tree_words(*tree)),
{
    let mut fingerprint = Fingerprint::new();
    fingerprint.word(tree.root as u64);
    fingerprint.word(tree.nodes.len() as u64);
    let ghost start = seq![tree.root as u64, tree.nodes@.len() as u64];
    let mut index: usize = 0;
    assert(tree.nodes@.take(0) =~= Seq::<TreeNode>::empty());
    assert(fingerprint.words@ =~= start + concat_words(tree.nodes@.take(0), node_encoding()));
    while index < tree.nodes.len()
        invariant
            index <= tree.nodes@.len(),
            fingerprint.wf(),
            fingerprint.words@ == start + concat_words(
                tree.nodes@.take(index as int),
                node_encoding(),
            ),
        decreases tree.nodes.len() - index,
    {
        proof {
            lemma_concat_step(tree.nodes@, node_encoding(), index as int);
        }
        hash_node(&mut fingerprint, &tree.nodes[index]);
        index = index + 1;
        assert(fingerprint.words@ =~= start + concat_words(
            tree.nodes@.take(index as int),
            node_encoding(),
        ));
    }
    assert(tree.nodes@.take(index as int) =~= tree.nodes@);
    assert(fingerprint.words@ =~= tree_words(*tree));
    fingerprint.hash
}

/// The nodes agree in everything that the fingerprint covers. The terminal
/// mark of the state is left to the leaf kind, and a number that is missing
/// and the largest number count as one.
pub open spec fn same_node(a: TreeNode, b: TreeNode) -> bool {
    &&& a.id == b.id
    &&& optional_id(a.parent) == optional_id(b.parent)
    &&& a.action_from_parent == b.action_from_parent
    &&& a.children@ == b.children@
    &&& a.leaf == b.leaf
    &&& match (a.chance, b.chance) {
        (Some(x), Some(y)) => x.next_street == y.next_street && same_outcomes(
            x.outcomes@,
            y.outcomes@,
        ),
        (None, None) => true,
        _ => false,
    }
    &&& a.state.table_size == b.state.table_size
    &&& a.state.street == b.state.street
    &&& a.state.board@ == b.state.board@
    &&& a.state.players@ == b.state.players@
    &&& a.state.dead_money == b.state.dead_money
    &&& a.state.pot == b.state.pot
    &&& optional_id(a.state.actor) == optional_id(b.state.actor)
    &&& a.state.current_bet == b.state.current_bet
    &&& a.state.min_raise_increment == b.state.min_raise_increment
    &&& a.state.pending_players@ == b.state.pending_players@
    &&& a.state.raise_allowed@ == b.state.raise_allowed@
}

proof fn lemma_cards_readable()
    ensures
        readable(card_words(), |a: u8, b: u8| a == b),
{
    let encode = card_words();
    assert forall|a: u8, b: u8, s: Seq<u64>, t: Seq<u64>|
        #![trigger encode(a) + s, encode(b) + t]
        encode(a) + s == encode(b) + t implies a == b && s == t by {
        lemma_same_front(encode(a), encode(b), s, t);
        assert(encode(a)[0] == encode(b)[0]);
    }
}

pub proof fn lemma_ids_readable()
    ensures
        readable(id_encoding(), |a: usize, b: usize| a == b),
{
    let encode = id_encoding();
    assert forall|a: usize, b: usize, s: Seq<u64>, t: Seq<u64>|
        #![trigger encode(a) + s, encode(b) + t]
        encode(a) + s == encode(b) + t implies a == b && s == t by {
        lemma_same_front(encode(a), encode(b), s, t);
        assert(encode(a)[0] == encode(b)[0]);
    }
}

proof fn lemma_players_readable()
    ensures
        readable(player_encoding(), |a: PlayerState, b: PlayerState| a == b),
{
    let encode = player_encoding();
    assert forall|a: PlayerState, b: PlayerState, s: Seq<u64>, t: Seq<u64>|
        #![trigger encode(a) + s, encode(b) + t]
        encode(a) + s == encode(b) + t implies a == b && s == t by {
        lemma_same_front(encode(a), encode(b), s, t);
        assert forall|i: int| 0 <= i < 7 implies player_words(a)[i] == player_words(b)[i] by {}
        assert(player_words(a)[0] == player_words(b)[0]);
        assert(player_words(a)[1] == player_words(b)[1]);
        assert(player_words(a)[2] == player_words(b)[2]);
        assert(player_words(a)[3] == player_words(b)[3]);
        assert(player_words(a)[4] == player_words(b)[4]);
        assert(player_words(a)[5] == player_words(b)[5]);
        assert(player_words(a)[6] == player_words(b)[6]);
    }
}

/// A list of equal items is one sequence.
pub proof fn lemma_equal_items<T>(a: Seq<T>, b: Seq<T>)
    requires
        same_items(a, b, |x: T, y: T| x == y),
    ensures
        a == b,
{
    assert forall|i: int| 0 <= i < a.len() implies a[i] == b[i] by {
        let same = |x: T, y: T| x == y;
        assert(same(a[i], b[i]));
    }
    assert(a =~= b);
}

proof fn lemma_outcome_words_read(
    a: ChanceOutcome,
    b: ChanceOutcome,
    s: Seq<u64>,
    t: Seq<u64>,
)
    requires
        outcome_words(a) + s == outcome_words(b) + t,
    ensures
        a.same(b),
        s == t,
{
    let ca = list_words(a.cards@, card_words());
    let cb = list_words(b.cards@, card_words());
    let ra = seq![a.probability] + s;
    let rb = seq![b.probability] + t;
    assert(outcome_words(a) + s =~= ca + ra);
    assert(outcome_words(b) + t =~= cb + rb);
    lemma_cards_readable();
    lemma_vec_len(a.cards);
    lemma_vec_len(b.cards);
    lemma_list_readable(a.cards@, b.cards@, ra, rb, card_words(), |x: u8, y: u8| x == y);
    lemma_equal_items(a.cards@, b.cards@);
    lemma_same_front(seq![a.probability], seq![b.probability], s, t);
    assert(seq![a.probability][0] == seq![b.probability][0]);
}

proof fn lemma_outcomes_read(
    a: Seq<ChanceOutcome>,
    b: Seq<ChanceOutcome>,
    s: Seq<u64>,
    t: Seq<u64>,
)
    requires
        a.len() == b.len(),
        concat_words(a, outcome_encoding()) + s == concat_words(b, outcome_encoding()) + t,
    ensures
        same_outcomes(a, b),
        s == t,
    decreases a.len(),
{
    if a.len() == 0 {
        lemma_same_front(
            concat_words(a, outcome_encoding()),
            concat_words(b, outcome_encoding()),
            s,
            t,
        );
    } else {
        crate::hash::lemma_concat_front(a, outcome_encoding());
        crate::hash::lemma_concat_front(b, outcome_encoding());
        let ra = concat_words(a.skip(1), outcome_encoding()) + s;
        let rb = concat_words(b.skip(1), outcome_encoding()) + t;
        assert(concat_words(a, outcome_encoding()) + s =~= outcome_words(a[0]) + ra);
        assert(concat_words(b, outcome_encoding()) + t =~= outcome_words(b[0]) + rb);
        lemma_outcome_words_read(a[0], b[0], ra, rb);
        lemma_outcomes_read(a.skip(1), b.skip(1), s, t);
        assert forall|i: int| 0 <= i < a.len() implies (#[trigger] a[i]).same(b[i]) by {
            if i > 0 {
                assert(a.skip(1)[i - 1].same(b.skip(1)[i - 1]));
            }
        }
    }
}

pub proof fn lemma_outcome_list_read(
    a: Seq<ChanceOutcome>,
    b: Seq<ChanceOutcome>,
    s: Seq<u64>,
    t: Seq<u64>,
)
    requires
        a.len() <= u64::MAX,
        b.len() <= u64::MAX,
        list_words(a, outcome_encoding()) + s == list_words(b, outcome_encoding()) + t,
    ensures
        same_outcomes(a, b),
        s == t,
{
    let ra = concat_words(a, outcome_encoding()) + s;
    let rb = concat_words(b, outcome_encoding()) + t;
    assert(list_words(a, outcome_encoding()) + s =~= seq![a.len() as u64] + ra);
    assert(list_words(b, outcome_encoding()) + t =~= seq![b.len() as u64] + rb);
    lemma_same_front(seq![a.len() as u64], seq![b.len() as u64], ra, rb);
    assert(seq![a.len() as u64][0] == seq![b.len() as u64][0]);
    lemma_outcomes_read(a, b, s, t);
}

proof fn lemma_action_read(a: Option<Action>, b: Option<Action>, s: Seq<u64>, t: Seq<u64>)
    requires
        action_words(a) + s == action_words(b) + t,
    ensures
        a == b,
        s == t,
{
    assert((action_words(a) + s)[0] == action_words(a)[0]);
    assert((action_words(b) + t)[0] == action_words(b)[0]);
    lemma_same_front(action_words(a), action_words(b), s, t);
    if a is Some {
        assert(action_words(a)[1] == action_words(b)[1]);
        assert(action_words(a)[2] == action_words(b)[2]);
    }
}

proof fn lemma_leaf_read(a: Option<LeafKind>, b: Option<LeafKind>, s: Seq<u64>, t: Seq<u64>)
    requires
        leaf_words(a) + s == leaf_words(b) + t,
    ensures
        a == b,
        s == t,
{
    assert((leaf_words(a) + s)[0] == leaf_words(a)[0]);
    assert((leaf_words(b) + t)[0] == leaf_words(b)[0]);
    lemma_same_front(leaf_words(a), leaf_words(b), s, t);
    if let Some(LeafKind::Terminal(_)) = a {
        assert(leaf_words(a)[1] == leaf_words(b)[1]);
        assert(leaf_words(a)[2] == leaf_words(b)[2]);
    }
}

proof fn lemma_chance_read(
    a: Option<ChanceNodeSpec>,
    b: Option<ChanceNodeSpec>,
    s: Seq<u64>,
    t: Seq<u64>,
)
    requires
        chance_words(a) + s == chance_words(b) + t,
    ensures
        match (a, b) {
            (Some(x), Some(y)) => x.next_street == y.next_street && same_outcomes(
                x.outcomes@,
                y.outcomes@,
            ),
            (None, None) => true,
            _ => false,
        },
        s == t,
{
    assert((chance_words(a) + s)[0] == chance_words(a)[0]);
    assert((chance_words(b) + t)[0] == chance_words(b)[0]);
    match (a, b) {
        (Some(x), Some(y)) => {
            let ha = seq![1u64, x.next_street.spec_code()];
            let hb = seq![1u64, y.next_street.spec_code()];
            let ra = list_words(x.outcomes@, outcome_encoding()) + s;
            let rb = list_words(y.outcomes@, outcome_encoding()) + t;
            assert(chance_words(a) + s =~= ha + ra);
            assert(chance_words(b) + t =~= hb + rb);
            lemma_same_front(ha, hb, ra, rb);
            assert(ha[1] == hb[1]);
            lemma_vec_len(x.outcomes);
            lemma_vec_len(y.outcomes);
            lemma_outcome_list_read(x.outcomes@, y.outcomes@, s, t);
        },
        (None, None) => {
            lemma_same_front(chance_words(a), chance_words(b), s, t);
        },
        _ => {},
    }
}

proof fn lemma_edges_read(a: TreeNode, b: TreeNode, s: Seq<u64>, t: Seq<u64>)
    requires
        edge_words(a) + s == edge_words(b) + t,
    ensures
        a.children@ == b.children@,
        a.action_from_parent == b.action_from_parent,
        a.leaf == b.leaf,
        match (a.chance, b.chance) {
            (Some(x), Some(y)) => x.next_street == y.next_street && same_outcomes(
                x.outcomes@,
                y.outcomes@,
            ),
            (None, None) => true,
            _ => false,
        },
        s == t,
{
    let ca = chance_words(a.chance) + s;
    let cb = chance_words(b.chance) + t;
    let la = leaf_words(a.leaf) + ca;
    let lb = leaf_words(b.leaf) + cb;
    let aa = action_words(a.action_from_parent) + la;
    let ab = action_words(b.action_from_parent) + lb;
    lemma_regroup(
        list_words(a.children@, id_encoding()),
        action_words(a.action_from_parent) + (leaf_words(a.leaf) + chance_words(a.chance)),
        s,
    );
    lemma_regroup(
        action_words(a.action_from_parent),
        leaf_words(a.leaf) + chance_words(a.chance),
        s,
    );
    lemma_regroup(leaf_words(a.leaf), chance_words(a.chance), s);
    lemma_regroup(
        list_words(b.children@, id_encoding()),
        action_words(b.action_from_parent) + (leaf_words(b.leaf) + chance_words(b.chance)),
        t,
    );
    lemma_regroup(
        action_words(b.action_from_parent),
        leaf_words(b.leaf) + chance_words(b.chance),
        t,
    );
    lemma_regroup(leaf_words(b.leaf), chance_words(b.chance), t);
    assert(edge_words(a) + s == list_words(a.children@, id_encoding()) + aa);
    assert(edge_words(b) + t == list_words(b.children@, id_encoding()) + ab);
    lemma_ids_readable();
    lemma_vec_len(a.children);
    lemma_vec_len(b.children);
    lemma_list_readable(
        a.children@,
        b.children@,
        aa,
        ab,
        id_encoding(),
        |x: usize, y: usize| x == y,
    );
    lemma_equal_items(a.children@, b.children@);
    lemma_action_read(a.action_from_parent, b.action_from_parent, la, lb);
    lemma_leaf_read(a.leaf, b.leaf, ca, cb);
    lemma_chance_read(a.chance, b.chance, s, t);
}

proof fn lemma_regroup_node(node: TreeNode, rest: Seq<u64>)
    ensures
        node_words(node) + rest == head_words(node) + (list_words(node.state.board@, card_words())
            + (list_words(node.state.players@, player_encoding()) + (accounting_words(node.state)
            + (list_words(node.state.pending_players@, id_encoding()) + (list_words(
            node.state.raise_allowed@,
            id_encoding(),
        ) + (edge_words(node) + rest)))))),
{
    let head = head_words(node);
    let board = list_words(node.state.board@, card_words());
    let players = list_words(node.state.players@, player_encoding());
    let accounting = accounting_words(node.state);
    let pending = list_words(node.state.pending_players@, id_encoding());
    let raise = list_words(node.state.raise_allowed@, id_encoding());
    let edges = edge_words(node);
    lemma_regroup(raise, edges, rest);
    lemma_regroup(pending, raise + edges, rest);
    lemma_regroup(accounting, pending + (raise + edges), rest);
    lemma_regroup(players, accounting + (pending + (raise + edges)), rest);
    lemma_regroup(board, players + (accounting + (pending + (raise + edges))), rest);
    lemma_regroup(head, board + (players + (accounting + (pending + (raise + edges)))), rest);
}

proof fn lemma_node_read(a: TreeNode, b: TreeNode, s: Seq<u64>, t: Seq<u64>)
    requires
        node_words(a) + s == node_words(b) + t,
    ensures
        same_node(a, b),
        s == t,
{
    let ea = edge_words(a) + s;
    let eb = edge_words(b) + t;
    let ra = list_words(a.state.raise_allowed@, id_encoding()) + ea;
    let rb = list_words(b.state.raise_allowed@, id_encoding()) + eb;
    let pa = list_words(a.state.pending_players@, id_encoding()) + ra;
    let pb = list_words(b.state.pending_players@, id_encoding()) + rb;
    let ma = accounting_words(a.state) + pa;
    let mb = accounting_words(b.state) + pb;
    let ya = list_words(a.state.players@, player_encoding()) + ma;
    let yb = list_words(b.state.players@, player_encoding()) + mb;
    let ba = list_words(a.state.board@, card_words()) + ya;
    let bb = list_words(b.state.board@, card_words()) + yb;
    lemma_regroup_node(a, s);
    lemma_regroup_node(b, t);
    lemma_same_front(head_words(a), head_words(b), ba, bb);
    lemma_vec_len(a.state.board);
    lemma_vec_len(b.state.board);
    lemma_vec_len(a.state.players);
    lemma_vec_len(b.state.players);
    lemma_vec_len(a.state.pending_players);
    lemma_vec_len(b.state.pending_players);
    lemma_vec_len(a.state.raise_allowed);
    lemma_vec_len(b.state.raise_allowed);
    assert(head_words(a)[0] == head_words(b)[0]);
    assert(head_words(a)[1] == head_words(b)[1]);
    assert(head_words(a)[2] == head_words(b)[2]);
    assert(head_words(a)[3] == head_words(b)[3]);
    lemma_cards_readable();
    lemma_list_readable(a.state.board@, b.state.board@, ya, yb, card_words(), |x: u8, y: u8| x == y);
    lemma_equal_items(a.state.board@, b.state.board@);
    lemma_players_readable();
    lemma_list_readable(
        a.state.players@,
        b.state.players@,
        ma,
        mb,
        player_encoding(),
        |x: PlayerState, y: PlayerState| x == y,
    );
    lemma_equal_items(a.state.players@, b.state.players@);
    lemma_same_front(accounting_words(a.state), accounting_words(b.state), pa, pb);
    assert(accounting_words(a.state)[0] == accounting_words(b.state)[0]);
    assert(accounting_words(a.state)[1] == accounting_words(b.state)[1]);
    assert(accounting_words(a.state)[2] == accounting_words(b.state)[2]);
    assert(accounting_words(a.state)[3] == accounting_words(b.state)[3]);
    assert(accounting_words(a.state)[4] == accounting_words(b.state)[4]);
    lemma_ids_readable();
    lemma_list_readable(
        a.state.pending_players@,
        b.state.pending_players@,
        ra,
        rb,
        id_encoding(),
        |x: usize, y: usize| x == y,
    );
    lemma_equal_items(a.state.pending_players@, b.state.pending_players@);
    lemma_list_readable(
        a.state.raise_allowed@,
        b.state.raise_allowed@,
        ea,
        eb,
        id_encoding(),
        |x: usize, y: usize| x == y,
    );
    lemma_equal_items(a.state.raise_allowed@, b.state.raise_allowed@);
    lemma_edges_read(a, b, s, t);
}

proof fn lemma_nodes_read(a: Seq<TreeNode>, b: Seq<TreeNode>, s: Seq<u64>, t: Seq<u64>)
    requires
        a.len() == b.len(),
        concat_words(a, node_encoding()) + s == concat_words(b, node_encoding()) + t,
    ensures
        forall|i: int| 0 <= i < a.len() ==> same_node(#[trigger] a[i], b[i]),
        s == t,
    decreases a.len(),
{
    if a.len() == 0 {
        lemma_same_front(
            concat_words(a, node_encoding()),
            concat_words(b, node_encoding()),
            s,
            t,
        );
    } else {
        crate::hash::lemma_concat_front(a, node_encoding());
        crate::hash::lemma_concat_front(b, node_encoding());
        let ra = concat_words(a.skip(1), node_encoding()) + s;
        let rb = concat_words(b.skip(1), node_encoding()) + t;
        assert(concat_words(a, node_encoding()) + s =~= node_words(a[0]) + ra);
        assert(concat_words(b, node_encoding()) + t =~= node_words(b[0]) + rb);
        lemma_node_read(a[0], b[0], ra, rb);
        lemma_nodes_read(a.skip(1), b.skip(1), s, t);
        assert forall|i: int| 0 <= i < a.len() implies same_node(#[trigger] a[i], b[i]) by {
            if i > 0 {
                assert(same_node(a.skip(1)[i - 1], b.skip(1)[i - 1]));
            }
        }
    }
}

/// The words that are hashed tell trees apart: two trees with the same words
/// agree in every state field, edge, outcome and leaf.
pub proof fn lemma_tree_words_identify_the_tree(a: GameTree, b: GameTree)
    requires
        tree_words(a) == tree_words(b),
    ensures
        a.root == b.root,
        a.nodes@.len() == b.nodes@.len(),
        forall|i: int| 0 <= i < a.nodes@.len() ==> same_node(#[trigger] a.nodes@[i], b.nodes@[i]),
{
    let none = Seq::<u64>::empty();
    let ha = seq![a.root as u64, a.nodes@.len() as u64];
    let hb = seq![b.root as u64, b.nodes@.len() as u64];
    let ra = concat_words(a.nodes@, node_encoding()) + none;
    let rb = concat_words(b.nodes@, node_encoding()) + none;
    assert(tree_words(a) =~= ha + ra);
    assert(tree_words(b) =~= hb + rb);
    lemma_same_front(ha, hb, ra, rb);
    lemma_vec_len(a.nodes);
    lemma_vec_len(b.nodes);
    assert(ha[0] == hb[0]);
    assert(ha[1] == hb[1]);
    lemma_nodes_read(a.nodes@, b.nodes@, none, none);
}

} // verus!
