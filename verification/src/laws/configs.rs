//! What the settings of a tree are told apart by, and what their copies keep.
use vstd::prelude::*;

use crate::action_abstraction::{word_encoding, ActionAbstraction, StreetSizing};
use crate::chance::{card_words, optional_outcome_words, outcome_encoding, ChanceConfig};
use crate::domain::{Action, GameState, PlayerState, PlayerStatus, Position, TerminalState};
use crate::game::{game_node_words, GameNode};
use crate::hash::{
    fnv_words, lemma_list_readable, lemma_same_front, lemma_vec_len, list_words, FNV_OFFSET,
};
use crate::laws::board::board_size;
use crate::multiway::{lemma_words_readable, multiway_node_words, MultiwayGameNode};
use crate::tree::{ChanceOutcome, GameTree, TreeNode};
use crate::tree_builder::{id_encoding, FullTreeBuildConfig, TreeBuildConfig};
use crate::tree_fingerprint::{
    accounting_words, action_code, edge_words, head_words, lemma_equal_items, lemma_ids_readable,
    lemma_outcome_list_read, node_words, player_encoding, player_words, position_code, status_code,
    terminal_code, tree_words,
};

verus! {

/// A list of numbers in front of other words can be read back.
proof fn lemma_numbers_read(a: Vec<u64>, b: Vec<u64>, s: Seq<u64>, t: Seq<u64>)
    requires
        list_words(a@, word_encoding()) + s == list_words(b@, word_encoding()) + t,
    ensures
        a@ == b@,
        s == t,
{
    lemma_vec_len(a);
    lemma_vec_len(b);
    lemma_words_readable();
    lemma_list_readable(a@, b@, s, t, word_encoding(), |x: u64, y: u64| x == y);
    lemma_equal_items(a@, b@);
}

/// All five parts of a sizing are the same.
pub open spec fn same_sizes(a: StreetSizing, b: StreetSizing) -> bool {
    &&& a.explicit_bet_to@ == b.explicit_bet_to@
    &&& a.bet_fractions@ == b.bet_fractions@
    &&& a.explicit_raise_to@ == b.explicit_raise_to@
    &&& a.raise_multipliers@ == b.raise_multipliers@
    &&& a.include_all_in == b.include_all_in
}

/// What is hashed of a sizing tells every difference: bets, fractions, raises,
/// multipliers and the all-in.
#[verifier::spinoff_prover]
#[verifier::rlimit(80)]
pub proof fn lemma_sizing_words(a: StreetSizing, b: StreetSizing)
    ensures
        a.words() == b.words() <==> same_sizes(a, b),
        a.spec_fingerprint() == fnv_words(FNV_OFFSET, a.words()),
{
    if a.words() == b.words() {
        let fa = seq![crate::hash::flag_word(a.include_all_in)];
        let fb = seq![crate::hash::flag_word(b.include_all_in)];
        let ma = list_words(a.raise_multipliers@, word_encoding()) + fa;
        let mb = list_words(b.raise_multipliers@, word_encoding()) + fb;
        let ra = list_words(a.explicit_raise_to@, word_encoding()) + ma;
        let rb = list_words(b.explicit_raise_to@, word_encoding()) + mb;
        let qa = list_words(a.bet_fractions@, word_encoding()) + ra;
        let qb = list_words(b.bet_fractions@, word_encoding()) + rb;
        assert(a.words() =~= list_words(a.explicit_bet_to@, word_encoding()) + qa);
        assert(b.words() =~= list_words(b.explicit_bet_to@, word_encoding()) + qb);
        lemma_numbers_read(a.explicit_bet_to, b.explicit_bet_to, qa, qb);
        lemma_numbers_read(a.bet_fractions, b.bet_fractions, ra, rb);
        lemma_numbers_read(a.explicit_raise_to, b.explicit_raise_to, ma, mb);
        lemma_numbers_read(a.raise_multipliers, b.raise_multipliers, fa, fb);
        assert(fa[0] == fb[0]);
    }
}

/// What is hashed of an abstraction tells the streets apart: it is the same exactly
/// where each street has the same hash.
pub proof fn lemma_abstraction_words(a: ActionAbstraction, b: ActionAbstraction)
    ensures
        a.words() == b.words() <==> {
            &&& a.preflop.spec_fingerprint() == b.preflop.spec_fingerprint()
            &&& a.flop.spec_fingerprint() == b.flop.spec_fingerprint()
            &&& a.turn.spec_fingerprint() == b.turn.spec_fingerprint()
            &&& a.river.spec_fingerprint() == b.river.spec_fingerprint()
        },
        a.words()[1] == a.preflop.spec_fingerprint(),
        a.words()[2] == a.flop.spec_fingerprint(),
        a.words()[3] == a.turn.spec_fingerprint(),
        a.words()[4] == a.river.spec_fingerprint(),
        a.spec_fingerprint() == fnv_words(FNV_OFFSET, a.words()),
{
    if a.words() == b.words() {
        assert(a.words()[1] == b.words()[1]);
        assert(a.words()[2] == b.words()[2]);
        assert(a.words()[3] == b.words()[3]);
        assert(a.words()[4] == b.words()[4]);
    }
}

/// Outcomes have the same cards in the same order with the same probabilities.
pub open spec fn equal_outcomes(a: Seq<ChanceOutcome>, b: Seq<ChanceOutcome>) -> bool {
    &&& a.len() == b.len()
    &&& forall|i: int|
        0 <= i < a.len() ==> (#[trigger] a[i]).cards@ == b[i].cards@ && a[i].probability
            == b[i].probability
}

pub open spec fn equal_choices(
    a: Option<Vec<ChanceOutcome>>,
    b: Option<Vec<ChanceOutcome>>,
) -> bool {
    &&& a is Some <==> b is Some
    &&& a is Some ==> equal_outcomes(a->Some_0@, b->Some_0@)
}

/// All parts of a chance configuration are the same.
pub open spec fn equal_chances(a: ChanceConfig, b: ChanceConfig) -> bool {
    &&& equal_choices(a.flop, b.flop)
    &&& equal_choices(a.turn, b.turn)
    &&& equal_choices(a.river, b.river)
    &&& a.enumerate_exact == b.enumerate_exact
    &&& a.dead_cards == b.dead_cards
    &&& a.max_outcomes_per_node == b.max_outcomes_per_node
}

proof fn lemma_choice_read(
    a: Option<Vec<ChanceOutcome>>,
    b: Option<Vec<ChanceOutcome>>,
    s: Seq<u64>,
    t: Seq<u64>,
)
    requires
        optional_outcome_words(a) + s == optional_outcome_words(b) + t,
    ensures
        equal_choices(a, b),
        s == t,
{
    let left = optional_outcome_words(a) + s;
    let right = optional_outcome_words(b) + t;
    assert(left[0] == optional_outcome_words(a)[0]);
    assert(right[0] == optional_outcome_words(b)[0]);
    match (a, b) {
        (Some(x), Some(y)) => {
            let rx = list_words(x@, outcome_encoding()) + s;
            let ry = list_words(y@, outcome_encoding()) + t;
            assert(left =~= seq![1u64] + rx);
            assert(right =~= seq![1u64] + ry);
            lemma_same_front(seq![1u64], seq![1u64], rx, ry);
            lemma_vec_len(x);
            lemma_vec_len(y);
            lemma_outcome_list_read(x@, y@, s, t);
        },
        (None, None) => {
            lemma_same_front(seq![0u64], seq![0u64], s, t);
        },
        _ => {},
    }
}

/// What is hashed of a chance configuration tells every difference: the outcomes of
/// each street, whether cards are enumerated, the dead cards and the limit.
#[verifier::spinoff_prover]
#[verifier::rlimit(80)]
pub proof fn lemma_chance_words(a: ChanceConfig, b: ChanceConfig)
    requires
        a.words() == b.words(),
    ensures
        equal_chances(a, b),
{
    let ea = seq![
        crate::hash::flag_word(a.enumerate_exact),
        a.dead_cards,
        a.max_outcomes_per_node as u64,
    ];
    let eb = seq![
        crate::hash::flag_word(b.enumerate_exact),
        b.dead_cards,
        b.max_outcomes_per_node as u64,
    ];
    let ra = optional_outcome_words(a.river) + ea;
    let rb = optional_outcome_words(b.river) + eb;
    let ta = optional_outcome_words(a.turn) + ra;
    let tb = optional_outcome_words(b.turn) + rb;
    assert(a.words() =~= optional_outcome_words(a.flop) + ta);
    assert(b.words() =~= optional_outcome_words(b.flop) + tb);
    lemma_choice_read(a.flop, b.flop, ta, tb);
    lemma_choice_read(a.turn, b.turn, ra, rb);
    lemma_choice_read(a.river, b.river, ea, eb);
    assert(ea[0] == eb[0] && ea[1] == eb[1] && ea[2] == eb[2]);
}

/// What is hashed of the settings of a round tells every difference, the abstraction
/// by its own hash.
#[verifier::spinoff_prover]
#[verifier::rlimit(80)]
pub proof fn lemma_round_words(a: TreeBuildConfig, b: TreeBuildConfig)
    requires
        a.words() == b.words(),
    ensures
        a.action_sizes.bet_to@ == b.action_sizes.bet_to@,
        a.action_sizes.raise_to@ == b.action_sizes.raise_to@,
        a.action_sizes.include_all_in == b.action_sizes.include_all_in,
        a.abstraction is Some == b.abstraction is Some,
        a.abstraction is Some ==> a.abstraction->Some_0.spec_fingerprint()
            == b.abstraction->Some_0.spec_fingerprint(),
        a.max_nodes == b.max_nodes,
        a.max_depth == b.max_depth,
{
    let la = seq![a.max_nodes as u64, a.max_depth as u64];
    let lb = seq![b.max_nodes as u64, b.max_depth as u64];
    let aa = match a.abstraction {
        Some(abstraction) => seq![abstraction.spec_fingerprint()],
        None => Seq::empty(),
    };
    let ab = match b.abstraction {
        Some(abstraction) => seq![abstraction.spec_fingerprint()],
        None => Seq::empty(),
    };
    let fa = seq![
        crate::hash::flag_word(a.action_sizes.include_all_in),
        crate::hash::flag_word(a.abstraction is Some),
    ];
    let fb = seq![
        crate::hash::flag_word(b.action_sizes.include_all_in),
        crate::hash::flag_word(b.abstraction is Some),
    ];
    let ra = list_words(a.action_sizes.raise_to@, word_encoding()) + (fa + (aa + la));
    let rb = list_words(b.action_sizes.raise_to@, word_encoding()) + (fb + (ab + lb));
    assert(a.words() =~= list_words(a.action_sizes.bet_to@, word_encoding()) + ra);
    assert(b.words() =~= list_words(b.action_sizes.bet_to@, word_encoding()) + rb);
    lemma_numbers_read(a.action_sizes.bet_to, b.action_sizes.bet_to, ra, rb);
    lemma_numbers_read(a.action_sizes.raise_to, b.action_sizes.raise_to, fa + (aa + la), fb + (ab + lb));
    lemma_same_front(fa, fb, aa + la, ab + lb);
    assert(fa[0] == fb[0] && fa[1] == fb[1]);
    lemma_same_front(aa, ab, la, lb);
    assert(la[0] == lb[0] && la[1] == lb[1]);
    if a.abstraction is Some {
        assert(aa[0] == ab[0]);
    }
}

/// What is hashed of the settings of a full tree tells the rounds, the chance
/// configurations and the orders after the flop apart, the first two by their own
/// hashes.
pub proof fn lemma_full_words(a: FullTreeBuildConfig, b: FullTreeBuildConfig)
    requires
        a.words() == b.words(),
    ensures
        a.round.spec_fingerprint() == b.round.spec_fingerprint(),
        fnv_words(FNV_OFFSET, a.chance.words()) == fnv_words(FNV_OFFSET, b.chance.words()),
        a.postflop_order@ == b.postflop_order@,
{
    let fa = seq![a.round.spec_fingerprint(), fnv_words(FNV_OFFSET, a.chance.words())];
    let fb = seq![b.round.spec_fingerprint(), fnv_words(FNV_OFFSET, b.chance.words())];
    let oa = list_words(a.postflop_order@, id_encoding());
    let ob = list_words(b.postflop_order@, id_encoding());
    lemma_same_front(fa, fb, oa, ob);
    assert(fa[0] == fb[0] && fa[1] == fb[1]);
    let none = Seq::<u64>::empty();
    assert(oa + none =~= oa && ob + none =~= ob);
    lemma_ids_readable();
    lemma_vec_len(a.postflop_order);
    lemma_vec_len(b.postflop_order);
    lemma_list_readable(
        a.postflop_order@,
        b.postflop_order@,
        none,
        none,
        id_encoding(),
        |x: usize, y: usize| x == y,
    );
    lemma_equal_items(a.postflop_order@, b.postflop_order@);
}

/// A copy of settings has every part of them.
pub proof fn lemma_copied_settings(
    sizing: StreetSizing,
    sizing_copy: StreetSizing,
    chance: ChanceConfig,
    chance_copy: ChanceConfig,
    full: FullTreeBuildConfig,
    full_copy: FullTreeBuildConfig,
)
    requires
        sizing.same(sizing_copy),
        chance.same(chance_copy),
        full.same(full_copy),
    ensures
        same_sizes(sizing, sizing_copy),
        equal_chances(chance, chance_copy),
        equal_chances(full.chance, full_copy.chance),
        full.postflop_order@ == full_copy.postflop_order@,
        full.round.max_nodes == full_copy.round.max_nodes,
        full.round.max_depth == full_copy.round.max_depth,
        full.round.action_sizes.bet_to@ == full_copy.round.action_sizes.bet_to@,
        full.round.action_sizes.raise_to@ == full_copy.round.action_sizes.raise_to@,
        full.round.action_sizes.include_all_in == full_copy.round.action_sizes.include_all_in,
        full.round.abstraction is Some == full_copy.round.abstraction is Some,
        full.round.abstraction is Some ==> {
            let left = full.round.abstraction->Some_0;
            let right = full_copy.round.abstraction->Some_0;
            &&& same_sizes(left.preflop, right.preflop)
            &&& same_sizes(left.flop, right.flop)
            &&& same_sizes(left.turn, right.turn)
            &&& same_sizes(left.river, right.river)
        },
{
}

/// All parts of a state are the same.
pub open spec fn equal_states(a: GameState, b: GameState) -> bool {
    &&& a.table_size == b.table_size
    &&& a.street == b.street
    &&& a.board@ == b.board@
    &&& a.players@ == b.players@
    &&& a.dead_money == b.dead_money
    &&& a.pot == b.pot
    &&& a.actor == b.actor
    &&& a.current_bet == b.current_bet
    &&& a.min_raise_increment == b.min_raise_increment
    &&& a.pending_players@ == b.pending_players@
    &&& a.raise_allowed@ == b.raise_allowed@
    &&& a.terminal == b.terminal
}

/// A copy of a node has every part of it.
pub open spec fn equal_nodes(a: TreeNode, b: TreeNode) -> bool {
    &&& a.id == b.id
    &&& a.parent == b.parent
    &&& a.action_from_parent == b.action_from_parent
    &&& equal_states(a.state, b.state)
    &&& a.children@ == b.children@
    &&& a.leaf == b.leaf
    &&& a.chance is Some == b.chance is Some
    &&& a.chance is Some ==> a.chance->Some_0.next_street == b.chance->Some_0.next_street
        && equal_outcomes(a.chance->Some_0.outcomes@, b.chance->Some_0.outcomes@)
}

/// A copy of a tree has every node of it.
pub proof fn lemma_copied_tree(tree: GameTree, copy: GameTree)
    requires
        tree.same(copy),
    ensures
        tree.root == copy.root,
        tree.nodes@.len() == copy.nodes@.len(),
        forall|i: int|
            0 <= i < tree.nodes@.len() ==> equal_nodes(#[trigger] tree.nodes@[i], copy.nodes@[i]),
{
    assert forall|i: int| 0 <= i < tree.nodes@.len() implies equal_nodes(
        #[trigger] tree.nodes@[i],
        copy.nodes@[i],
    ) by {
        assert(tree.nodes@[i].same(copy.nodes@[i]));
    }
}

/// The positions of a table in the order of their numbers.
pub open spec fn positions() -> Seq<Position> {
    seq![
        Position::Unknown,
        Position::ButtonSmallBlind,
        Position::Button,
        Position::SmallBlind,
        Position::BigBlind,
        Position::Utg,
        Position::Utg1,
        Position::Lj,
        Position::Hj,
        Position::Co,
    ]
}

/// The states of a player in the order of their numbers.
pub open spec fn statuses() -> Seq<PlayerStatus> {
    seq![
        PlayerStatus::Active,
        PlayerStatus::Folded,
        PlayerStatus::AllIn,
        PlayerStatus::OutOfHand,
    ]
}

/// Positions and states are hashed by their numbers, from zero on; actions by theirs,
/// from one on, with the amount that they go to.
pub proof fn lemma_codes(i: int, to: u64, winner: usize)
    ensures
        0 <= i < 10 ==> position_code(positions()[i]) == i,
        0 <= i < 4 ==> status_code(statuses()[i]) == i,
        action_code(Action::Fold) == (1u64, 0u64),
        action_code(Action::Check) == (2u64, 0u64),
        action_code(Action::Call) == (3u64, 0u64),
        action_code(Action::Bet { to }) == (4u64, to),
        action_code(Action::Raise { to }) == (5u64, to),
        action_code(Action::AllIn) == (6u64, 0u64),
        terminal_code(TerminalState::Fold { winner }) == (1u64, winner as u64),
        terminal_code(TerminalState::Showdown) == (2u64, 0u64),
{
}

/// The chips, the seat and the standing of a player each have a word of their own, in
/// this order: changing one of them changes that word and no other.
pub proof fn lemma_player_words(a: PlayerState, b: PlayerState)
    ensures
        player_words(a).len() == 7,
        player_words(a)[0] == player_words(b)[0] <==> a.seat == b.seat,
        player_words(a)[1] == player_words(b)[1] <==> a.position == b.position,
        player_words(a)[2] == player_words(b)[2] <==> a.stack_remaining == b.stack_remaining,
        player_words(a)[3] == player_words(b)[3] <==> a.committed_total == b.committed_total,
        player_words(a)[4] == player_words(b)[4] <==> a.committed_street == b.committed_street,
        player_words(a)[5] == player_words(b)[5] <==> a.ante_paid == b.ante_paid,
        player_words(a)[6] == player_words(b)[6] <==> a.status == b.status,
{
}

/// So have the chips on the table and the player to act.
pub proof fn lemma_accounting_words(a: GameState, b: GameState)
    requires
        a.actor != Some(usize::MAX),
        b.actor != Some(usize::MAX),
    ensures
        accounting_words(a).len() == 5,
        accounting_words(a)[0] == accounting_words(b)[0] <==> a.dead_money == b.dead_money,
        accounting_words(a)[1] == accounting_words(b)[1] <==> a.pot == b.pot,
        accounting_words(a)[2] == accounting_words(b)[2] <==> a.actor == b.actor,
        accounting_words(a)[3] == accounting_words(b)[3] <==> a.current_bet == b.current_bet,
        accounting_words(a)[4] == accounting_words(b)[4] <==> a.min_raise_increment
            == b.min_raise_increment,
{
}

/// A tree is hashed by its root and the list of its nodes, a node by what stands before
/// its state, its state, and its edges, in this order.
pub proof fn lemma_words_of_a_tree(tree: GameTree, node: TreeNode)
    ensures
        tree_words(tree)[0] == tree.root as u64,
        tree.nodes@.len() <= u64::MAX ==> tree_words(tree)[1] == tree.nodes@.len(),
        node_words(node)[0] == node.id as u64,
        node.parent is Some ==> node_words(node)[1] == node.parent->Some_0 as u64,
        node_words(node)[2] == node.state.table_size as u64,
        board_size(node.state.street) == 0 <==> node_words(node)[3] == 0,
        board_size(node.state.street) > 0 ==> node_words(node)[3] + 2 == board_size(
            node.state.street,
        ),
{
    let rest = list_words(node.state.board@, card_words()) + (list_words(
        node.state.players@,
        player_encoding(),
    ) + (accounting_words(node.state) + (list_words(node.state.pending_players@, id_encoding()) + (
    list_words(node.state.raise_allowed@, id_encoding()) + edge_words(node)))));
    assert(node_words(node) == head_words(node) + rest);
}

/// A game node is hashed with a number for its kind in front.
pub proof fn lemma_words_of_game_nodes(node: GameNode, many: MultiwayGameNode)
    ensures
        game_node_words(node)[0] == 1 <==> node is Decision,
        game_node_words(node)[0] == 2 <==> node is Chance,
        game_node_words(node)[0] == 3 <==> node is Terminal,
        multiway_node_words(many)[0] == 1 <==> many is Decision,
        multiway_node_words(many)[0] == 2 <==> many is Chance,
        multiway_node_words(many)[0] == 3 <==> many is Terminal,
        node matches GameNode::Decision { player, infoset, children } ==> game_node_words(node)[1]
            == player as u64 && game_node_words(node)[2] == infoset,
        many matches MultiwayGameNode::Decision { player, infoset, children }
            ==> multiway_node_words(many)[1] == player as u64 && multiway_node_words(many)[2]
            == infoset,
{
}

/// The hash takes the words one after the other, each as eight bytes from the lowest
/// up: what was hashed before does not change what a word adds.
pub proof fn lemma_hash_of_a_word(hash: u64, words: Seq<u64>, word: u64)
    ensures
        fnv_words(hash, words.push(word)) == fnv_words(fnv_words(hash, words), seq![word]),
        fnv_words(hash, Seq::empty()) == hash,
{
    reveal_with_fuel(fnv_words, 2);
    assert(words.push(word).drop_last() =~= words);
    assert(seq![word].drop_last() =~= Seq::<u64>::empty());
}

} // verus!
