//! The public tree that every sampled deal is walked through.
use vstd::prelude::*;

use crate::cards::{CardError, Combo, DeckMask};
use crate::compile::{
    list_open_outcomes, open_outcomes, outcome_card_error, tree_in_order,
};
use crate::hash::{fnv_words, FNV_OFFSET};
use crate::holdem::lemma_well_formed_in_order;
use crate::payoff::{
    all_valid, hands_mask, mask_of_hands, multiway_hands_error, settlement_error,
    MultiwayHoldemChipEvPayoff, PayoffError, Settlement,
};
use crate::solver::{edge_targets, list_edge_targets};
use crate::tree::{tree_error, GameTree, LeafKind, NodeFacts, TreeError, TreeNode};
use crate::tree_fingerprint::{multiway_holdem_tree_fingerprint, tree_words};
use crate::walk::Shape;

verus! {

#[derive(Debug, Clone, Copy, PartialEq, Eq, Structural)]
pub enum ArenaError {
    Tree(TreeError),
    SeatCount { seats: usize },
    HandCount { hands: usize, expected: usize },
    Payoff(PayoffError),
    UnknownNode { node: usize },
    NotAChanceNode { node: usize },
    Cards(CardError),
    NoLegalOutcomes { node: usize },
    RoundComplete { node: usize },
    NoActor { node: usize },
    NoActions { node: usize },
    PlayerOutside { node: usize, player: usize },
}

/// A tree of three to eight seats that has been validated.
#[derive(Debug, Clone)]
pub struct MultiwayHoldemPublicArena {
    pub tree: GameTree,
    pub player_count: usize,
    pub tree_fingerprint: u64,
}

impl MultiwayHoldemPublicArena {
    pub open spec fn wf(self) -> bool {
        &&& tree_in_order(self.tree)
        &&& self.tree.root < self.tree.nodes@.len()
        &&& 3 <= self.player_count <= 8
        &&& self.player_count == self.tree.nodes@[self.tree.root as int].state.table_size
        &&& self.tree_fingerprint == fnv_words(FNV_OFFSET, tree_words(self.tree))
    }

    pub fn new(tree: GameTree, facts: &[NodeFacts]) -> (result: Result<Self, ArenaError>)
        requires
            facts@.len() == tree.nodes@.len(),
        ensures
            match tree_error(tree, facts@) {
                Some(error) => result == Err::<Self, ArenaError>(ArenaError::Tree(error)),
                None => {
                    let seats = tree.nodes@[tree.root as int].state.table_size;
                    if !(3 <= seats <= 8) {
                        result == Err::<Self, ArenaError>(ArenaError::SeatCount { seats })
                    } else {
                        result matches Ok(arena) && arena.wf() && arena.tree == tree
                    }
                },
            },
    {
        match tree.validate(facts) {
            Ok(_) => {},
            Err(error) => {
                return Err(ArenaError::Tree(error));
            },
        }
        proof {
            assert(tree.nodes.len() == tree.nodes@.len());
            lemma_well_formed_in_order(tree, facts@);
        }
        let seats = tree.nodes[tree.root].state.table_size;
        if seats < 3 || seats > 8 {
            return Err(ArenaError::SeatCount { seats });
        }
        let tree_fingerprint = multiway_holdem_tree_fingerprint(&tree);
        Ok(MultiwayHoldemPublicArena { tree, player_count: seats, tree_fingerprint })
    }

    pub fn tree(&self) -> (tree: &GameTree)
        ensures
            *tree == self.tree,
    {
        &self.tree
    }

    pub fn player_count(&self) -> (count: usize)
        ensures
            count == self.player_count,
    {
        self.player_count
    }

    pub fn tree_fingerprint(&self) -> (hash: u64)
        ensures
            hash == self.tree_fingerprint,
    {
        self.tree_fingerprint
    }

    /// A profile of one hand for each seat.
    pub fn profile(&self, hands: Vec<Combo>) -> (result: Result<
        MultiwayHoldemPublicProfile,
        ArenaError,
    >)
        requires
            self.wf(),
            all_valid(hands@),
        ensures
            if hands@.len() != self.player_count {
                result == Err::<MultiwayHoldemPublicProfile, ArenaError>(
                    ArenaError::HandCount {
                        hands: hands@.len() as usize,
                        expected: self.player_count,
                    },
                )
            } else {
                match multiway_hands_error(hands@) {
                    Some(error) => result == Err::<MultiwayHoldemPublicProfile, ArenaError>(
                        ArenaError::Payoff(error),
                    ),
                    None => result matches Ok(profile) && profile.wf() && profile.hands@ == hands@,
                }
            },
    {
        if hands.len() != self.player_count {
            return Err(
                ArenaError::HandCount { hands: hands.len(), expected: self.player_count },
            );
        }
        let copy = hands.clone();
        assert(copy@ =~= hands@);
        match MultiwayHoldemChipEvPayoff::new(copy, Vec::new()) {
            Ok(payoff) => Ok(MultiwayHoldemPublicProfile { hands, payoff }),
            Err(error) => Err(ArenaError::Payoff(error)),
        }
    }
}

/// The hands of one deal, without a shared card.
#[derive(Debug, Clone)]
pub struct MultiwayHoldemPublicProfile {
    pub hands: Vec<Combo>,
    pub payoff: MultiwayHoldemChipEvPayoff,
}

/// What a public node is to a deal: an error, or a shape.
pub open spec fn public_error(tree: GameTree, hands: Seq<Combo>, node: usize) -> Option<ArenaError> {
    if node >= tree.nodes@.len() {
        Some(ArenaError::UnknownNode { node })
    } else {
        let found = tree.nodes@[node as int];
        match (found.leaf, found.chance) {
            (Some(LeafKind::RoundComplete), _) => Some(ArenaError::RoundComplete { node }),
            (Some(LeafKind::Terminal(_)), _) => None,
            (None, Some(_)) => outcomes_error(found, hands, node),
            (None, None) => match found.state.actor {
                None => Some(ArenaError::NoActor { node }),
                Some(player) => if found.children@.len() == 0 {
                    Some(ArenaError::NoActions { node })
                } else if player >= hands.len() {
                    Some(ArenaError::PlayerOutside { node, player })
                } else {
                    None
                },
            },
        }
    }
}

pub open spec fn outcomes_error(found: TreeNode, hands: Seq<Combo>, node: usize) -> Option<
    ArenaError,
> {
    match outcome_card_error(found.chance->Some_0.outcomes@, 0) {
        Some(error) => Some(ArenaError::Cards(error)),
        None => if open_outcomes(found, hands_mask(hands)).len() == 0 {
            Some(ArenaError::NoLegalOutcomes { node })
        } else {
            None
        },
    }
}

/// The shape of a public node for a deal: chance outcomes are those that the
/// hands leave open.
pub open spec fn public_shape_of(found: TreeNode, hands: Seq<Combo>, shape: Shape) -> bool {
    if found.leaf is Some {
        shape is Leaf
    } else if found.chance is Some {
        shape matches Shape::Chance(targets) && targets@ == edge_targets(
            open_outcomes(found, hands_mask(hands)),
        )
    } else {
        shape matches Shape::Decision(player, targets) && found.state.actor == Some(player)
            && targets@ == found.children@
    }
}

impl MultiwayHoldemPublicProfile {
    pub open spec fn wf(self) -> bool {
        &&& all_valid(self.hands@)
        &&& multiway_hands_error(self.hands@) is None
        &&& self.payoff.hands@ == self.hands@
    }

    pub fn hands(&self) -> (hands: &[Combo])
        ensures
            hands@ == self.hands@,
    {
        self.hands.as_slice()
    }

    pub fn hands_mask(&self) -> (mask: DeckMask)
        requires
            self.wf(),
        ensures
            mask == hands_mask(self.hands@),
    {
        mask_of_hands(&self.hands)
    }

    /// The outcomes of a chance node that the hands leave open, with their
    /// unscaled probabilities.
    pub fn chance_outcomes(&self, tree: &GameTree, node: usize) -> (result: Result<
        Vec<(u64, usize)>,
        ArenaError,
    >)
        requires
            self.wf(),
            tree_in_order(*tree),
        ensures
            if node >= tree.nodes@.len() {
                result == Err::<Vec<(u64, usize)>, ArenaError>(ArenaError::UnknownNode { node })
            } else if tree.nodes@[node as int].chance is None {
                result == Err::<Vec<(u64, usize)>, ArenaError>(ArenaError::NotAChanceNode { node })
            } else {
                match outcomes_error(tree.nodes@[node as int], self.hands@, node) {
                    Some(error) => result == Err::<Vec<(u64, usize)>, ArenaError>(error),
                    None => result matches Ok(open) && open@ == open_outcomes(
                        tree.nodes@[node as int],
                        hands_mask(self.hands@),
                    ),
                }
            },
    {
        let found = match tree.node(node) {
            None => {
                return Err(ArenaError::UnknownNode { node });
            },
            Some(found) => found,
        };
        match &found.chance {
            None => Err(ArenaError::NotAChanceNode { node }),
            Some(chance) => {
                assert(tree.nodes@[node as int].id == node);
                match list_open_outcomes(found, &chance.outcomes, self.hands_mask()) {
                    Err(error) => Err(ArenaError::Cards(error)),
                    Ok(open) => {
                        if open.len() == 0 {
                            Err(ArenaError::NoLegalOutcomes { node })
                        } else {
                            Ok(open)
                        }
                    },
                }
            },
        }
    }

    /// How a leaf is settled between the hands.
    pub fn settlement(&self, node: &TreeNode) -> (result: Result<Settlement, ArenaError>)
        requires
            self.wf(),
        ensures
            match settlement_error(*node, self.hands@.len(), self.payoff.state_error(*node)) {
                Some(error) => result == Err::<Settlement, ArenaError>(ArenaError::Payoff(error)),
                None => {
                    &&& result is Ok
                    &&& node.leaf matches Some(
                        LeafKind::Terminal(crate::domain::TerminalState::Fold { winner }),
                    ) ==> (result matches Ok(Settlement::Fold(shares)) && shares@
                        == crate::payoff::fold_shares(
                        node.state,
                        Seq::new(self.hands@.len(), |i: int| i as usize),
                        winner,
                    ))
                    &&& node.leaf matches Some(
                        LeafKind::Terminal(crate::domain::TerminalState::Showdown),
                    ) ==> result matches Ok(Settlement::Showdown)
                },
            },
    {
        match self.payoff.settle(node) {
            Ok(settlement) => Ok(settlement),
            Err(error) => Err(ArenaError::Payoff(error)),
        }
    }

    /// The shape of a public node for these hands.
    pub fn shape(&self, tree: &GameTree, node: usize) -> (result: Result<Shape, ArenaError>)
        requires
            self.wf(),
            tree_in_order(*tree),
        ensures
            match public_error(*tree, self.hands@, node) {
                Some(error) => result == Err::<Shape, ArenaError>(error),
                None => result matches Ok(shape) && public_shape_of(
                    tree.nodes@[node as int],
                    self.hands@,
                    shape,
                ),
            },
    {
        let found = match tree.node(node) {
            None => {
                return Err(ArenaError::UnknownNode { node });
            },
            Some(found) => found,
        };
        match &found.leaf {
            Some(LeafKind::RoundComplete) => {
                return Err(ArenaError::RoundComplete { node });
            },
            Some(LeafKind::Terminal(_)) => {
                return Ok(Shape::Leaf);
            },
            None => {},
        }
        if found.chance.is_some() {
            return match self.chance_outcomes(tree, node) {
                Ok(open) => Ok(Shape::Chance(list_edge_targets(&open))),
                Err(error) => Err(error),
            };
        }
        match found.state.actor {
            None => Err(ArenaError::NoActor { node }),
            Some(player) => {
                if found.children.len() == 0 {
                    return Err(ArenaError::NoActions { node });
                }
                if player >= self.hands.len() {
                    return Err(ArenaError::PlayerOutside { node, player });
                }
                let targets = found.children.clone();
                assert(targets@ =~= found.children@);
                Ok(Shape::Decision(player, targets))
            },
        }
    }
}

} // verus!
