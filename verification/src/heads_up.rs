//! Heads-up games compiled for a list of private deals.
use vstd::prelude::*;

use crate::bits::{is_above_zero, is_finite};
use crate::cards::Combo;
use crate::compile::{copied, copies_cleanly, copy_fails, descends, CompileError, Draft};
use crate::game::{copy_edges, game_error, GameNode, StaticGame};
use crate::holdem::{
    append_deals, check_tree, compilable, deal_copied, deal_hands, deals_copied, deals_error,
    draft_of_deals, hands_disjoint, rescale_nodes, rescaled, scales, tree_verdict,
    CompiledHoldemGame, HoldemError, MultiwayPrivateDeal, PairPayoff, PrivateDeal,
};
use crate::multiway::MultiwayGameNode;
use crate::payoff::{all_valid, HoldemChipEvPayoff, MultiwayTerminalPayoff, PayoffError};
use crate::tree::{GameTree, NodeFacts};

verus! {

/// Every node of the draft is one of two players.
pub open spec fn pair_draft(draft: Draft) -> bool {
    &&& draft.wf()
    &&& forall|i: int|
        0 <= i < draft.nodes@.len() ==> (#[trigger] draft.nodes@[i] matches MultiwayGameNode::Terminal {
            utility,
        } ==> utility@.len() == 2)
    &&& forall|i: int|
        0 <= i < draft.nodes@.len() ==> (#[trigger] draft.private_hands@[i] matches Some(hands)
            ==> hands@.len() == 2)
}

/// `many` are the deals of `deals`, their hands in lists.
pub open spec fn same_deals(deals: Seq<PrivateDeal>, many: Seq<MultiwayPrivateDeal>) -> bool {
    &&& many.len() == deals.len()
    &&& forall|k: int|
        0 <= k < deals.len() ==> (#[trigger] many[k]).probability == deals[k].probability
            && many[k].hands@ == deals[k].hands@
}

fn list_deals(deals: &[PrivateDeal]) -> (many: Vec<MultiwayPrivateDeal>)
    ensures
        same_deals(deals@, many@),
{
    let mut many: Vec<MultiwayPrivateDeal> = Vec::new();
    let mut index: usize = 0;
    while index < deals.len()
        invariant
            index <= deals@.len(),
            many@.len() == index,
            forall|k: int|
                0 <= k < index ==> (#[trigger] many@[k]).probability == deals@[k].probability
                    && many@[k].hands@ == deals@[k].hands@,
        decreases deals.len() - index,
    {
        let hands = vec![deals[index].hands[0], deals[index].hands[1]];
        assert(hands@ =~= deals@[index as int].hands@);
        many.push(MultiwayPrivateDeal { probability: deals[index].probability, hands });
        index = index + 1;
    }
    many
}

fn list_payoffs<'a>(payoffs: &'a [HoldemChipEvPayoff]) -> (list: Vec<PairPayoff<'a>>)
    ensures
        list@.len() == payoffs@.len(),
        forall|k: int| 0 <= k < list@.len() ==> *(#[trigger] list@[k]).inner == payoffs@[k],
{
    let mut list: Vec<PairPayoff<'a>> = Vec::new();
    let mut index: usize = 0;
    while index < payoffs.len()
        invariant
            index <= payoffs@.len(),
            list@.len() == index,
            forall|k: int| 0 <= k < index ==> *(#[trigger] list@[k]).inner == payoffs@[k],
        decreases payoffs.len() - index,
    {
        list.push(PairPayoff { inner: &payoffs[index] });
        index = index + 1;
    }
    list
}

/// Every node behind the root belongs to the copy of one deal.
proof fn lemma_node_has_deal<P: MultiwayTerminalPayoff>(
    draft: Draft,
    tree: GameTree,
    hands: Seq<Seq<Combo>>,
    payoffs: Seq<P>,
    ids: Seq<usize>,
    at: int,
    until: int,
) -> (k: int)
    requires
        deals_copied(draft, tree, hands, payoffs, ids),
        0 <= until < ids.len(),
        1 <= at < draft.ends@[ids[until] as int],
    ensures
        0 <= k <= until,
        copied(draft, tree, at, hands[k], payoffs[k]),
    decreases until,
{
    assert(deal_copied(draft, tree, hands[until], payoffs[until], ids[until] as int));
    if ids[until] <= at {
        assert(copied(draft, tree, at, hands[until], payoffs[until]));
        until
    } else {
        assert(until > 0);
        assert(ids[until] == draft.ends@[ids[until - 1] as int]);
        lemma_node_has_deal(draft, tree, hands, payoffs, ids, at, until - 1)
    }
}

/// What keeps deals from being compiled, short of the copies themselves.
pub open spec fn private_compile_error(many: Seq<MultiwayPrivateDeal>) -> Option<CompileError> {
    if many.len() == 0 {
        Some(CompileError::NoDeals)
    } else {
        deals_error(many, 2, 0)
    }
}

/// Compiles a heads-up tree for a list of private deals.
///
/// The root deals the private cards. A copied decision is keyed by public node,
/// acting player and that player's hand: branches with different hands of the
/// opponent share a strategy, branches with different own hands do not. Public
/// cards that a deal holds are left out. The probabilities in the draft are
/// those of the deals and of the public tree: [`finish_private`] takes the
/// scaled ones. Each deal is settled by the payoff of its own hands, in which the
/// solver's players sit in their own seats.
pub fn compile_private_holdem_tree(
    tree: &GameTree,
    facts: &[NodeFacts],
    deals: &[PrivateDeal],
    payoffs: &[HoldemChipEvPayoff],
) -> (result: Result<Draft, CompileError>)
    requires
        facts@.len() == tree.nodes@.len(),
        deals@.len() == payoffs@.len(),
        forall|k: int| 0 <= k < deals@.len() ==> all_valid((#[trigger] deals@[k]).hands@),
        forall|k: int|
            0 <= k < deals@.len() ==> (#[trigger] payoffs@[k]).hands@ == deals@[k].hands@
                && payoffs@[k].solver_seats@ == seq![0usize, 1usize],
    ensures
        compilable(*tree, facts@) ==> descends(*tree),
        match result {
            Ok(draft) => {
                &&& compilable(*tree, facts@)
                &&& pair_draft(draft)
                &&& draft.actions@[0]@.len() == 0
                &&& draft.tree_node_ids@[0] is None
                &&& draft.private_hands@[0] is None
                &&& exists|many: Seq<MultiwayPrivateDeal>, list: Seq<PairPayoff>|
                    {
                        &&& #[trigger] same_deals(deals@, many)
                        &&& #[trigger] same_payoffs(payoffs@, list)
                        &&& private_compile_error(many) is None
                        &&& draft_of_deals(
                            draft,
                            *tree,
                            deal_hands(many),
                            deals@.map(|i: int, deal: PrivateDeal| deal.probability),
                            list,
                        )
                        &&& forall|k: int|
                            0 <= k < deals@.len() ==> copies_cleanly(
                                *tree,
                                tree.root,
                                (#[trigger] deals@[k]).hands@,
                                list[k],
                            )
                    }
            },
            Err(error) => if !compilable(*tree, facts@) {
                tree_verdict(*tree, facts@, error)
            } else {
                exists|many: Seq<MultiwayPrivateDeal>, list: Seq<PairPayoff>|
                    {
                        &&& #[trigger] same_deals(deals@, many)
                        &&& #[trigger] same_payoffs(payoffs@, list)
                        &&& if private_compile_error(many) is Some {
                            private_compile_error(many) == Some(error)
                        } else {
                            exists|k: int|
                                {
                                    &&& 0 <= k < deals@.len()
                                    &&& copy_fails(
                                        *tree,
                                        tree.root,
                                        (#[trigger] deals@[k]).hands@,
                                        list[k],
                                        error,
                                    )
                                    &&& forall|i: int|
                                        0 <= i < k ==> copies_cleanly(
                                            *tree,
                                            tree.root,
                                            (#[trigger] deals@[i]).hands@,
                                            list[i],
                                        )
                                }
                        }
                    }
            },
        },
{
    match check_tree(tree, facts) {
        Ok(_) => {},
        Err(error) => {
            return Err(error);
        },
    }
    let many = list_deals(deals);
    let list = list_payoffs(payoffs);
    assert(same_deals(deals@, many@) && same_payoffs(payoffs@, list@));
    if many.len() == 0 {
        return Err(CompileError::NoDeals);
    }
    assert forall|k: int| 0 <= k < many@.len() implies all_valid((#[trigger] many@[k]).hands@) by {
        assert(all_valid(deals@[k].hands@));
    }
    let mut index: usize = 0;
    while index < many.len()
        invariant
            descends(*tree),
            index <= many@.len(),
            compilable(*tree, facts@),
            same_deals(deals@, many@),
            same_payoffs(payoffs@, list@),
            forall|k: int| 0 <= k < many@.len() ==> all_valid((#[trigger] many@[k]).hands@),
            private_compile_error(many@) == deals_error(many@, 2, index as int),
        decreases many.len() - index,
    {
        let deal = &many[index];
        assert(many@[index as int].hands@ == deals@[index as int].hands@);
        if !is_above_zero(deal.probability) || !is_finite(deal.probability) {
            return Err(CompileError::DealProbability);
        }
        if !hands_disjoint(&deal.hands) {
            return Err(CompileError::Payoff(PayoffError::DuplicateCards));
        }
        index = index + 1;
    }
    match append_deals(tree, many.as_slice(), list.as_slice()) {
        Err(error) => {
            proof {
                let k = choose|k: int|
                    {
                        &&& 0 <= k < many@.len()
                        &&& copy_fails(
                            *tree,
                            tree.root,
                            (#[trigger] many@[k]).hands@,
                            list@[k],
                            error,
                        )
                        &&& forall|i: int|
                            0 <= i < k ==> copies_cleanly(
                                *tree,
                                tree.root,
                                (#[trigger] many@[i]).hands@,
                                list@[i],
                            )
                    };
                assert(many@[k].hands@ == deals@[k].hands@);
                assert(copy_fails(*tree, tree.root, deals@[k].hands@, list@[k], error));
                assert forall|i: int| 0 <= i < k implies copies_cleanly(
                    *tree,
                    tree.root,
                    (#[trigger] deals@[i]).hands@,
                    list@[i],
                ) by {
                    assert(many@[i].hands@ == deals@[i].hands@);
                }
            }
            Err(error)
        },
        Ok(draft) => {
            proof {
                assert(many@.map(|i: int, deal: MultiwayPrivateDeal| deal.probability)
                    =~= deals@.map(|i: int, deal: PrivateDeal| deal.probability));
                assert forall|k: int| 0 <= k < deals@.len() implies copies_cleanly(
                    *tree,
                    tree.root,
                    (#[trigger] deals@[k]).hands@,
                    list@[k],
                ) by {
                    assert(many@[k].hands@ == deals@[k].hands@);
                }
                lemma_pair_draft(
                    draft,
                    *tree,
                    deal_hands(many@),
                    deals@.map(|i: int, deal: PrivateDeal| deal.probability),
                    list@,
                );
            }
            Ok(draft)
        },
    }
}

/// `list` are the payoffs of `payoffs`.
pub open spec fn same_payoffs(payoffs: Seq<HoldemChipEvPayoff>, list: Seq<PairPayoff>) -> bool {
    &&& list.len() == payoffs.len()
    &&& forall|k: int| 0 <= k < list.len() ==> *(#[trigger] list[k]).inner == payoffs[k]
}

proof fn lemma_pair_draft(
    draft: Draft,
    tree: GameTree,
    hands: Seq<Seq<Combo>>,
    probabilities: Seq<u64>,
    payoffs: Seq<PairPayoff>,
)
    requires
        draft_of_deals(draft, tree, hands, probabilities, payoffs),
        hands.len() > 0,
        draft.private_hands@[0] is None,
        forall|k: int| 0 <= k < hands.len() ==> (#[trigger] hands[k]).len() == 2,
    ensures
        pair_draft(draft),
{
    let ids = draft.nodes@[0]->outcomes@.map(|i: int, outcome: (u64, usize)| outcome.1);
    assert forall|i: int| 1 <= i < draft.nodes@.len() implies {
        &&& (draft.nodes@[i] matches MultiwayGameNode::Terminal { utility } ==> utility@.len() == 2)
        &&& (#[trigger] draft.private_hands@[i] matches Some(held) ==> held@.len() == 2)
    } by {
        let k = lemma_node_has_deal(draft, tree, hands, payoffs, ids, i, ids.len() - 1);
        assert(hands[k].len() == 2);
    }
    assert forall|i: int| 0 <= i < draft.nodes@.len() implies (
    #[trigger] draft.nodes@[i] matches MultiwayGameNode::Terminal { utility } ==> utility@.len()
        == 2) by {
        if i > 0 {
            let held = draft.private_hands@[i];
        }
    }
    assert forall|i: int| 0 <= i < draft.nodes@.len() implies (
    #[trigger] draft.private_hands@[i] matches Some(held) ==> held@.len() == 2) by {}
}

/// The two-player node of a node.
pub open spec fn pair_node(node: MultiwayGameNode, pair: GameNode) -> bool {
    match (node, pair) {
        (
            MultiwayGameNode::Decision { player, infoset, children },
            GameNode::Decision { player: p, infoset: i, children: c },
        ) => p == player && i == infoset && c@ == children@,
        (MultiwayGameNode::Chance { outcomes }, GameNode::Chance { outcomes: o }) => o@
            == outcomes@,
        (MultiwayGameNode::Terminal { utility }, GameNode::Terminal { utility: u }) => u@
            == utility@,
        _ => false,
    }
}

fn pair_nodes(nodes: Vec<MultiwayGameNode>) -> (pairs: Vec<GameNode>)
    requires
        forall|i: int|
            0 <= i < nodes@.len() ==> (#[trigger] nodes@[i] matches MultiwayGameNode::Terminal {
                utility,
            } ==> utility@.len() == 2),
    ensures
        pairs@.len() == nodes@.len(),
        forall|i: int| 0 <= i < nodes@.len() ==> pair_node(nodes@[i], #[trigger] pairs@[i]),
{
    let mut pairs: Vec<GameNode> = Vec::new();
    let mut index: usize = 0;
    while index < nodes.len()
        invariant
            index <= nodes@.len(),
            pairs@.len() == index,
            forall|i: int|
                0 <= i < nodes@.len() ==> (#[trigger] nodes@[i] matches MultiwayGameNode::Terminal {
                    utility,
                } ==> utility@.len() == 2),
            forall|i: int| 0 <= i < index ==> pair_node(nodes@[i], #[trigger] pairs@[i]),
        decreases nodes.len() - index,
    {
        let pair = match &nodes[index] {
            MultiwayGameNode::Decision { player, infoset, children } => {
                let copy = children.clone();
                assert(copy@ =~= children@);
                GameNode::Decision { player: *player, infoset: *infoset, children: copy }
            },
            MultiwayGameNode::Chance { outcomes } => {
                GameNode::Chance { outcomes: copy_edges(outcomes) }
            },
            MultiwayGameNode::Terminal { utility } => {
                assert(nodes@[index as int] is Terminal);
                let pair = [utility[0], utility[1]];
                assert(pair@ =~= utility@);
                GameNode::Terminal { utility: pair }
            },
        };
        pairs.push(pair);
        index = index + 1;
    }
    pairs
}

/// The hands of the nodes in pairs.
pub open spec fn pair_hands(hands: Option<Vec<Combo>>, pair: Option<[Combo; 2]>) -> bool {
    match (hands, pair) {
        (Some(list), Some(array)) => array@ == list@,
        (None, None) => true,
        _ => false,
    }
}

fn pair_up(hands: &Vec<Option<Vec<Combo>>>) -> (pairs: Vec<Option<[Combo; 2]>>)
    requires
        forall|i: int|
            0 <= i < hands@.len() ==> (#[trigger] hands@[i] matches Some(list) ==> list@.len()
                == 2),
    ensures
        pairs@.len() == hands@.len(),
        forall|i: int| 0 <= i < hands@.len() ==> pair_hands(hands@[i], #[trigger] pairs@[i]),
{
    let mut pairs: Vec<Option<[Combo; 2]>> = Vec::new();
    let mut index: usize = 0;
    while index < hands.len()
        invariant
            index <= hands@.len(),
            pairs@.len() == index,
            forall|i: int|
                0 <= i < hands@.len() ==> (#[trigger] hands@[i] matches Some(list) ==> list@.len()
                    == 2),
            forall|i: int| 0 <= i < index ==> pair_hands(hands@[i], #[trigger] pairs@[i]),
        decreases hands.len() - index,
    {
        let pair = match &hands[index] {
            Some(list) => {
                assert(hands@[index as int] is Some);
                let array = [list[0], list[1]];
                assert(array@ =~= list@);
                Some(array)
            },
            None => None,
        };
        pairs.push(pair);
        index = index + 1;
    }
    pairs
}

/// The node of a draft, with scaled probabilities and in pairs.
pub open spec fn finished_node(node: MultiwayGameNode, scaled: Seq<u64>, made: GameNode) -> bool {
    exists|between: MultiwayGameNode| #[trigger]
        rescaled(node, between, scaled) && pair_node(between, made)
}

/// Makes the heads-up game of a draft, with scaled probabilities.
pub fn finish_private(draft: Draft, scaled: &Vec<Vec<u64>>, sums_ok: &[bool]) -> (result: Result<
    CompiledHoldemGame,
    HoldemError,
>)
    requires
        pair_draft(draft),
        scales(draft.nodes@, scaled@),
        sums_ok@.len() == draft.nodes@.len(),
    ensures
        match result {
            Ok(compiled) => {
                &&& compiled.game.root == 0
                &&& compiled.game.nodes@.len() == draft.nodes@.len()
                &&& forall|i: int|
                    0 <= i < draft.nodes@.len() ==> finished_node(
                        draft.nodes@[i],
                        scaled@[i]@,
                        #[trigger] compiled.game.nodes@[i],
                    )
                &&& game_error(compiled.game, sums_ok@) is None
                &&& compiled.actions == draft.actions
                &&& compiled.tree_node_ids == draft.tree_node_ids
                &&& compiled.private_hands@.len() == draft.nodes@.len()
                &&& forall|i: int|
                    0 <= i < draft.nodes@.len() ==> pair_hands(
                        draft.private_hands@[i],
                        #[trigger] compiled.private_hands@[i],
                    )
            },
            Err(HoldemError::Game(error)) => exists|game: StaticGame|
                {
                    &&& game.root == 0
                    &&& game.nodes@.len() == draft.nodes@.len()
                    &&& forall|i: int|
                        0 <= i < draft.nodes@.len() ==> finished_node(
                            draft.nodes@[i],
                            scaled@[i]@,
                            #[trigger] game.nodes@[i],
                        )
                    &&& #[trigger] game_error(game, sums_ok@) == Some(error)
                },
            Err(_) => false,
        },
{
    let Draft { nodes, actions, tree_node_ids, private_hands, .. } = draft;
    let hands = pair_up(&private_hands);
    let ghost drafted = nodes@;
    let between = rescale_nodes(nodes, scaled);
    assert forall|i: int| 0 <= i < between@.len() implies (
    #[trigger] between@[i] matches MultiwayGameNode::Terminal { utility } ==> utility@.len()
        == 2) by {
        assert(rescaled(drafted[i], between@[i], scaled@[i]@));
        assert(drafted[i] is Terminal ==> drafted[i] == between@[i]);
    }
    let ghost halfway = between@;
    let pairs = pair_nodes(between);
    assert forall|i: int| 0 <= i < drafted.len() implies finished_node(
        drafted[i],
        scaled@[i]@,
        #[trigger] pairs@[i],
    ) by {
        assert(rescaled(drafted[i], halfway[i], scaled@[i]@));
    }
    let ghost made = StaticGame { root: 0, nodes: pairs };
    match StaticGame::new(0, pairs, sums_ok) {
        Ok(game) => Ok(
            CompiledHoldemGame { game, actions, tree_node_ids, private_hands: hands },
        ),
        Err(error) => {
            assert(game_error(made, sums_ok@) == Some(error));
            Err(HoldemError::Game(error))
        },
    }
}

} // verus!
