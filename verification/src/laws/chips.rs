//! What a finished hand pays, in chips that went in and chips that come out.
use vstd::prelude::*;

use crate::cards::{has_card, lemma_masks_meet, Combo};
use crate::domain::{GameState, TerminalState};
use crate::payoff::{
    HoldemChipEvPayoff, MultiwayHoldemChipEvPayoff, MultiwayTerminalPayoff, PayoffError,
    Settlement, Share, TerminalPayoff,
};
use crate::tree::{LeafKind, TreeNode};

verus! {

/// What a seat wins: what it is paid less what it is charged.
pub open spec fn winnings(share: Share) -> int {
    share.payout - share.committed
}

/// The chips that a seat put in over the whole hand.
pub open spec fn contribution(state: GameState, seat: int) -> int {
    state.players@[seat].committed_total as int
}

/// The chips that the first `count` seats put in.
pub open spec fn contributions(state: GameState, count: int) -> int
    decreases count,
{
    if count <= 0 {
        0
    } else {
        contributions(state, count - 1) + contribution(state, count - 1)
    }
}

/// What the first `count` shares win together.
pub open spec fn total_winnings(shares: Seq<Share>, count: int) -> int
    decreases count,
{
    if count <= 0 {
        0
    } else {
        total_winnings(shares, count - 1) + winnings(shares[count - 1])
    }
}

pub open spec fn folded_to(node: TreeNode, winner: usize) -> bool {
    node.leaf == Some(LeafKind::Terminal(TerminalState::Fold { winner }))
}

proof fn lemma_totals(state: GameState, shares: Seq<Share>, winner: int, count: int)
    requires
        0 <= count <= shares.len(),
        forall|i: int|
            0 <= i < shares.len() ==> winnings(#[trigger] shares[i]) == if i == winner {
                state.pot - contribution(state, i)
            } else {
                -contribution(state, i)
            },
    ensures
        total_winnings(shares, count) == (if 0 <= winner < count {
            state.pot as int
        } else {
            0
        }) - contributions(state, count),
    decreases count,
{
    if count > 0 {
        lemma_totals(state, shares, winner, count - 1);
    }
}

/// After a fold in a hand of several seats the winner gains the pot less what it put
/// in, and everyone else loses what they put in, seat by seat.
pub proof fn lemma_fold_winnings(
    payoff: MultiwayHoldemChipEvPayoff,
    node: TreeNode,
    winner: usize,
    result: Result<Settlement, PayoffError>,
)
    requires
        call_ensures(MultiwayHoldemChipEvPayoff::settle, (&payoff, &node), result),
        folded_to(node, winner),
        node.state.table_size == payoff.hands@.len(),
        node.state.players@.len() == payoff.hands@.len(),
        winner < payoff.hands@.len() <= usize::MAX,
    ensures
        result matches Ok(Settlement::Fold(shares)) && {
            &&& shares@.len() == payoff.hands@.len()
            &&& forall|i: int|
                0 <= i < shares@.len() ==> winnings(#[trigger] shares@[i]) == if i == winner {
                    node.state.pot - contribution(node.state, i)
                } else {
                    -contribution(node.state, i)
                }
        },
{
    let shares = result->Ok_0->Fold_0@;
    assert(shares.len() == payoff.hands@.len());
    assert forall|i: int| 0 <= i < shares.len() implies winnings(#[trigger] shares[i]) == if i
        == winner {
        node.state.pot - contribution(node.state, i)
    } else {
        -contribution(node.state, i)
    } by {
        assert(i as usize == i);
    }
}

/// After a fold the seats of a hand win the dead money together: what is in the pot
/// beside the contributions.
pub proof fn lemma_fold_sums_to_dead_money(
    payoff: MultiwayHoldemChipEvPayoff,
    node: TreeNode,
    winner: usize,
    dead: int,
    result: Result<Settlement, PayoffError>,
)
    requires
        call_ensures(MultiwayHoldemChipEvPayoff::settle, (&payoff, &node), result),
        folded_to(node, winner),
        node.state.table_size == payoff.hands@.len(),
        node.state.players@.len() == payoff.hands@.len(),
        winner < payoff.hands@.len() <= usize::MAX,
        node.state.pot == contributions(node.state, node.state.players@.len() as int) + dead,
    ensures
        total_winnings(result->Ok_0->Fold_0@, node.state.players@.len() as int) == dead,
{
    lemma_fold_winnings(payoff, node, winner, result);
    let shares = result->Ok_0->Fold_0@;
    lemma_totals(node.state, shares, winner as int, shares.len() as int);
}

/// After a fold between two seats the solver's seats are settled in the solver's
/// order: the winner gains the pot less what it put in, the other loses what it put
/// in, and together they win the dead money.
pub proof fn lemma_heads_up_fold_winnings(
    payoff: HoldemChipEvPayoff,
    node: TreeNode,
    winner: usize,
    result: Result<Settlement, PayoffError>,
)
    requires
        call_ensures(HoldemChipEvPayoff::settle, (&payoff, &node), result),
        folded_to(node, winner),
        node.state.table_size == 2,
        node.state.players@.len() == 2,
        winner < 2,
        payoff.solver_seats@[0] < 2,
        payoff.solver_seats@[1] < 2,
    ensures
        result matches Ok(Settlement::Fold(shares)) && {
            &&& shares@.len() == 2
            &&& forall|i: int|
                0 <= i < 2 ==> winnings(#[trigger] shares@[i]) == if payoff.solver_seats@[i]
                    == winner {
                    node.state.pot - contribution(node.state, payoff.solver_seats@[i] as int)
                } else {
                    -contribution(node.state, payoff.solver_seats@[i] as int)
                }
            &&& payoff.solver_seats@[0] != payoff.solver_seats@[1] ==> winnings(shares@[0])
                + winnings(shares@[1]) == node.state.pot - contribution(node.state, 0)
                - contribution(node.state, 1)
        },
{
}

/// A payoff settles a node exactly where the state has its seats, the node ends the
/// hand and a fold names one of the seats.
pub proof fn lemma_settled_exactly(
    payoff: MultiwayHoldemChipEvPayoff,
    node: TreeNode,
    result: Result<Settlement, PayoffError>,
)
    requires
        call_ensures(MultiwayHoldemChipEvPayoff::settle, (&payoff, &node), result),
    ensures
        result is Ok <==> {
            &&& node.state.table_size == payoff.hands@.len()
            &&& node.state.players@.len() == payoff.hands@.len()
            &&& node.leaf is Some
            &&& node.leaf != Some(LeafKind::RoundComplete)
            &&& forall|winner: usize|
                #[trigger] folded_to(node, winner) ==> winner < payoff.hands@.len()
        },
        result matches Ok(Settlement::Showdown) ==> node.leaf == Some(
            LeafKind::Terminal(TerminalState::Showdown),
        ),
        result matches Err(PayoffError::WinnerOutOfRange { winner }) ==> folded_to(node, winner)
            && winner >= payoff.hands@.len(),
        result == Err::<Settlement, PayoffError>(PayoffError::RoundComplete) ==> node.leaf == Some(
            LeafKind::RoundComplete,
        ),
        result == Err::<Settlement, PayoffError>(PayoffError::NotTerminal) ==> node.leaf is None,
{
    if let Some(LeafKind::Terminal(TerminalState::Fold { winner })) = node.leaf {
        assert(folded_to(node, winner));
    }
}

/// Between two seats the same holds, and the solver's seats lie at the table.
pub proof fn lemma_heads_up_settled_exactly(
    payoff: HoldemChipEvPayoff,
    node: TreeNode,
    result: Result<Settlement, PayoffError>,
)
    requires
        call_ensures(HoldemChipEvPayoff::settle, (&payoff, &node), result),
    ensures
        result is Ok <==> {
            &&& node.state.table_size == 2
            &&& node.state.players@.len() == 2
            &&& payoff.solver_seats@[0] < 2
            &&& payoff.solver_seats@[1] < 2
            &&& node.leaf is Some
            &&& node.leaf != Some(LeafKind::RoundComplete)
            &&& forall|winner: usize| #[trigger] folded_to(node, winner) ==> winner < 2
        },
        result matches Ok(Settlement::Showdown) ==> node.leaf == Some(
            LeafKind::Terminal(TerminalState::Showdown),
        ),
{
    if let Some(LeafKind::Terminal(TerminalState::Fold { winner })) = node.leaf {
        assert(folded_to(node, winner));
    }
}

/// A terminal node is worth what was settled for that node, in the same order, and a
/// node that cannot be settled is worth nothing at all.
pub proof fn lemma_utilities_are_the_settled_ones(
    payoff: MultiwayHoldemChipEvPayoff,
    node: TreeNode,
    settlement: Result<Settlement, PayoffError>,
)
    requires
        call_ensures(MultiwayHoldemChipEvPayoff::settle, (&payoff, &node), settlement),
    ensures
        payoff.spec_utility(node) matches Ok(utility) ==> settlement is Ok && node.id
            < payoff.settled@.len() && payoff.settled@[node.id as int] is Some && utility
            == payoff.settled@[node.id as int]->Some_0@,
        settlement matches Err(error) ==> payoff.spec_utility(node) == Err::<
            Seq<u64>,
            PayoffError,
        >(error),
        settlement is Ok && node.id < payoff.settled@.len() && payoff.settled@[node.id as int]
            is Some ==> payoff.spec_utility(node) is Ok,
{
}

/// The same of a heads-up payoff.
pub proof fn lemma_heads_up_utilities_are_the_settled_ones(
    payoff: HoldemChipEvPayoff,
    node: TreeNode,
    settlement: Result<Settlement, PayoffError>,
)
    requires
        call_ensures(HoldemChipEvPayoff::settle, (&payoff, &node), settlement),
    ensures
        payoff.spec_utility(node) matches Ok(utility) ==> settlement is Ok && node.id
            < payoff.settled@.len() && payoff.settled@[node.id as int] is Some && utility.0
            == payoff.settled@[node.id as int]->Some_0@[0] && utility.1
            == payoff.settled@[node.id as int]->Some_0@[1],
        settlement matches Err(error) ==> payoff.spec_utility(node) == Err::<
            (u64, u64),
            PayoffError,
        >(error),
        settlement is Ok && node.id < payoff.settled@.len() && payoff.settled@[node.id as int]
            is Some ==> payoff.spec_utility(node) is Ok,
{
}

/// Some card lies in two of the hands.
pub open spec fn deal_a_card_twice(hands: Seq<Combo>) -> bool {
    exists|i: int, j: int, card: u8|
        0 <= i < j < hands.len() && card < 64 && has_card(
            (#[trigger] hands[i]).spec_mask(),
            card,
        ) && #[trigger] has_card((#[trigger] hands[j]).spec_mask(), card)
}

proof fn lemma_card_twice(hands: Seq<Combo>)
    ensures
        deal_a_card_twice(hands) <==> !crate::payoff::disjoint_hands(hands),
{
    assert forall|i: int, j: int| 0 <= i < j < hands.len() implies ((
    #[trigger] hands[i]).spec_mask() & (#[trigger] hands[j]).spec_mask() != 0 <==> exists|card: u8|
        card < 64 && has_card(hands[i].spec_mask(), card) && has_card(
            hands[j].spec_mask(),
            card,
        )) by {
        lemma_masks_meet(hands[i].spec_mask(), hands[j].spec_mask());
    }
    if deal_a_card_twice(hands) {
        let (i, j, card) = choose|i: int, j: int, card: u8|
            0 <= i < j < hands.len() && card < 64 && has_card(
                (#[trigger] hands[i]).spec_mask(),
                card,
            ) && #[trigger] has_card((#[trigger] hands[j]).spec_mask(), card);
        lemma_masks_meet(hands[i].spec_mask(), hands[j].spec_mask());
        assert(hands[i].spec_mask() & hands[j].spec_mask() != 0);
    }
    if !crate::payoff::disjoint_hands(hands) {
        let (i, j) = choose|i: int, j: int|
            0 <= i < j < hands.len() && (#[trigger] hands[i]).spec_mask() & (
            #[trigger] hands[j]).spec_mask() != 0;
        lemma_masks_meet(hands[i].spec_mask(), hands[j].spec_mask());
    }
}

/// A payoff is made of three to eight hands that share no card, and of nothing else;
/// it keeps what it is made of.
pub proof fn lemma_hands_of_a_payoff(
    hands: Vec<Combo>,
    settled: Vec<Option<Vec<u64>>>,
    result: Result<MultiwayHoldemChipEvPayoff, PayoffError>,
)
    requires
        call_ensures(MultiwayHoldemChipEvPayoff::new, (hands, settled), result),
    ensures
        result is Ok <==> 3 <= hands@.len() && hands@.len() <= 8 && !deal_a_card_twice(hands@),
        result matches Ok(payoff) ==> payoff.hands == hands && payoff.settled == settled,
        result == Err::<MultiwayHoldemChipEvPayoff, PayoffError>(PayoffError::DuplicateCards) ==> 3
            <= hands@.len() && hands@.len() <= 8 && deal_a_card_twice(hands@),
{
    lemma_card_twice(hands@);
}

/// A heads-up payoff is made of two hands that share no card at two different seats.
pub proof fn lemma_hands_of_a_heads_up_payoff(
    hands: Vec<Combo>,
    seats: [usize; 2],
    settled: Vec<Option<[u64; 2]>>,
    result: Result<HoldemChipEvPayoff, PayoffError>,
)
    requires
        call_ensures(HoldemChipEvPayoff::new, (hands, seats, settled), result),
    ensures
        result is Ok <==> hands@.len() == 2 && seats@[0] != seats@[1] && !deal_a_card_twice(
            hands@,
        ),
        result matches Ok(payoff) ==> payoff.hands == hands && payoff.solver_seats == seats
            && payoff.settled == settled,
        result == Err::<HoldemChipEvPayoff, PayoffError>(PayoffError::SameSeat) ==> seats@[0]
            == seats@[1],
        result == Err::<HoldemChipEvPayoff, PayoffError>(PayoffError::DuplicateCards)
            ==> deal_a_card_twice(hands@),
{
    lemma_card_twice(hands@);
}

} // verus!
