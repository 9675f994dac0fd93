//! Terminal payoffs in chips.
//!
//! Who is paid what after a fold is decided here. What a showdown is worth is
//! settled by the caller; both enter the payoff as utilities in IEEE-754 bits.
use vstd::prelude::*;

use crate::cards::{has_card, lemma_has_or, lemma_masks_meet, Combo};
use crate::domain::{GameState, PlayerId, TerminalState};
use crate::tree::{LeafKind, TreeNode};

verus! {

#[derive(Debug, Clone, Copy, PartialEq, Eq, Structural)]
pub enum PayoffError {
    HandCount { hands: usize },
    SameSeat,
    DuplicateCards,
    /// The state does not have the seats of the hands.
    SeatCount { players: usize, hands: usize },
    SeatMissing,
    RoundComplete,
    NotTerminal,
    WinnerOutOfRange { winner: usize },
    NotSettled { node: usize },
}

/// The cards of all `hands`.
pub open spec fn hands_mask(hands: Seq<Combo>) -> u64
    decreases hands.len(),
{
    if hands.len() == 0 {
        0
    } else {
        hands_mask(hands.drop_last()) | hands.last().spec_mask()
    }
}

pub open spec fn all_valid(hands: Seq<Combo>) -> bool {
    forall|i: int| 0 <= i < hands.len() ==> (#[trigger] hands[i]).valid()
}

/// No card lies in two hands.
pub open spec fn disjoint_hands(hands: Seq<Combo>) -> bool {
    forall|i: int, j: int|
        0 <= i < j < hands.len() ==> (#[trigger] hands[i]).spec_mask() & (
        #[trigger] hands[j]).spec_mask() == 0
}

pub proof fn lemma_hands_mask(hands: Seq<Combo>, card: u8)
    requires
        card < 64,
    ensures
        has_card(hands_mask(hands), card) <==> exists|i: int|
            0 <= i < hands.len() && has_card((#[trigger] hands[i]).spec_mask(), card),
    decreases hands.len(),
{
    if hands.len() == 0 {
        crate::cards::lemma_zero_mask(0);
    } else {
        let rest = hands.drop_last();
        lemma_hands_mask(rest, card);
        lemma_has_or(hands_mask(rest), hands.last().spec_mask(), card);
        if has_card(hands_mask(rest), card) {
            let i = choose|i: int|
                0 <= i < rest.len() && has_card((#[trigger] rest[i]).spec_mask(), card);
            assert(has_card(hands[i].spec_mask(), card));
        }
        if has_card(hands.last().spec_mask(), card) {
            assert(has_card(hands[hands.len() - 1].spec_mask(), card));
        }
        if exists|i: int|
            0 <= i < hands.len() && has_card((#[trigger] hands[i]).spec_mask(), card) {
            let i = choose|i: int|
                0 <= i < hands.len() && has_card((#[trigger] hands[i]).spec_mask(), card);
            if i < rest.len() {
                assert(has_card(rest[i].spec_mask(), card));
            }
        }
    }
}

/// A mask meets the hands exactly where it meets one of them.
pub proof fn lemma_meets_hands(hands: Seq<Combo>, mask: u64)
    ensures
        hands_mask(hands) & mask != 0 <==> exists|i: int|
            0 <= i < hands.len() && (#[trigger] hands[i]).spec_mask() & mask != 0,
{
    lemma_masks_meet(hands_mask(hands), mask);
    if hands_mask(hands) & mask != 0 {
        let card = choose|card: u8|
            card < 64 && has_card(hands_mask(hands), card) && has_card(mask, card);
        lemma_hands_mask(hands, card);
        let i = choose|i: int|
            0 <= i < hands.len() && has_card((#[trigger] hands[i]).spec_mask(), card);
        lemma_masks_meet(hands[i].spec_mask(), mask);
    }
    if exists|i: int| 0 <= i < hands.len() && (#[trigger] hands[i]).spec_mask() & mask != 0 {
        let i = choose|i: int| 0 <= i < hands.len() && (#[trigger] hands[i]).spec_mask() & mask != 0;
        lemma_masks_meet(hands[i].spec_mask(), mask);
        let card = choose|card: u8|
            card < 64 && has_card(hands[i].spec_mask(), card) && has_card(mask, card);
        lemma_hands_mask(hands, card);
    }
}

/// The mask of all hands, or nothing where two of them share a card.
fn combined_mask(hands: &Vec<Combo>) -> (mask: Option<u64>)
    requires
        all_valid(hands@),
    ensures
        match mask {
            Some(mask) => disjoint_hands(hands@) && mask == hands_mask(hands@),
            None => !disjoint_hands(hands@),
        },
{
    let mut used: u64 = 0;
    let mut index: usize = 0;
    assert(hands@.take(0) =~= Seq::<Combo>::empty());
    while index < hands.len()
        invariant
            index <= hands@.len(),
            all_valid(hands@),
            used == hands_mask(hands@.take(index as int)),
            disjoint_hands(hands@.take(index as int)),
        decreases hands.len() - index,
    {
        let ghost before = hands@.take(index as int);
        assert(hands@[index as int].valid());
        let mask = hands[index].mask();
        proof {
            lemma_meets_hands(before, mask);
            crate::cards::lemma_masks_meet(mask, used);
            crate::cards::lemma_masks_meet(used, mask);
        }
        if mask & used != 0 {
            proof {
                let i = choose|i: int|
                    0 <= i < before.len() && (#[trigger] before[i]).spec_mask() & mask != 0;
                assert(hands@[i].spec_mask() & hands@[index as int].spec_mask() != 0);
            }
            return None;
        }
        used = used | mask;
        index = index + 1;
        proof {
            let after = hands@.take(index as int);
            assert(after.drop_last() =~= before);
            assert forall|i: int, j: int| 0 <= i < j < after.len() implies (
            #[trigger] after[i]).spec_mask() & (#[trigger] after[j]).spec_mask() == 0 by {
                if j < before.len() {
                    assert(before[i].spec_mask() & before[j].spec_mask() == 0);
                } else {
                    assert(before[i] == after[i]);
                }
            }
        }
    }
    assert(hands@.take(index as int) =~= hands@);
    Some(used)
}

/// The mask of all hands.
pub fn mask_of_hands(hands: &Vec<Combo>) -> (mask: u64)
    requires
        all_valid(hands@),
    ensures
        mask == hands_mask(hands@),
{
    let mut mask: u64 = 0;
    let mut index: usize = 0;
    assert(hands@.take(0) =~= Seq::<Combo>::empty());
    while index < hands.len()
        invariant
            index <= hands@.len(),
            all_valid(hands@),
            mask == hands_mask(hands@.take(index as int)),
        decreases hands.len() - index,
    {
        assert(hands@[index as int].valid());
        assert(hands@.take(index as int + 1).drop_last() =~= hands@.take(index as int));
        mask = mask | hands[index].mask();
        index = index + 1;
    }
    assert(hands@.take(index as int) =~= hands@);
    mask
}

/// What a fold pays to `seat`.
pub open spec fn fold_payout(state: GameState, seat: usize, winner: usize) -> u64 {
    if seat == winner {
        state.pot
    } else {
        0
    }
}

/// Chips that a seat gets at the end of a hand and chips that it put in.
#[derive(Debug, Clone, Copy, PartialEq, Eq, Structural)]
pub struct Share {
    pub payout: u64,
    pub committed: u64,
}

/// How a terminal node is settled.
#[derive(Debug)]
pub enum Settlement {
    /// The share of each seat.
    Fold(Vec<Share>),
    Showdown,
}

pub open spec fn fold_shares(state: GameState, seats: Seq<usize>, winner: usize) -> Seq<Share> {
    seats.map(
        |i: int, seat: usize|
            Share {
                payout: fold_payout(state, seat, winner),
                committed: state.players@[seat as int].committed_total,
            },
    )
}

/// The share of each of `seats` after everyone else folded to `winner`.
fn shares_after_fold(state: &GameState, seats: &Vec<usize>, winner: usize) -> (shares: Vec<Share>)
    requires
        forall|i: int| 0 <= i < seats@.len() ==> (#[trigger] seats@[i]) < state.players@.len(),
    ensures
        shares@ == fold_shares(*state, seats@, winner),
{
    let mut shares: Vec<Share> = Vec::new();
    let mut index: usize = 0;
    while index < seats.len()
        invariant
            index <= seats@.len(),
            forall|i: int| 0 <= i < seats@.len() ==> (#[trigger] seats@[i]) < state.players@.len(),
            shares@ == fold_shares(*state, seats@, winner).take(index as int),
        decreases seats.len() - index,
    {
        let seat = seats[index];
        assert(seats@[index as int] < state.players@.len());
        let payout = if seat == winner { state.pot } else { 0 };
        shares.push(Share { payout, committed: state.players[seat].committed_total });
        index = index + 1;
        assert(shares@ =~= fold_shares(*state, seats@, winner).take(index as int));
    }
    assert(fold_shares(*state, seats@, winner).take(index as int) =~= fold_shares(
        *state,
        seats@,
        winner,
    ));
    shares
}

/// What keeps a node from being settled between `seats` winners: `first` is
/// what is wrong with the state.
pub open spec fn settlement_error(
    node: TreeNode,
    winners: nat,
    first: Option<PayoffError>,
) -> Option<PayoffError> {
    match first {
        Some(error) => Some(error),
        None => match node.leaf {
            Some(LeafKind::RoundComplete) => Some(PayoffError::RoundComplete),
            None => Some(PayoffError::NotTerminal),
            Some(LeafKind::Terminal(TerminalState::Fold { winner })) => if winner >= winners {
                Some(PayoffError::WinnerOutOfRange { winner })
            } else {
                None
            },
            Some(LeafKind::Terminal(TerminalState::Showdown)) => None,
        },
    }
}

/// Supplies utilities for the terminal nodes of a heads-up tree.
pub trait TerminalPayoff {
    spec fn spec_utility(&self, node: TreeNode) -> Result<(u64, u64), PayoffError>;

    fn utility(&self, node: &TreeNode) -> (result: Result<[u64; 2], PayoffError>)
        ensures
            match result {
                Ok(utility) => self.spec_utility(*node) == Ok::<(u64, u64), PayoffError>(
                    (utility@[0], utility@[1]),
                ),
                Err(error) => self.spec_utility(*node) == Err::<(u64, u64), PayoffError>(error),
            },
    ;
}

/// Supplies utilities for the terminal nodes of a tree of several players.
pub trait MultiwayTerminalPayoff {
    spec fn spec_utility(&self, node: TreeNode) -> Result<Seq<u64>, PayoffError>;

    fn utility(&self, node: &TreeNode) -> (result: Result<Vec<u64>, PayoffError>)
        ensures
            match result {
                Ok(utility) => self.spec_utility(*node) == Ok::<Seq<u64>, PayoffError>(utility@),
                Err(error) => self.spec_utility(*node) == Err::<Seq<u64>, PayoffError>(error),
            },
    ;
}

/// Fixed hands of a heads-up tree and the settled utility of each of its nodes.
#[derive(Debug, Clone)]
pub struct HoldemChipEvPayoff {
    pub hands: Vec<Combo>,
    pub solver_seats: [PlayerId; 2],
    /// Utilities in the order of the solver seats, by node; none where a node
    /// was not or could not be settled.
    pub settled: Vec<Option<[u64; 2]>>,
}

/// The first thing wrong with the hands of a payoff between `hands.len()`
/// seats.
pub open spec fn heads_up_error(hands: Seq<Combo>, seats: Seq<usize>) -> Option<PayoffError> {
    if hands.len() != 2 {
        Some(PayoffError::HandCount { hands: hands.len() as usize })
    } else if seats[0] == seats[1] {
        Some(PayoffError::SameSeat)
    } else if !disjoint_hands(hands) {
        Some(PayoffError::DuplicateCards)
    } else {
        None
    }
}

impl HoldemChipEvPayoff {
    pub open spec fn state_error(self, node: TreeNode) -> Option<PayoffError> {
        if node.state.table_size != 2 || node.state.players@.len() != 2 {
            Some(
                PayoffError::SeatCount { players: node.state.players@.len() as usize, hands: 2 },
            )
        } else if self.solver_seats@[0] >= 2 || self.solver_seats@[1] >= 2 {
            Some(PayoffError::SeatMissing)
        } else {
            None
        }
    }

    pub fn new(
        hands: Vec<Combo>,
        solver_seats: [PlayerId; 2],
        settled: Vec<Option<[u64; 2]>>,
    ) -> (result: Result<Self, PayoffError>)
        requires
            all_valid(hands@),
        ensures
            match heads_up_error(hands@, solver_seats@) {
                Some(error) => result == Err::<Self, PayoffError>(error),
                None => result == Ok::<Self, PayoffError>(
                    HoldemChipEvPayoff { hands, solver_seats, settled },
                ),
            },
    {
        if hands.len() != 2 {
            return Err(PayoffError::HandCount { hands: hands.len() });
        }
        if solver_seats[0] == solver_seats[1] {
            return Err(PayoffError::SameSeat);
        }
        match combined_mask(&hands) {
            None => Err(PayoffError::DuplicateCards),
            Some(_) => Ok(HoldemChipEvPayoff { hands, solver_seats, settled }),
        }
    }

    pub fn hands(&self) -> (hands: &[Combo])
        ensures
            hands@ == self.hands@,
    {
        self.hands.as_slice()
    }

    pub fn solver_seats(&self) -> (seats: [PlayerId; 2])
        ensures
            seats == self.solver_seats,
    {
        self.solver_seats
    }

    fn validate_state(&self, node: &TreeNode) -> (result: Result<(), PayoffError>)
        ensures
            match result {
                Ok(_) => self.state_error(*node) is None,
                Err(error) => self.state_error(*node) == Some(error),
            },
    {
        if node.state.table_size != 2 || node.state.players.len() != 2 {
            return Err(PayoffError::SeatCount { players: node.state.players.len(), hands: 2 });
        }
        if self.solver_seats[0] >= 2 || self.solver_seats[1] >= 2 {
            return Err(PayoffError::SeatMissing);
        }
        Ok(())
    }

    /// How `node` is settled: by the shares of the solver seats after a fold, by
    /// a showdown otherwise.
    pub fn settle(&self, node: &TreeNode) -> (result: Result<Settlement, PayoffError>)
        ensures
            match settlement_error(*node, 2, self.state_error(*node)) {
                Some(error) => result == Err::<Settlement, PayoffError>(error),
                None => match node.leaf {
                    Some(LeafKind::Terminal(TerminalState::Fold { winner })) => result matches Ok(
                        Settlement::Fold(shares),
                    ) && shares@ == fold_shares(node.state, self.solver_seats@, winner),
                    _ => result matches Ok(Settlement::Showdown),
                },
            },
    {
        match self.validate_state(node) {
            Ok(_) => {},
            Err(error) => {
                return Err(error);
            },
        }
        match node.leaf {
            Some(LeafKind::RoundComplete) => Err(PayoffError::RoundComplete),
            None => Err(PayoffError::NotTerminal),
            Some(LeafKind::Terminal(TerminalState::Fold { winner })) => {
                if winner >= 2 {
                    return Err(PayoffError::WinnerOutOfRange { winner });
                }
                let seats = vec![self.solver_seats[0], self.solver_seats[1]];
                assert(seats@ =~= self.solver_seats@);
                Ok(Settlement::Fold(shares_after_fold(&node.state, &seats, winner)))
            },
            Some(LeafKind::Terminal(TerminalState::Showdown)) => Ok(Settlement::Showdown),
        }
    }
}

impl TerminalPayoff for HoldemChipEvPayoff {
    open spec fn spec_utility(&self, node: TreeNode) -> Result<(u64, u64), PayoffError> {
        match settlement_error(node, 2, self.state_error(node)) {
            Some(error) => Err(error),
            None => if node.id < self.settled@.len() && self.settled@[node.id as int] is Some {
                let utility = self.settled@[node.id as int]->Some_0;
                Ok((utility@[0], utility@[1]))
            } else {
                Err(PayoffError::NotSettled { node: node.id })
            },
        }
    }

    fn utility(&self, node: &TreeNode) -> (result: Result<[u64; 2], PayoffError>) {
        match self.settle(node) {
            Ok(_) => {},
            Err(error) => {
                return Err(error);
            },
        }
        if node.id < self.settled.len() {
            if let Some(utility) = self.settled[node.id] {
                return Ok(utility);
            }
        }
        Err(PayoffError::NotSettled { node: node.id })
    }
}

/// Fixed hands of three to eight seats and the settled utility of each node of
/// their tree.
#[derive(Debug, Clone)]
pub struct MultiwayHoldemChipEvPayoff {
    pub hands: Vec<Combo>,
    /// Utilities in the order of the seats, by node; none where a node was not
    /// or could not be settled.
    pub settled: Vec<Option<Vec<u64>>>,
}

pub open spec fn multiway_hands_error(hands: Seq<Combo>) -> Option<PayoffError> {
    if !(3 <= hands.len() <= 8) {
        Some(PayoffError::HandCount { hands: hands.len() as usize })
    } else if !disjoint_hands(hands) {
        Some(PayoffError::DuplicateCards)
    } else {
        None
    }
}

/// Seats from zero to `count`.
fn seat_list(count: usize) -> (seats: Vec<usize>)
    ensures
        seats@ == Seq::new(count as nat, |i: int| i as usize),
{
    let mut seats: Vec<usize> = Vec::new();
    while seats.len() < count
        invariant
            seats@.len() <= count,
            seats@ == Seq::new(seats@.len(), |i: int| i as usize),
        decreases count - seats.len(),
    {
        let next = seats.len();
        seats.push(next);
        assert(seats@ =~= Seq::new(seats@.len(), |i: int| i as usize));
    }
    seats
}

impl MultiwayHoldemChipEvPayoff {
    pub open spec fn state_error(self, node: TreeNode) -> Option<PayoffError> {
        if node.state.table_size != self.hands@.len() || node.state.players@.len()
            != self.hands@.len() {
            Some(
                PayoffError::SeatCount {
                    players: node.state.players@.len() as usize,
                    hands: self.hands@.len() as usize,
                },
            )
        } else {
            None
        }
    }

    pub fn new(hands: Vec<Combo>, settled: Vec<Option<Vec<u64>>>) -> (result: Result<
        Self,
        PayoffError,
    >)
        requires
            all_valid(hands@),
        ensures
            match multiway_hands_error(hands@) {
                Some(error) => result == Err::<Self, PayoffError>(error),
                None => result == Ok::<Self, PayoffError>(
                    MultiwayHoldemChipEvPayoff { hands, settled },
                ),
            },
    {
        if hands.len() < 3 || hands.len() > 8 {
            return Err(PayoffError::HandCount { hands: hands.len() });
        }
        match combined_mask(&hands) {
            None => Err(PayoffError::DuplicateCards),
            Some(_) => Ok(MultiwayHoldemChipEvPayoff { hands, settled }),
        }
    }

    pub fn hands(&self) -> (hands: &[Combo])
        ensures
            hands@ == self.hands@,
    {
        self.hands.as_slice()
    }

    /// How `node` is settled: by the shares of all seats after a fold, by a
    /// showdown otherwise.
    pub fn settle(&self, node: &TreeNode) -> (result: Result<Settlement, PayoffError>)
        ensures
            match settlement_error(*node, self.hands@.len(), self.state_error(*node)) {
                Some(error) => result == Err::<Settlement, PayoffError>(error),
                None => match node.leaf {
                    Some(LeafKind::Terminal(TerminalState::Fold { winner })) => result matches Ok(
                        Settlement::Fold(shares),
                    ) && shares@ == fold_shares(
                        node.state,
                        Seq::new(self.hands@.len(), |i: int| i as usize),
                        winner,
                    ),
                    _ => result matches Ok(Settlement::Showdown),
                },
            },
    {
        let count = self.hands.len();
        if node.state.table_size != count || node.state.players.len() != count {
            return Err(PayoffError::SeatCount { players: node.state.players.len(), hands: count });
        }
        match node.leaf {
            Some(LeafKind::RoundComplete) => Err(PayoffError::RoundComplete),
            None => Err(PayoffError::NotTerminal),
            Some(LeafKind::Terminal(TerminalState::Fold { winner })) => {
                if winner >= count {
                    return Err(PayoffError::WinnerOutOfRange { winner });
                }
                let seats = seat_list(count);
                Ok(Settlement::Fold(shares_after_fold(&node.state, &seats, winner)))
            },
            Some(LeafKind::Terminal(TerminalState::Showdown)) => Ok(Settlement::Showdown),
        }
    }
}

impl MultiwayTerminalPayoff for MultiwayHoldemChipEvPayoff {
    open spec fn spec_utility(&self, node: TreeNode) -> Result<Seq<u64>, PayoffError> {
        match settlement_error(node, self.hands@.len(), self.state_error(node)) {
            Some(error) => Err(error),
            None => if node.id < self.settled@.len() && self.settled@[node.id as int] is Some {
                Ok(self.settled@[node.id as int]->Some_0@)
            } else {
                Err(PayoffError::NotSettled { node: node.id })
            },
        }
    }

    fn utility(&self, node: &TreeNode) -> (result: Result<Vec<u64>, PayoffError>) {
        match self.settle(node) {
            Ok(_) => {},
            Err(error) => {
                return Err(error);
            },
        }
        if node.id < self.settled.len() {
            if let Some(utility) = &self.settled[node.id] {
                return Ok(crate::checkpoint::copy_words(utility));
            }
        }
        Err(PayoffError::NotSettled { node: node.id })
    }
}

/// The sum of what the seats are paid.
pub open spec fn total_payout(shares: Seq<Share>) -> int
    decreases shares.len(),
{
    if shares.len() == 0 {
        0
    } else {
        total_payout(shares.drop_last()) + shares.last().payout
    }
}

/// A fold pays out the pot, whole and once, to the winner.
pub proof fn lemma_fold_pays_the_pot(state: GameState, count: nat, winner: usize)
    requires
        winner < count <= usize::MAX,
    ensures
        total_payout(
            fold_shares(state, Seq::new(count, |i: int| i as usize), winner),
        ) == state.pot,
    decreases count,
{
    lemma_payout_prefix(state, count, winner);
}

proof fn lemma_payout_prefix(state: GameState, count: nat, winner: usize)
    requires
        count <= usize::MAX,
    ensures
        total_payout(fold_shares(state, Seq::new(count, |i: int| i as usize), winner)) == (
        if winner < count {
            state.pot as int
        } else {
            0
        }),
    decreases count,
{
    if count > 0 {
        let seats = Seq::new(count, |i: int| i as usize);
        let fewer = Seq::new((count - 1) as nat, |i: int| i as usize);
        let shares = fold_shares(state, seats, winner);
        assert(shares.drop_last() =~= fold_shares(state, fewer, winner));
        lemma_payout_prefix(state, (count - 1) as nat, winner);
        assert(shares.last().payout == fold_payout(state, (count - 1) as usize, winner));
    }
}

} // verus!
