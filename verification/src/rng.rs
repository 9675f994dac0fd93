//! A seeded xorshift generator with 53-bit draws.
use vstd::prelude::*;

verus! {

/// State used in place of a zero seed, from which xorshift never moves.
pub const ZERO_SEED_STATE: u64 = 0x9e37_79b9_7f4a_7c15;

/// Number of different draws: a draw stands for `draw / 2^53` in `[0, 1)`.
pub const DRAW_RANGE: u64 = 0x20_0000_0000_0000;

/// One xorshift step.
pub open spec fn xorshift(state: u64) -> u64 {
    let first = state ^ (state << 7u64);
    let second = first ^ (first >> 9u64);
    second ^ (second << 8u64)
}

/// The draw that the generator hands out when it moves to `state`.
pub open spec fn draw_of(state: u64) -> u64 {
    state >> 11u64
}

/// The state that a generator made from `seed` starts in.
pub open spec fn seeded_state(seed: u64) -> u64 {
    if seed == 0 {
        ZERO_SEED_STATE
    } else {
        seed
    }
}

/// The first index whose threshold lies above `draw`, the last one if none
/// does.
pub open spec fn chosen_index(thresholds: Seq<u64>, draw: u64) -> int
    recommends
        thresholds.len() > 0,
{
    first_above(thresholds, draw, 0)
}

pub open spec fn first_above(thresholds: Seq<u64>, draw: u64, from: int) -> int
    decreases thresholds.len() - from,
{
    if from >= thresholds.len() {
        thresholds.len() - 1
    } else if draw < thresholds[from] {
        from
    } else {
        first_above(thresholds, draw, from + 1)
    }
}

#[derive(Debug, Clone, Copy, PartialEq, Eq, Structural)]
pub struct XorShift64 {
    pub state: u64,
}

impl XorShift64 {
    pub fn new(seed: u64) -> (rng: Self)
        ensures
            rng.state == seeded_state(seed),
            rng.state != 0,
    {
        XorShift64 { state: if seed == 0 { ZERO_SEED_STATE } else { seed } }
    }

    pub fn next_u64(&mut self) -> (value: u64)
        ensures
            value == xorshift(old(self).state),
            final(self).state == value,
    {
        let mut value: u64 = self.state;
        value = value ^ (value << 7u64);
        value = value ^ (value >> 9u64);
        value = value ^ (value << 8u64);
        self.state = value;
        value
    }

    /// The next draw: the top 53 bits of the next value.
    pub fn next_draw(&mut self) -> (draw: u64)
        ensures
            final(self).state == xorshift(old(self).state),
            draw == draw_of(xorshift(old(self).state)),
            draw < DRAW_RANGE,
    {
        let value = self.next_u64();
        assert((value >> 11u64) < 0x20_0000_0000_0000u64) by (bit_vector);
        value >> 11u64
    }

    /// Samples an index by cumulative thresholds in units of `2^-53`.
    ///
    /// The threshold of an index is the cumulative probability up to and with
    /// it, times `2^53` and rounded up: a draw lies below the probability
    /// exactly when it lies below that integer.
    pub fn sample_index(&mut self, thresholds: &[u64]) -> (index: usize)
        requires
            thresholds@.len() > 0,
        ensures
            final(self).state == xorshift(old(self).state),
            index == chosen_index(thresholds@, draw_of(xorshift(old(self).state))),
            index < thresholds@.len(),
    {
        let draw = self.next_draw();
        index_for_draw(thresholds, draw)
    }
}

/// The index that `draw` selects among `thresholds`.
pub fn index_for_draw(thresholds: &[u64], draw: u64) -> (index: usize)
    requires
        thresholds@.len() > 0,
    ensures
        index == chosen_index(thresholds@, draw),
        index < thresholds@.len(),
{
    let mut index: usize = 0;
    while index < thresholds.len()
        invariant
            index <= thresholds@.len(),
            chosen_index(thresholds@, draw) == first_above(thresholds@, draw, index as int),
        decreases thresholds.len() - index,
    {
        if draw < thresholds[index] {
            return index;
        }
        index = index + 1;
    }
    thresholds.len() - 1
}

/// No seed leads the generator into the state that it cannot leave.
pub proof fn lemma_state_never_zero(state: u64)
    requires
        state != 0,
    ensures
        xorshift(state) != 0,
{
    lemma_xorshift_injective(state, 0);
    assert(xorshift(0) == 0) by {
        assert(0u64 ^ (0u64 << 7u64) == 0u64) by (bit_vector);
        assert(0u64 ^ (0u64 >> 9u64) == 0u64) by (bit_vector);
        assert(0u64 ^ (0u64 << 8u64) == 0u64) by (bit_vector);
    }
}

/// Different states lead to different states: no two streams ever merge.
pub proof fn lemma_xorshift_injective(left: u64, right: u64)
    ensures
        xorshift(left) == xorshift(right) ==> left == right,
{
    let l1 = left ^ (left << 7u64);
    let r1 = right ^ (right << 7u64);
    let l2 = l1 ^ (l1 >> 9u64);
    let r2 = r1 ^ (r1 >> 9u64);
    assert(left ^ (left << 7u64) == right ^ (right << 7u64) ==> left == right) by (bit_vector);
    assert(l1 ^ (l1 >> 9u64) == r1 ^ (r1 >> 9u64) ==> l1 == r1) by (bit_vector);
    assert(l2 ^ (l2 << 8u64) == r2 ^ (r2 << 8u64) ==> l2 == r2) by (bit_vector);
}

/// The chosen index is the least one whose threshold lies above the draw, and
/// the last one when there is none.
pub proof fn lemma_chosen_index(thresholds: Seq<u64>, draw: u64)
    requires
        thresholds.len() > 0,
    ensures
        ({
            let chosen = chosen_index(thresholds, draw);
            &&& 0 <= chosen < thresholds.len()
            &&& forall|j: int| 0 <= j < chosen ==> thresholds[j] <= draw
            &&& draw < thresholds[chosen] || chosen == thresholds.len() - 1
        }),
{
    lemma_first_above(thresholds, draw, 0);
}

proof fn lemma_first_above(thresholds: Seq<u64>, draw: u64, from: int)
    requires
        0 <= from <= thresholds.len(),
        thresholds.len() > 0,
    ensures
        ({
            let chosen = first_above(thresholds, draw, from);
            &&& 0 <= chosen < thresholds.len()
            &&& chosen >= from || from == thresholds.len()
            &&& forall|j: int| from <= j < chosen ==> thresholds[j] <= draw
            &&& draw < thresholds[chosen] || chosen == thresholds.len() - 1
        }),
    decreases thresholds.len() - from,
{
    if from < thresholds.len() && draw >= thresholds[from] {
        lemma_first_above(thresholds, draw, from + 1);
    }
}

} // verus!
