//! What holds of sampled deals as a whole: they are legal, they are counted, and
//! equal samplers draw the same ones.
use vstd::prelude::*;

use crate::bits::{above_zero, magnitude};
use crate::cards::Combo;
use crate::group::lemma_group_key;
use crate::ranges::{
    combo_key, dealable, dealable_weights, grouped, keeps, lemma_listed_profiles_ascend,
    lists_ascend, profiles, range_valid, weight_ok, weights_of, weights_ok, Candidate,
    ComboWeights, WeightedCombo, WeightedRange,
};
use crate::sampler::{
    is_candidate, lemma_same_attempts, lemma_sampled_deals_are_legal, sample_outcome,
    MultiwayPrivateDealSample, MultiwayPrivateDealSampler, SamplerError,
};

verus! {

/// A range gives a combo a positive weight, and no dead card is in it.
pub open spec fn weighted_in(combos: Seq<WeightedCombo>, combo: Combo, dead_cards: u64) -> bool {
    exists|i: int|
        {
            &&& 0 <= i < combos.len()
            &&& (#[trigger] combos[i]).combo == combo
            &&& above_zero(combos[i].weight)
            &&& combo.spec_mask() & dead_cards == 0
        }
}

/// The combos of the groups, each with some sum of its weights.
pub open spec fn sums_of(summed: Seq<Candidate>, groups: Seq<ComboWeights>) -> bool {
    &&& summed.len() == groups.len()
    &&& forall|i: int| 0 <= i < summed.len() ==> (#[trigger] summed[i]).combo == groups[i].combo
}

/// The candidates of a range: its dealable combos, grouped, with the sums of their
/// weights, without those whose sum is not a positive number.
pub open spec fn candidates_of(
    list: Seq<Candidate>,
    combos: Seq<WeightedCombo>,
    dead_cards: u64,
) -> bool {
    &&& range_valid(combos)
    &&& weights_ok(combos)
    &&& exists|groups: Seq<ComboWeights>, summed: Seq<Candidate>|
        {
            &&& #[trigger] grouped(groups, combos, dead_cards)
            &&& #[trigger] sums_of(summed, groups)
            &&& list == summed.filter(|candidate: Candidate| keeps(candidate))
        }
}

proof fn lemma_dealable_entry(combos: Seq<WeightedCombo>, dead_cards: u64, at: int) -> (index: int)
    requires
        0 <= at < dealable_weights(combos, dead_cards).len(),
    ensures
        0 <= index < combos.len(),
        dealable(combos[index], dead_cards),
        dealable_weights(combos, dead_cards)[at] == (
            combo_key(combos[index].combo),
            combos[index].weight,
        ),
    decreases combos.len(),
{
    let rest = dealable_weights(combos.drop_last(), dead_cards);
    if at < rest.len() {
        lemma_dealable_entry(combos.drop_last(), dead_cards, at)
    } else {
        combos.len() - 1
    }
}

/// Every candidate of a range is a combo to which the range gives a positive
/// weight, without a dead card.
pub proof fn lemma_candidates_have_weight(
    list: Seq<Candidate>,
    combos: Seq<WeightedCombo>,
    dead_cards: u64,
)
    requires
        candidates_of(list, combos, dead_cards),
    ensures
        forall|i: int|
            0 <= i < list.len() ==> weighted_in(combos, (#[trigger] list[i]).combo, dead_cards)
                && list[i].combo.valid() && keeps(list[i]),
{
    let keep = |candidate: Candidate| keeps(candidate);
    let (groups, summed) = choose|groups: Seq<ComboWeights>, summed: Seq<Candidate>|
        {
            &&& #[trigger] grouped(groups, combos, dead_cards)
            &&& #[trigger] sums_of(summed, groups)
            &&& list == summed.filter(|candidate: Candidate| keeps(candidate))
        };
    assert(list == summed.filter(keep));
    summed.filter_lemma(keep);
    assert forall|i: int| 0 <= i < list.len() implies weighted_in(
        combos,
        (#[trigger] list[i]).combo,
        dead_cards,
    ) && list[i].combo.valid() && keeps(list[i]) by {
        assert(keep(list[i]));
        assert(list.contains(list[i]));
        assert(summed.contains(list[i])) by {
            summed.lemma_filter_contains_rev(keep, list[i]);
        }
        let at = choose|at: int| 0 <= at < summed.len() && summed[at] == list[i];
        let combo = groups[at].combo;
        assert(summed[at].combo == combo);
        let open = dealable_weights(combos, dead_cards);
        assert(groups[at].weights@ == weights_of(combos, combo, dead_cards));
        let place = lemma_group_key(open, combo_key(combo));
        let index = lemma_dealable_entry(combos, dead_cards, place);
        assert(combo_key(combos[index].combo) == combo_key(combo));
        assert(combos[index].combo == combo);
        lemma_positive(combos[index].weight);
    }
}

/// Filtering keeps an ascending order.
proof fn lemma_filter_ascends(list: Seq<Candidate>, keep: spec_fn(Candidate) -> bool)
    requires
        forall|i: int, j: int|
            0 <= i < j < list.len() ==> combo_key((#[trigger] list[i]).combo).below(
                combo_key((#[trigger] list[j]).combo),
            ),
    ensures
        ({
            let kept = list.filter(keep);
            forall|i: int, j: int|
                0 <= i < j < kept.len() ==> combo_key((#[trigger] kept[i]).combo).below(
                    combo_key((#[trigger] kept[j]).combo),
                )
        }),
    decreases list.len(),
{
    reveal(Seq::filter);
    if list.len() > 0 {
        let rest = list.drop_last();
        lemma_filter_ascends(rest, keep);
        let before = rest.filter(keep);
        let kept = list.filter(keep);
        assert forall|i: int, j: int| 0 <= i < j < kept.len() implies combo_key(
            (#[trigger] kept[i]).combo,
        ).below(combo_key((#[trigger] kept[j]).combo)) by {
            if j < before.len() {
                assert(kept[i] == before[i] && kept[j] == before[j]);
            } else {
                assert(kept[j] == list.last());
                assert(kept[i] == before[i]);
                assert(before.contains(before[i]));
                rest.lemma_filter_contains_rev(keep, before[i]);
                let at = choose|at: int| 0 <= at < rest.len() && rest[at] == before[i];
                assert(list[at] == before[i]);
                assert(combo_key(list[at].combo).below(combo_key(list[list.len() - 1].combo)));
            }
        }
    }
}

/// The candidates of ranges ascend, so the profiles listed from them ascend and
/// occur once each.
pub proof fn lemma_candidates_of_ranges_ascend(
    candidates: Seq<Vec<Candidate>>,
    ranges: Seq<WeightedRange>,
    dead_cards: u64,
)
    requires
        ranges.len() == candidates.len(),
        forall|p: int|
            0 <= p < candidates.len() ==> candidates_of(
                (#[trigger] candidates[p])@,
                ranges[p].combos@,
                dead_cards,
            ),
    ensures
        lists_ascend(candidates),
        profiles(candidates, 0, 0, dead_cards, Seq::empty()).no_duplicates(),
{
    assert forall|p: int, i: int, j: int|
        #![trigger candidates[p]@[i], candidates[p]@[j]]
        0 <= p < candidates.len() && 0 <= i < j < candidates[p]@.len() implies combo_key(
        candidates[p]@[i].combo,
    ).below(combo_key(candidates[p]@[j].combo)) by {
        let combos = ranges[p].combos@;
        let keep = |candidate: Candidate| keeps(candidate);
        let (groups, summed) = choose|groups: Seq<ComboWeights>, summed: Seq<Candidate>|
            {
                &&& #[trigger] grouped(groups, combos, dead_cards)
                &&& #[trigger] sums_of(summed, groups)
                &&& candidates[p]@ == summed.filter(|candidate: Candidate| keeps(candidate))
            };
        assert forall|x: int, y: int| 0 <= x < y < summed.len() implies combo_key(
            (#[trigger] summed[x]).combo,
        ).below(combo_key((#[trigger] summed[y]).combo)) by {
            assert(combo_key(groups[x].combo).below(combo_key(groups[y].combo)));
        }
        lemma_filter_ascends(summed, keep);
    }
    lemma_listed_profiles_ascend(candidates, dead_cards);
}

/// A weight that a range may hold and that is not zero is above zero.
proof fn lemma_positive(weight: u64)
    requires
        weight_ok(weight),
        magnitude(weight) != 0,
    ensures
        above_zero(weight),
{
}

/// A sampled deal gives each player a hand to which their range gives a positive
/// weight; no card is dealt twice and no dead card at all. It took at least one
/// attempt and no more than allowed, and the sampler has counted them. Without a
/// deal the sampler has counted every attempt that was allowed; where none was, it
/// stays as it was.
pub proof fn lemma_samples_are_legal_and_counted(
    ranges: Seq<WeightedRange>,
    before: MultiwayPrivateDealSampler,
    after: MultiwayPrivateDealSampler,
    max_attempts: usize,
    result: Result<MultiwayPrivateDealSample, SamplerError>,
)
    requires
        before.wf(),
        ranges.len() == before.candidates@.len(),
        forall|p: int|
            0 <= p < ranges.len() ==> candidates_of(
                (#[trigger] before.candidates@[p])@,
                ranges[p].combos@,
                before.dead_cards,
            ),
        sample_outcome(before, after, max_attempts, result),
    ensures
        match result {
            Ok(sample) => {
                &&& sample.hands@.len() == ranges.len()
                &&& forall|p: int|
                    0 <= p < ranges.len() ==> weighted_in(
                        ranges[p].combos@,
                        #[trigger] sample.hands@[p],
                        before.dead_cards,
                    )
                &&& forall|p: int|
                    0 <= p < ranges.len() ==> (#[trigger] sample.hands@[p]).spec_mask()
                        & before.dead_cards == 0
                &&& forall|p: int, q: int|
                    0 <= p < q < ranges.len() ==> (#[trigger] sample.hands@[p]).spec_mask() & (
                    #[trigger] sample.hands@[q]).spec_mask() == 0
                &&& 1 <= sample.attempts <= max_attempts
                &&& after.total_attempts == before.total_attempts + sample.attempts
            },
            Err(_) => if max_attempts == 0 {
                after == before
            } else {
                after.total_attempts == before.total_attempts + max_attempts
            },
        },
{
    if let Ok(sample) = result {
        lemma_sampled_deals_are_legal(
            before.candidates@,
            before.thresholds@,
            None,
            before.dead_cards,
            before.rng.state,
            1,
            max_attempts as int,
        );
        assert forall|p: int| 0 <= p < ranges.len() implies weighted_in(
            ranges[p].combos@,
            #[trigger] sample.hands@[p],
            before.dead_cards,
        ) by {
            let list = before.candidates@[p]@;
            lemma_candidates_have_weight(list, ranges[p].combos@, before.dead_cards);
            assert(is_candidate(list, sample.hands@[p]));
            let i = choose|i: int|
                0 <= i < list.len() && (#[trigger] list[i]).combo == sample.hands@[p];
            assert(weighted_in(ranges[p].combos@, list[i].combo, before.dead_cards));
        }
    }
}

/// Two outcomes of `sample` agree.
pub open spec fn same_sample(
    left: Result<MultiwayPrivateDealSample, SamplerError>,
    right: Result<MultiwayPrivateDealSample, SamplerError>,
) -> bool {
    match (left, right) {
        (Ok(a), Ok(b)) => a.hands@ == b.hands@ && a.attempts == b.attempts,
        (Err(a), Err(b)) => a == b,
        _ => false,
    }
}

/// Two samplers draw from the same ranges and stand at the same state.
pub open spec fn samples_alike(
    left: MultiwayPrivateDealSampler,
    right: MultiwayPrivateDealSampler,
) -> bool {
    &&& left.same_ranges(right)
    &&& left.rng.state == right.rng.state
}

/// Samplers over the same ranges that stand at the same state, such as two that
/// were made with one seed, give the same deals, call by call.
pub proof fn lemma_equal_samplers_give_equal_sequences(
    left: Seq<MultiwayPrivateDealSampler>,
    right: Seq<MultiwayPrivateDealSampler>,
    limits: Seq<usize>,
    left_results: Seq<Result<MultiwayPrivateDealSample, SamplerError>>,
    right_results: Seq<Result<MultiwayPrivateDealSample, SamplerError>>,
)
    requires
        left.len() == limits.len() + 1,
        right.len() == limits.len() + 1,
        left_results.len() == limits.len(),
        right_results.len() == limits.len(),
        left[0].wf(),
        samples_alike(left[0], right[0]),
        forall|k: int|
            0 <= k < limits.len() ==> sample_outcome(
                #[trigger] left[k],
                left[k + 1],
                limits[k],
                left_results[k],
            ),
        forall|k: int|
            0 <= k < limits.len() ==> sample_outcome(
                #[trigger] right[k],
                right[k + 1],
                limits[k],
                right_results[k],
            ),
    ensures
        forall|k: int|
            0 <= k < limits.len() ==> same_sample(#[trigger] left_results[k], right_results[k]),
        samples_alike(left.last(), right.last()),
    decreases limits.len(),
{
    if limits.len() > 0 {
        let n = limits.len() - 1;
        lemma_equal_samplers_give_equal_sequences(
            left.drop_last(),
            right.drop_last(),
            limits.drop_last(),
            left_results.drop_last(),
            right_results.drop_last(),
        );
        assert(left.drop_last().last() == left[n]);
        assert(right.drop_last().last() == right[n]);
        lemma_kept_length(left, limits, left_results, n);
        lemma_same_attempts(left[n], right[n], None, left[n].rng.state, 1, limits[n] as int);
        assert(sample_outcome(left[n], left[n + 1], limits[n], left_results[n]));
        assert(sample_outcome(right[n], right[n + 1], limits[n], right_results[n]));
        assert forall|k: int| 0 <= k < limits.len() implies same_sample(
            #[trigger] left_results[k],
            right_results[k],
        ) by {
            if k < n {
                assert(same_sample(left_results.drop_last()[k], right_results.drop_last()[k]));
            }
        }
    }
}

/// Sampling keeps the ranges of a sampler.
proof fn lemma_kept_length(
    samplers: Seq<MultiwayPrivateDealSampler>,
    limits: Seq<usize>,
    results: Seq<Result<MultiwayPrivateDealSample, SamplerError>>,
    at: int,
)
    requires
        0 <= at < samplers.len(),
        samplers.len() == limits.len() + 1,
        results.len() == limits.len(),
        samplers[0].wf(),
        forall|k: int|
            0 <= k < limits.len() ==> sample_outcome(
                #[trigger] samplers[k],
                samplers[k + 1],
                limits[k],
                results[k],
            ),
    ensures
        samplers[at].candidates == samplers[0].candidates,
        samplers[at].thresholds == samplers[0].thresholds,
    decreases at,
{
    if at > 0 {
        lemma_kept_length(samplers, limits, results, at - 1);
        assert(sample_outcome(
            samplers[at - 1],
            samplers[at],
            limits[at - 1],
            results[at - 1],
        ));
    }
}

} // verus!
