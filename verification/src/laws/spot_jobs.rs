//! What a job of a spot is read as, entry by entry.
use vstd::prelude::*;

use crate::action_abstraction::StreetSizing;
use crate::bits::{above_zero, below_zero, finite, ONE_BITS};
use crate::chance::ChanceConfig;
use crate::domain::{Action, AnteMode};
use crate::ranges::WeightedRange;
use crate::spot::{
    MultiwayHoldemSpotAction, MultiwayHoldemSpotConfig, MultiwayHoldemSpotTreeConfig, TableConfig,
};
use crate::spot_job::{
    class_weight, class_weight_error, into_range, range_combos, read_history,
    MultiwayHoldemSpotActionJson, MultiwayHoldemSpotActionKindJson, MultiwayHoldemSpotAnteModeJson,
    MultiwayHoldemSpotChanceJson, MultiwayHoldemSpotClassWeightJson, MultiwayHoldemSpotJob,
    MultiwayHoldemSpotStreetJson, MultiwayHoldemSpotTreeJson,
    MultiwayHoldemSpotTableJson, RangeClass, SpotJobError,
};
use crate::text::{is_space, words};

verus! {

/// An entry and an action have the same name and the same amount.
pub open spec fn same_name(entry: MultiwayHoldemSpotActionKindJson, action: Action) -> bool {
    &&& entry is Fold <==> action is Fold
    &&& entry is Check <==> action is Check
    &&& entry is Call <==> action is Call
    &&& entry is Bet <==> action is Bet
    &&& entry is Raise <==> action is Raise
    &&& entry is AllIn <==> action is AllIn
    &&& entry is Bet ==> entry->Bet_to == action->Bet_to
    &&& entry is Raise ==> entry->Raise_to == action->Raise_to
}

/// An entry is read as the action of the same name and the same amount, and
/// different entries as different actions.
pub proof fn lemma_entries_keep_their_names(
    entry: MultiwayHoldemSpotActionKindJson,
    other: MultiwayHoldemSpotActionKindJson,
    action: Action,
    other_action: Action,
)
    requires
        call_ensures(MultiwayHoldemSpotActionKindJson::to_action, (&entry,), action),
        call_ensures(MultiwayHoldemSpotActionKindJson::to_action, (&other,), other_action),
    ensures
        same_name(entry, action),
        action == other_action <==> entry == other,
{
}

/// A history is read entry by entry: as many actions as entries, each by the same
/// player and of the same name, in the same order.
pub proof fn lemma_history_keeps_its_order(
    entries: Vec<MultiwayHoldemSpotActionJson>,
    history: Vec<MultiwayHoldemSpotAction>,
)
    requires
        call_ensures(read_history, (&entries,), history),
    ensures
        history@.len() == entries@.len(),
        forall|i: int|
            0 <= i < entries@.len() ==> (#[trigger] history@[i]).player == entries@[i].player
                && same_name(entries@[i].action, history@[i].action),
{
}

/// An ante mode is read as the mode of the same name.
pub proof fn lemma_ante_modes_keep_their_names(
    mode: MultiwayHoldemSpotAnteModeJson,
    read: AnteMode,
)
    requires
        call_ensures(MultiwayHoldemSpotAnteModeJson::to_domain, (mode,), read),
    ensures
        mode is NoAnte <==> read is NoAnte,
        mode is Uniform <==> read is Uniform,
        mode is BigBlind <==> read is BigBlind,
{
}

/// The sizing has the lists of the street.
pub open spec fn keeps_sizes(street: MultiwayHoldemSpotStreetJson, sizing: StreetSizing) -> bool {
    &&& street.explicit_bet_to@ == sizing.explicit_bet_to@
    &&& street.bet_fractions@ == sizing.bet_fractions@
    &&& street.explicit_raise_to@ == sizing.explicit_raise_to@
    &&& street.raise_multipliers@ == sizing.raise_multipliers@
    &&& street.include_all_in == sizing.include_all_in
}

/// The config lists the outcomes of each street under that street, and only where
/// some are given.
pub open spec fn keeps_outcomes(chance: MultiwayHoldemSpotChanceJson, config: ChanceConfig) -> bool {
    &&& config.flop is Some <==> chance.flop@.len() > 0
    &&& config.turn is Some <==> chance.turn@.len() > 0
    &&& config.river is Some <==> chance.river@.len() > 0
    &&& config.flop is Some ==> config.flop->Some_0@ == chance.flop@
    &&& config.turn is Some ==> config.turn->Some_0@ == chance.turn@
    &&& config.river is Some ==> config.river->Some_0@ == chance.river@
    &&& config.enumerate_exact <==> chance.enumerate_exact
    &&& config.max_outcomes_per_node == chance.max_outcomes_per_node
    &&& config.dead_cards == 0
}

/// What a tree of a job is read as: the mode of the same name, with the sizes of
/// each street, the limits, and, for a tree over all streets, the outcomes.
pub open spec fn keeps_tree(
    tree: MultiwayHoldemSpotTreeJson,
    config: MultiwayHoldemSpotTreeConfig,
) -> bool {
    &&& tree.mode is Round <==> config is Round
    &&& tree.mode is Full <==> config is Full
    &&& ({
        let round = match config {
            MultiwayHoldemSpotTreeConfig::Round(round) => round,
            MultiwayHoldemSpotTreeConfig::Full(full) => full.round,
        };
        &&& round.max_nodes == tree.max_nodes
        &&& round.max_depth == tree.max_depth
        &&& round.abstraction matches Some(abstraction)
        &&& keeps_sizes(tree.preflop, abstraction.preflop)
        &&& keeps_sizes(tree.flop, abstraction.flop)
        &&& keeps_sizes(tree.turn, abstraction.turn)
        &&& keeps_sizes(tree.river, abstraction.river)
        &&& round.action_sizes.bet_to@.len() == 0
        &&& round.action_sizes.raise_to@.len() == 0
        &&& !round.action_sizes.include_all_in
    })
    &&& config matches MultiwayHoldemSpotTreeConfig::Full(full) ==> keeps_outcomes(
        tree.chance,
        full.chance,
    ) && full.postflop_order == tree.postflop_order
}

/// A street's sizes are read as they are given.
pub proof fn lemma_street_is_read(street: MultiwayHoldemSpotStreetJson, sizing: StreetSizing)
    requires
        call_ensures(MultiwayHoldemSpotStreetJson::into_sizing, (street,), sizing),
    ensures
        keeps_sizes(street, sizing),
{
}

/// The outcomes of the streets are read as they are given.
pub proof fn lemma_chance_is_read(chance: MultiwayHoldemSpotChanceJson, config: ChanceConfig)
    requires
        call_ensures(MultiwayHoldemSpotChanceJson::into_chance_config, (chance,), config),
    ensures
        keeps_outcomes(chance, config),
{
}

/// The tree of a job is read as it is given.
pub proof fn lemma_tree_is_read(
    tree: MultiwayHoldemSpotTreeJson,
    config: MultiwayHoldemSpotTreeConfig,
)
    requires
        call_ensures(MultiwayHoldemSpotTreeJson::into_tree_config, (tree,), config),
    ensures
        keeps_tree(tree, config),
{
}

/// The spot of a job is as the job gives it: table, history, ranges, tree, hero and
/// the settings of the run.
pub proof fn lemma_job_is_read(job: MultiwayHoldemSpotJob, config: MultiwayHoldemSpotConfig)
    requires
        job.described(config),
    ensures
        config.table.table_size == job.table.table_size,
        config.table.button == job.table.button,
        config.table.small_blind == job.table.small_blind,
        config.table.big_blind == job.table.big_blind,
        config.table.ante == job.table.ante,
        config.table.stacks@ == job.table.stacks@,
        config.table.dead_money == job.table.dead_money,
        job.table.ante_mode is NoAnte <==> config.table.ante_mode is NoAnte,
        job.table.ante_mode is Uniform <==> config.table.ante_mode is Uniform,
        job.table.ante_mode is BigBlind <==> config.table.ante_mode is BigBlind,
        config.action_history@.len() == job.history@.len(),
        forall|i: int|
            0 <= i < job.history@.len() ==> (#[trigger] config.action_history@[i]).player
                == job.history@[i].player && same_name(
                job.history@[i].action,
                config.action_history@[i].action,
            ),
        config.ranges@ == job.ranges@,
        config.dead_cards == job.dead_cards,
        config.board_cards@.len() == 0,
        keeps_tree(job.tree, config.tree),
        config.hero_player == job.hero.player,
        config.hero_hands@ == job.hero_hands@,
        job.hero.label is Some ==> config.hero_label@ == job.hero.label->Some_0@,
        job.hero.label is None ==> config.hero_label@ == job.hero.hand@,
        config.seed == job.execution.seed,
        config.config_fingerprint == job.execution.config_fingerprint,
        config.max_private_attempts == job.execution.max_private_attempts,
        config.worker_count == job.execution.worker_count,
        config.reduction_batch_size == job.execution.reduction_batch_size,
        config.card_abstraction is None,
        config.blocking_samples == 0,
{
}

/// A table of a job is read field by field.
pub proof fn lemma_table_is_read(table: MultiwayHoldemSpotTableJson, read: TableConfig)
    requires
        call_ensures(MultiwayHoldemSpotTableJson::into_table, (table,), read),
    ensures
        read.table_size == table.table_size,
        read.button == table.button,
        read.small_blind == table.small_blind,
        read.big_blind == table.big_blind,
        read.ante == table.ante,
        read.stacks@ == table.stacks@,
        read.dead_money == table.dead_money,
        table.ante_mode is NoAnte <==> read.ante_mode is NoAnte,
        table.ante_mode is Uniform <==> read.ante_mode is Uniform,
        table.ante_mode is BigBlind <==> read.ante_mode is BigBlind,
{
}

/// How many combos the first `count` classes have.
pub open spec fn combos_before(classes: Seq<RangeClass>, count: int) -> int
    decreases count,
{
    if count <= 0 {
        0
    } else {
        combos_before(classes, count - 1) + classes[count - 1].combos@.len()
    }
}

/// `weight` is what the weights set for the hand, or one where they set none.
pub open spec fn is_weight_of(
    weights: Seq<MultiwayHoldemSpotClassWeightJson>,
    name: Seq<char>,
    weight: u64,
) -> bool {
    &&& forall|i: int|
        0 <= i < weights.len() && (#[trigger] weights[i]).hand@ == name ==> weights[i].weight
            == weight
    &&& (forall|i: int| 0 <= i < weights.len() ==> (#[trigger] weights[i]).hand@ != name) ==> weight
        == ONE_BITS
}

/// The weights name no hand twice, and every weight is a number of at least zero.
pub open spec fn weights_in_order(weights: Seq<MultiwayHoldemSpotClassWeightJson>, from: int) -> bool {
    &&& forall|i: int|
        from <= i < weights.len() ==> finite((#[trigger] weights[i]).weight) && !below_zero(
            weights[i].weight,
        )
    &&& forall|i: int, j: int|
        0 <= i < j < weights.len() && from <= j ==> (#[trigger] weights[i]).hand@ != (
        #[trigger] weights[j]).hand@
}

proof fn lemma_weights(weights: Seq<MultiwayHoldemSpotClassWeightJson>, from: int)
    requires
        0 <= from <= weights.len() <= usize::MAX,
    ensures
        class_weight_error(weights, from) is None <==> weights_in_order(weights, from),
        class_weight_error(weights, from) matches Some(SpotJobError::BadClassWeight { index })
            ==> index < weights.len() && (!finite(weights[index as int].weight) || below_zero(
            weights[index as int].weight,
        )),
        class_weight_error(weights, from) matches Some(
            SpotJobError::DuplicateClassWeight { index },
        ) ==> index < weights.len() && exists|i: int|
            0 <= i < index && (#[trigger] weights[i]).hand@ == weights[index as int].hand@,
        class_weight_error(weights, from) matches Some(error) ==> error is BadClassWeight
            || error is DuplicateClassWeight,
    decreases weights.len() - from,
{
    if from < weights.len() {
        lemma_weights(weights, from + 1);
        assert(weights[from].hand@ == weights[from].hand@);
        if class_weight_error(weights, from + 1) is None {
            assert(weights_in_order(weights, from + 1));
        }
        if crate::spot_job::names_hand(weights, weights[from].hand@, from) {
            let i = choose|i: int|
                0 <= i < from && (#[trigger] weights[i]).hand@ == weights[from].hand@;
            assert(!weights_in_order(weights, from));
        } else {
            assert forall|i: int, j: int|
                0 <= i < j < weights.len() && from <= j && weights_in_order(
                    weights,
                    from + 1,
                ) implies (#[trigger] weights[i]).hand@ != (#[trigger] weights[j]).hand@ by {}
        }
    }
}

proof fn lemma_class_weight(
    weights: Seq<MultiwayHoldemSpotClassWeightJson>,
    name: Seq<char>,
    from: int,
)
    requires
        0 <= from <= weights.len(),
        weights_in_order(weights, 0),
        forall|i: int| 0 <= i < from ==> (#[trigger] weights[i]).hand@ != name,
    ensures
        is_weight_of(weights, name, class_weight(weights, name, from)),
    decreases weights.len() - from,
{
    if from < weights.len() {
        if weights[from].hand@ == name {
            assert forall|i: int|
                0 <= i < weights.len() && (#[trigger] weights[i]).hand@
                    == name implies weights[i].weight == weights[from].weight by {
                assert(weights[from].hand@ == name);
            }
        } else {
            lemma_class_weight(weights, name, from + 1);
        }
    }
}

proof fn lemma_range_place(
    classes: Seq<RangeClass>,
    weights: Seq<MultiwayHoldemSpotClassWeightJson>,
    count: int,
    class: int,
    k: int,
)
    requires
        0 <= class < count <= classes.len(),
        0 <= k < classes[class].combos@.len(),
    ensures
        ({
            let combos = range_combos(classes, weights, count);
            let at = combos_before(classes, class) + k;
            &&& combos.len() == combos_before(classes, count)
            &&& 0 <= at < combos.len()
            &&& combos[at].combo == classes[class].combos@[k]
            &&& combos[at].class_id == classes[class].id
            &&& combos[at].weight == class_weight(weights, classes[class].name@, 0)
        }),
    decreases count,
{
    lemma_range_size(classes, weights, count);
    lemma_range_size(classes, weights, count - 1);
    if class < count - 1 {
        lemma_range_place(classes, weights, count - 1, class, k);
    }
}

proof fn lemma_range_size(
    classes: Seq<RangeClass>,
    weights: Seq<MultiwayHoldemSpotClassWeightJson>,
    count: int,
)
    requires
        count <= classes.len(),
    ensures
        range_combos(classes, weights, count).len() == combos_before(classes, count),
        combos_before(classes, count) >= 0,
    decreases count,
{
    if count > 0 {
        lemma_range_size(classes, weights, count - 1);
    }
}

/// A range holds the combos of its classes, class by class, each under its class and
/// with the weight that is set for the class, or one; nothing more and nothing less.
pub proof fn lemma_range_of_classes(
    classes: Vec<RangeClass>,
    weights: Vec<MultiwayHoldemSpotClassWeightJson>,
    result: Result<WeightedRange, SpotJobError>,
    class: int,
    k: int,
)
    requires
        call_ensures(into_range, (&classes, &weights), result),
        0 <= class < classes@.len(),
        0 <= k < classes@[class].combos@.len(),
    ensures
        result matches Ok(range) ==> {
            let at = combos_before(classes@, class) + k;
            &&& range.combos@.len() == combos_before(classes@, classes@.len() as int)
            &&& 0 <= at < range.combos@.len()
            &&& range.combos@[at].combo == classes@[class].combos@[k]
            &&& range.combos@[at].class_id == classes@[class].id
            &&& is_weight_of(weights@, classes@[class].name@, range.combos@[at].weight)
        },
{
    assert(weights.len() == weights@.len());
    if result is Ok {
        lemma_weights(weights@, 0);
        lemma_class_weight(weights@, classes@[class].name@, 0);
        lemma_range_place(classes@, weights@, classes@.len() as int, class, k);
    }
}

/// A range is refused where a weight is no number of at least zero, where a hand has
/// two weights, or where no combo has a positive weight; and nowhere else.
pub proof fn lemma_refused_ranges(
    classes: Vec<RangeClass>,
    weights: Vec<MultiwayHoldemSpotClassWeightJson>,
    result: Result<WeightedRange, SpotJobError>,
)
    requires
        call_ensures(into_range, (&classes, &weights), result),
    ensures
        result matches Ok(range) ==> weights_in_order(weights@, 0) && exists|i: int|
            0 <= i < range.combos@.len() && above_zero((#[trigger] range.combos@[i]).weight),
        result matches Err(SpotJobError::BadClassWeight { index }) ==> index < weights@.len() && (
        !finite(weights@[index as int].weight) || below_zero(weights@[index as int].weight)),
        result matches Err(SpotJobError::DuplicateClassWeight { index }) ==> index < weights@.len()
            && exists|i: int|
            0 <= i < index && (#[trigger] weights@[i]).hand@ == weights@[index as int].hand@,
        result == Err::<WeightedRange, SpotJobError>(SpotJobError::NoPositiveWeight)
            ==> weights_in_order(weights@, 0) && forall|class: int, k: int, weight: u64|
            0 <= class < classes@.len() && 0 <= k < classes@[class].combos@.len()
                && #[trigger] is_weight_of(weights@, classes@[class].name@, weight) && (
            #[trigger] classes@[class].combos@[k]).valid() ==> !above_zero(weight),
{
    assert(weights.len() == weights@.len());
    lemma_weights(weights@, 0);
    if result == Err::<WeightedRange, SpotJobError>(SpotJobError::NoPositiveWeight) {
        assert forall|class: int, k: int, weight: u64|
            0 <= class < classes@.len() && 0 <= k < classes@[class].combos@.len()
                && #[trigger] is_weight_of(weights@, classes@[class].name@, weight) && (
            #[trigger] classes@[class].combos@[k]).valid() implies !above_zero(weight) by {
            let name = classes@[class].name@;
            lemma_class_weight(weights@, name, 0);
            lemma_range_place(classes@, weights@, classes@.len() as int, class, k);
            let combos = range_combos(classes@, weights@, classes@.len() as int);
            let at = combos_before(classes@, class) + k;
            assert(!above_zero(combos[at].weight));
            if exists|i: int| 0 <= i < weights@.len() && (#[trigger] weights@[i]).hand@ == name {
                let i = choose|i: int|
                    0 <= i < weights@.len() && (#[trigger] weights@[i]).hand@ == name;
                assert(weights@[i].weight == weight);
            }
        }
    }
}

/// Two words name two cards, whatever white space stands around and between them;
/// one word never does.
pub proof fn lemma_two_words_are_a_hand(first: Seq<char>, gap: Seq<char>, second: Seq<char>)
    requires
        first.len() > 0,
        gap.len() > 0,
        second.len() > 0,
        forall|i: int| 0 <= i < first.len() ==> !is_space(#[trigger] first[i]),
        forall|i: int| 0 <= i < gap.len() ==> is_space(#[trigger] gap[i]),
        forall|i: int| 0 <= i < second.len() ==> !is_space(#[trigger] second[i]),
    ensures
        crate::spot_job::is_exact_hand(first + gap + second),
        crate::spot_job::is_exact_hand(gap + first + gap + second),
        crate::spot_job::is_exact_hand(first + gap + second + gap),
        !crate::spot_job::is_exact_hand(first),
        !crate::spot_job::is_exact_hand(gap),
        !crate::spot_job::is_exact_hand(first + gap + second + gap + first),
{
    let none = Seq::<char>::empty();
    assert(words(none) == 0);
    lemma_word_appended(none, first);
    assert(none + first =~= first);
    lemma_gap_appended(first, gap);
    lemma_word_appended(first + gap, second);
    lemma_gap_appended(first + gap + second, gap);
    lemma_word_appended(first + gap + second + gap, first);
    lemma_gap_appended(none, gap);
    assert(none + gap =~= gap);
    lemma_word_appended(gap, first);
    lemma_gap_appended(gap + first, gap);
    lemma_word_appended(gap + first + gap, second);
}

proof fn lemma_gap_appended(text: Seq<char>, gap: Seq<char>)
    requires
        forall|i: int| 0 <= i < gap.len() ==> is_space(#[trigger] gap[i]),
    ensures
        words(text + gap) == words(text),
    decreases gap.len(),
{
    if gap.len() == 0 {
        assert(text + gap =~= text);
    } else {
        assert((text + gap).drop_last() =~= text + gap.drop_last());
        lemma_gap_appended(text, gap.drop_last());
    }
}

proof fn lemma_word_appended(text: Seq<char>, word: Seq<char>)
    requires
        text.len() == 0 || is_space(text.last()),
        word.len() > 0,
        forall|i: int| 0 <= i < word.len() ==> !is_space(#[trigger] word[i]),
    ensures
        words(text + word) == words(text) + 1,
    decreases word.len(),
{
    let whole = text + word;
    assert(whole.drop_last() =~= text + word.drop_last());
    if word.len() == 1 {
        assert(text + word.drop_last() =~= text);
    } else {
        lemma_word_appended(text, word.drop_last());
        assert(whole[whole.len() - 2] == word[word.len() - 2]);
    }
}

} // verus!
