//! Information sets of the batch solver, by player, public node and own hand,
//! and their checkpoints.
use vstd::prelude::*;

use crate::batch_metrics::{
    dimension_error, MetricsError, MultiwayBatchSamplingMetrics,
};
use crate::cards::{Combo, DeckMask};
use crate::checkpoint::{
    all_usable, copy_words, entry_views, fresh_infoset, restored, table_view, values_usable,
    InfoSetData, InfoSetView,
};
use crate::solver::{floor_all, visited};
use crate::table::{lemma_entry, Key, Place, Table};

verus! {

pub const MULTIWAY_BATCH_CHECKPOINT_FORMAT_VERSION: u32 = 2;

/// The number of a hand in a key.
pub open spec fn hand_number(hand: Combo) -> int {
    256 * hand.first + hand.second
}

/// The key of an information set: the public node, who acts there, and the
/// hand of that player.
pub open spec fn batch_key(player: usize, public_node: usize, hand: Combo) -> Key {
    Key { major: player as u64, middle: public_node as u64, minor: hand_number(hand) as u64 }
}

pub fn make_batch_key(player: usize, public_node: usize, hand: Combo) -> (key: Key)
    ensures
        key == batch_key(player, public_node, hand),
{
    Key {
        major: player as u64,
        middle: public_node as u64,
        minor: 256 * (hand.first as u64) + hand.second as u64,
    }
}

/// Different information sets have different keys.
pub proof fn lemma_batch_key_identifies(
    left: (usize, usize, Combo),
    right: (usize, usize, Combo),
)
    requires
        batch_key(left.0, left.1, left.2) == batch_key(right.0, right.1, right.2),
    ensures
        left == right,
{
}

/// The key of an information set of some valid hand.
pub open spec fn batch_key_ok(key: Key) -> bool {
    &&& key.major <= usize::MAX
    &&& key.middle <= usize::MAX
    &&& key.minor / 256 < 52
    &&& key.minor % 256 < 52
    &&& key.minor / 256 != key.minor % 256
}

pub open spec fn batch_keys(entries: Seq<(Key, InfoSetData)>) -> bool {
    forall|i: int| 0 <= i < entries.len() ==> batch_key_ok((#[trigger] entries[i]).0)
}

/// What opening an entry does.
pub open spec fn entry_opened(
    before: Table<InfoSetData>,
    after: Table<InfoSetData>,
    key: Key,
    action_count: usize,
    result: Result<usize, usize>,
) -> bool {
    if before@.dom().contains(key) {
        let data = before@[key];
        &&& after == before
        &&& if data.regret_sum@.len() == action_count {
            result matches Ok(index) && index < after.entries@.len() && after.entries@[index as int]
                == (key, data)
        } else {
            result == Err::<usize, usize>(data.regret_sum@.len() as usize)
        }
    } else {
        &&& result matches Ok(index)
        &&& index < after.entries@.len()
        &&& after.entries@[index as int].0 == key
        &&& after.entries@[index as int].1@ == fresh_infoset(action_count)
        &&& after@ == before@.insert(key, after.entries@[index as int].1)
    }
}

/// Finds an information set, or adds it unvisited. An information set of
/// another number of actions is an error, which says that number.
pub fn open_entry(infosets: &mut Table<InfoSetData>, key: Key, action_count: usize) -> (result:
    Result<usize, usize>)
    requires
        old(infosets).wf(),
        batch_keys(old(infosets).entries@),
        batch_key_ok(key),
    ensures
        final(infosets).wf(),
        batch_keys(final(infosets).entries@),
        entry_opened(*old(infosets), *final(infosets), key, action_count, result),
{
    match infosets.find(key) {
        Place::Found(index) => {
            let known = infosets.entries[index].1.regret_sum.len();
            if known != action_count {
                return Err(known);
            }
            Ok(index)
        },
        Place::Missing(index) => {
            infosets.insert_at(index, key, InfoSetData::new(action_count));
            assert forall|i: int| 0 <= i < infosets.entries@.len() implies batch_key_ok(
                (#[trigger] infosets.entries@[i]).0,
            ) by {
                if i < index {
                    assert(infosets.entries@[i] == old(infosets).entries@[i]);
                } else if i > index {
                    assert(infosets.entries@[i] == old(infosets).entries@[i - 1]);
                }
            }
            Ok(index)
        },
    }
}

/// Replaces the sums of an entry and adds visits to it.
pub fn set_entry(
    infosets: &mut Table<InfoSetData>,
    index: usize,
    regrets: Vec<u64>,
    strategies: Vec<u64>,
    visits: u64,
)
    requires
        old(infosets).wf(),
        batch_keys(old(infosets).entries@),
        index < old(infosets).entries@.len(),
    ensures
        final(infosets).wf(),
        batch_keys(final(infosets).entries@),
        ({
            let key = old(infosets).entries@[index as int].0;
            let after = final(infosets).entries@[index as int];
            &&& final(infosets).entries@ == old(infosets).entries@.update(index as int, after)
            &&& after.0 == key
            &&& after.1@ == (InfoSetView {
                regret_sum: regrets@,
                strategy_sum: strategies@,
                visits,
            })
            &&& final(infosets)@ == old(infosets)@.insert(key, after.1)
        }),
{
    let ghost before = *infosets;
    let ghost expected = InfoSetView { regret_sum: regrets@, strategy_sum: strategies@, visits };
    infosets.replace_at(index, InfoSetData { regret_sum: regrets, strategy_sum: strategies, visits });
    proof {
        assert forall|i: int| 0 <= i < infosets.entries@.len() implies batch_key_ok(
            (#[trigger] infosets.entries@[i]).0,
        ) by {
            assert(batch_key_ok(before.entries@[i].0));
        }
        assert(infosets.entries@[index as int].1@ =~= expected);
    }
}

/// The data that an information set has, or starts with.
pub open spec fn known_data(infosets: Table<InfoSetData>, key: Key, action_count: usize) -> InfoSetView {
    if infosets@.dom().contains(key) {
        infosets@[key]@
    } else {
        fresh_infoset(action_count)
    }
}

/// Records a visit of the acting traverser: new regrets, none below zero, and
/// new strategy weights.
pub fn record_entry(
    infosets: &mut Table<InfoSetData>,
    key: Key,
    regrets: &Vec<u64>,
    strategies: &Vec<u64>,
) -> (result: Result<(), usize>)
    requires
        old(infosets).wf(),
        batch_keys(old(infosets).entries@),
        batch_key_ok(key),
        regrets@.len() == strategies@.len(),
        known_data(*old(infosets), key, 0).visits < u64::MAX,
    ensures
        final(infosets).wf(),
        batch_keys(final(infosets).entries@),
        ({
            let data = known_data(*old(infosets), key, regrets@.len() as usize);
            if data.regret_sum.len() != regrets@.len() {
                &&& result == Err::<(), usize>(data.regret_sum.len() as usize)
                &&& *final(infosets) == *old(infosets)
            } else {
                &&& result is Ok
                &&& final(infosets)@.dom().contains(key)
                &&& final(infosets)@[key]@ == visited(data, regrets@, strategies@)
                &&& final(infosets)@ == old(infosets)@.insert(key, final(infosets)@[key])
            }
        }),
{
    let ghost before = *infosets;
    let index = match open_entry(infosets, key, regrets.len()) {
        Ok(index) => index,
        Err(known) => {
            return Err(known);
        },
    };
    proof {
        lemma_entry(*infosets, index as int);
        assert(before@.dom().contains(key) ==> before@[key]@.regret_sum
            == before@[key].regret_sum@);
    }
    let visits = infosets.entries[index].1.visits;
    let floor = floor_all(regrets);
    let sums = copy_words(strategies);
    set_entry(infosets, index, floor, sums, visits + 1);
    proof {
        assert(infosets@ =~= before@.insert(key, infosets@[key]));
        assert(infosets@[key]@ =~= visited(
            known_data(before, key, regrets@.len() as usize),
            regrets@,
            strategies@,
        ));
    }
    Ok(())
}

#[derive(Debug, Clone)]
pub struct MultiwayBatchInfoSetCheckpoint {
    pub player: usize,
    pub public_node: usize,
    pub private_cards: [u8; 2],
    pub action_count: usize,
    pub regret_sum: Vec<u64>,
    pub strategy_sum: Vec<u64>,
    pub visits: u64,
}

impl MultiwayBatchInfoSetCheckpoint {
    pub open spec fn hand(self) -> Combo {
        Combo { first: self.private_cards@[0], second: self.private_cards@[1] }
    }

    pub open spec fn key(self) -> Key {
        batch_key(self.player, self.public_node, self.hand())
    }

    pub open spec fn data(self) -> InfoSetView {
        InfoSetView {
            regret_sum: self.regret_sum@,
            strategy_sum: self.strategy_sum@,
            visits: self.visits,
        }
    }
}

pub open spec fn batch_views(entries: Seq<MultiwayBatchInfoSetCheckpoint>) -> Seq<
    (Key, InfoSetView),
> {
    entries.map(|i: int, entry: MultiwayBatchInfoSetCheckpoint| (entry.key(), entry.data()))
}

#[derive(Debug, Clone)]
pub struct MultiwayHoldemBatchCheckpoint {
    pub format_version: u32,
    pub player_count: usize,
    pub tree_fingerprint: u64,
    pub range_fingerprint: u64,
    pub dead_cards: DeckMask,
    pub config_fingerprint: u64,
    pub max_private_attempts: usize,
    pub profile_cache_capacity: usize,
    pub iterations: u64,
    pub infosets: Vec<MultiwayBatchInfoSetCheckpoint>,
    pub traversal_rng_state: u64,
    pub private_rng_state: u64,
    pub private_sampling_attempts: u64,
    pub metrics: MultiwayBatchSamplingMetrics,
}

#[derive(Debug, Clone, Copy, PartialEq, Eq, Structural)]
pub enum BatchCheckpointError {
    UnsupportedVersion { version: u32 },
    PlayerCount { players: usize },
    ZeroAttemptLimit,
    Metrics(MetricsError),
    ZeroRngState,
    InvalidPlayer { player: usize },
    InvalidActionVectors { player: usize, public_node: usize },
    DuplicateInfoSet,
    InvalidValues,
}

/// An earlier entry has the key of entry `index`.
pub open spec fn batch_repeats(entries: Seq<MultiwayBatchInfoSetCheckpoint>, index: int) -> bool {
    exists|j: int| 0 <= j < index && (#[trigger] entries[j]).key() == entries[index].key()
}

pub open spec fn batch_entry_error(
    entries: Seq<MultiwayBatchInfoSetCheckpoint>,
    players: usize,
    index: int,
) -> Option<BatchCheckpointError> {
    let entry = entries[index];
    if entry.player >= players {
        Some(BatchCheckpointError::InvalidPlayer { player: entry.player })
    } else if entry.action_count == 0 || entry.regret_sum@.len() != entry.action_count
        || entry.strategy_sum@.len() != entry.action_count {
        Some(
            BatchCheckpointError::InvalidActionVectors {
                player: entry.player,
                public_node: entry.public_node,
            },
        )
    } else if batch_repeats(entries, index) {
        Some(BatchCheckpointError::DuplicateInfoSet)
    } else if !all_usable(entry.regret_sum@) || !all_usable(entry.strategy_sum@) {
        Some(BatchCheckpointError::InvalidValues)
    } else {
        None
    }
}

pub open spec fn batch_entries_error(
    entries: Seq<MultiwayBatchInfoSetCheckpoint>,
    players: usize,
    from: int,
) -> Option<BatchCheckpointError>
    decreases entries.len() - from,
{
    if from >= entries.len() {
        None
    } else {
        match batch_entry_error(entries, players, from) {
            Some(error) => Some(error),
            None => batch_entries_error(entries, players, from + 1),
        }
    }
}

/// The first thing wrong with a checkpoint.
pub open spec fn batch_checkpoint_error(checkpoint: MultiwayHoldemBatchCheckpoint) -> Option<
    BatchCheckpointError,
> {
    if checkpoint.format_version != MULTIWAY_BATCH_CHECKPOINT_FORMAT_VERSION {
        Some(BatchCheckpointError::UnsupportedVersion { version: checkpoint.format_version })
    } else if !(3 <= checkpoint.player_count <= 8) {
        Some(BatchCheckpointError::PlayerCount { players: checkpoint.player_count })
    } else if checkpoint.max_private_attempts == 0 {
        Some(BatchCheckpointError::ZeroAttemptLimit)
    } else {
        match dimension_error(checkpoint.metrics@, checkpoint.player_count) {
            Some(error) => Some(BatchCheckpointError::Metrics(error)),
            None => if checkpoint.traversal_rng_state == 0 || checkpoint.private_rng_state == 0 {
                Some(BatchCheckpointError::ZeroRngState)
            } else {
                batch_entries_error(checkpoint.infosets@, checkpoint.player_count, 0)
            },
        }
    }
}

impl MultiwayHoldemBatchCheckpoint {
    pub fn validate(&self) -> (result: Result<(), BatchCheckpointError>)
        ensures
            match batch_checkpoint_error(*self) {
                Some(error) => result == Err::<(), BatchCheckpointError>(error),
                None => result is Ok,
            },
    {
        if self.format_version != MULTIWAY_BATCH_CHECKPOINT_FORMAT_VERSION {
            return Err(BatchCheckpointError::UnsupportedVersion { version: self.format_version });
        }
        if self.player_count < 3 || self.player_count > 8 {
            return Err(BatchCheckpointError::PlayerCount { players: self.player_count });
        }
        if self.max_private_attempts == 0 {
            return Err(BatchCheckpointError::ZeroAttemptLimit);
        }
        match self.metrics.validate_player_dimensions(self.player_count) {
            Ok(_) => {},
            Err(error) => {
                return Err(BatchCheckpointError::Metrics(error));
            },
        }
        if self.traversal_rng_state == 0 || self.private_rng_state == 0 {
            return Err(BatchCheckpointError::ZeroRngState);
        }
        validate_batch_entries(&self.infosets, self.player_count)
    }
}

fn validate_batch_entries(entries: &Vec<MultiwayBatchInfoSetCheckpoint>, players: usize) -> (result:
    Result<(), BatchCheckpointError>)
    ensures
        match batch_entries_error(entries@, players, 0) {
            Some(error) => result == Err::<(), BatchCheckpointError>(error),
            None => result is Ok,
        },
{
    let mut keys: Table<()> = Table::new();
    let mut index: usize = 0;
    while index < entries.len()
        invariant
            index <= entries@.len(),
            keys.wf(),
            forall|key: Key| #[trigger]
                keys@.dom().contains(key) <==> exists|j: int|
                    0 <= j < index && (#[trigger] entries@[j]).key() == key,
            batch_entries_error(entries@, players, 0) == batch_entries_error(
                entries@,
                players,
                index as int,
            ),
        decreases entries.len() - index,
    {
        let entry = &entries[index];
        if entry.player >= players {
            return Err(BatchCheckpointError::InvalidPlayer { player: entry.player });
        }
        if entry.action_count == 0 || entry.regret_sum.len() != entry.action_count
            || entry.strategy_sum.len() != entry.action_count {
            return Err(
                BatchCheckpointError::InvalidActionVectors {
                    player: entry.player,
                    public_node: entry.public_node,
                },
            );
        }
        let hand = Combo { first: entry.private_cards[0], second: entry.private_cards[1] };
        let key = make_batch_key(entry.player, entry.public_node, hand);
        let ghost before = keys@;
        assert(entries@[index as int].key() == key);
        if !keys.insert_new(key, ()) {
            return Err(BatchCheckpointError::DuplicateInfoSet);
        }
        if !values_usable(&entry.regret_sum) || !values_usable(&entry.strategy_sum) {
            return Err(BatchCheckpointError::InvalidValues);
        }
        proof {
            assert forall|other: Key| #[trigger] keys@.dom().contains(other) <==> exists|j: int|
                0 <= j < index + 1 && (#[trigger] entries@[j]).key() == other by {
                assert(keys@.dom().contains(other) <==> before.dom().contains(other) || other
                    == key);
            }
        }
        index = index + 1;
    }
    Ok(())
}

/// The entries that a table is written as, in the order of their keys.
pub fn batch_checkpoint_entries(infosets: &Table<InfoSetData>) -> (entries: Vec<
    MultiwayBatchInfoSetCheckpoint,
>)
    requires
        infosets.wf(),
        batch_keys(infosets.entries@),
    ensures
        batch_views(entries@) == entry_views(infosets.entries@),
        forall|i: int|
            0 <= i < entries@.len() ==> (#[trigger] entries@[i]).action_count
                == entries@[i].regret_sum@.len(),
{
    let mut entries: Vec<MultiwayBatchInfoSetCheckpoint> = Vec::new();
    let mut index: usize = 0;
    while index < infosets.entries.len()
        invariant
            index <= infosets.entries@.len(),
            batch_keys(infosets.entries@),
            batch_views(entries@) == entry_views(infosets.entries@.take(index as int)),
            forall|i: int|
                0 <= i < entries@.len() ==> (#[trigger] entries@[i]).action_count
                    == entries@[i].regret_sum@.len(),
        decreases infosets.entries.len() - index,
    {
        let key = infosets.entries[index].0;
        let data = &infosets.entries[index].1;
        assert(batch_key_ok(infosets.entries@[index as int].0));
        let ghost before = entries@;
        let entry = MultiwayBatchInfoSetCheckpoint {
            player: key.major as usize,
            public_node: key.middle as usize,
            private_cards: [(key.minor / 256) as u8, (key.minor % 256) as u8],
            action_count: data.regret_sum.len(),
            regret_sum: copy_words(&data.regret_sum),
            strategy_sum: copy_words(&data.strategy_sum),
            visits: data.visits,
        };
        assert(entry.key() == key);
        assert(entry.data() =~= data@);
        entries.push(entry);
        assert(batch_views(entries@) =~= batch_views(before).push((key, data@)));
        assert(entry_views(infosets.entries@.take(index as int + 1)) =~= entry_views(
            infosets.entries@.take(index as int),
        ).push((key, data@)));
        index = index + 1;
    }
    assert(infosets.entries@.take(index as int) =~= infosets.entries@);
    entries
}

/// The first entry from `from` on whose cards are no hand.
pub open spec fn first_bad_hand(entries: Seq<MultiwayBatchInfoSetCheckpoint>, from: int) -> Option<
    int,
>
    decreases entries.len() - from,
{
    if from >= entries.len() {
        None
    } else if !entries[from].hand().valid() {
        Some(from)
    } else {
        first_bad_hand(entries, from + 1)
    }
}

/// The table of checkpoint entries; a later entry of a key wins. Cards that are
/// no hand are an error, which says the entry.
pub fn restore_batch_entries(entries: &Vec<MultiwayBatchInfoSetCheckpoint>) -> (result: Result<
    Table<InfoSetData>,
    usize,
>)
    ensures
        match first_bad_hand(entries@, 0) {
            Some(index) => result == Err::<Table<InfoSetData>, usize>(index as usize),
            None => {
                &&& result matches Ok(infosets)
                &&& infosets.wf()
                &&& batch_keys(infosets.entries@)
                &&& table_view(infosets) == restored(batch_views(entries@))
            },
        },
{
    let mut infosets: Table<InfoSetData> = Table::new();
    let mut index: usize = 0;
    let ghost views = batch_views(entries@);
    assert(views.take(0) =~= Seq::<(Key, InfoSetView)>::empty());
    assert(table_view(infosets) =~= restored(views.take(0)));
    while index < entries.len()
        invariant
            index <= entries@.len(),
            views == batch_views(entries@),
            infosets.wf(),
            batch_keys(infosets.entries@),
            table_view(infosets) == restored(views.take(index as int)),
            first_bad_hand(entries@, 0) == first_bad_hand(entries@, index as int),
        decreases entries.len() - index,
    {
        let entry = &entries[index];
        let hand = Combo { first: entry.private_cards[0], second: entry.private_cards[1] };
        if hand.first >= 52 || hand.second >= 52 || hand.first == hand.second {
            return Err(index);
        }
        let key = make_batch_key(entry.player, entry.public_node, hand);
        assert(key == entry.key());
        assert(batch_key_ok(key));
        let regrets = copy_words(&entry.regret_sum);
        let strategies = copy_words(&entry.strategy_sum);
        let ghost before = infosets;
        let ghost data = entry.data();
        assert(views[index as int] == (key, data));
        assert(views.take(index as int + 1).drop_last() =~= views.take(index as int));
        match infosets.find(key) {
            Place::Found(place) => {
                set_entry(&mut infosets, place, regrets, strategies, entry.visits);
            },
            Place::Missing(place) => {
                let added = InfoSetData {
                    regret_sum: regrets,
                    strategy_sum: strategies,
                    visits: entry.visits,
                };
                assert(added@ =~= data);
                infosets.insert_at(place, key, added);
                assert forall|i: int| 0 <= i < infosets.entries@.len() implies batch_key_ok(
                    (#[trigger] infosets.entries@[i]).0,
                ) by {
                    if i < place {
                        assert(infosets.entries@[i] == before.entries@[i]);
                    } else if i > place {
                        assert(infosets.entries@[i] == before.entries@[i - 1]);
                    }
                }
            },
        }
        assert(infosets@[key]@ =~= data);
        assert(infosets@ =~= before@.insert(key, infosets@[key]));
        assert(table_view(infosets) =~= table_view(before).insert(key, data));
        index = index + 1;
    }
    assert(views.take(index as int) =~= views);
    Ok(infosets)
}

/// Entries written from a table have hands and come back as that table.
pub proof fn lemma_batch_entries_round_trip(
    infosets: Table<InfoSetData>,
    entries: Seq<MultiwayBatchInfoSetCheckpoint>,
)
    requires
        infosets.wf(),
        batch_keys(infosets.entries@),
        batch_views(entries) == entry_views(infosets.entries@),
    ensures
        first_bad_hand(entries, 0) is None,
        restored(batch_views(entries)) == table_view(infosets),
{
    crate::checkpoint::lemma_restore_undoes_checkpoint(infosets);
    assert(batch_views(entries).len() == entries.len());
    assert forall|i: int| 0 <= i < entries.len() implies (#[trigger] entries[i]).hand().valid() by {
        assert(batch_views(entries)[i].0 == entries[i].key());
        assert(entry_views(infosets.entries@)[i].0 == infosets.entries@[i].0);
        assert(batch_key_ok(infosets.entries@[i].0));
    }
    lemma_no_bad_hand(entries, 0);
}

proof fn lemma_no_bad_hand(entries: Seq<MultiwayBatchInfoSetCheckpoint>, from: int)
    requires
        0 <= from,
        forall|i: int| 0 <= i < entries.len() ==> (#[trigger] entries[i]).hand().valid(),
    ensures
        first_bad_hand(entries, from) is None,
    decreases entries.len() - from,
{
    if from < entries.len() {
        assert(entries[from].hand().valid());
        lemma_no_bad_hand(entries, from + 1);
    }
}

/// The information sets of a table are in order: players of the table, as many
/// sums as actions, all usable.
pub open spec fn batch_data_ok(infosets: Table<InfoSetData>, players: usize) -> bool {
    forall|i: int|
        0 <= i < infosets.entries@.len() ==> {
            let (key, data) = #[trigger] infosets.entries@[i];
            &&& key.major < players
            &&& data.regret_sum@.len() > 0
            &&& data.regret_sum@.len() == data.strategy_sum@.len()
            &&& all_usable(data.regret_sum@)
            &&& all_usable(data.strategy_sum@)
        }
}

/// Entries written from information sets that are in order are accepted.
pub proof fn lemma_batch_entries_accepted(
    infosets: Table<InfoSetData>,
    entries: Seq<MultiwayBatchInfoSetCheckpoint>,
    players: usize,
)
    requires
        infosets.wf(),
        batch_data_ok(infosets, players),
        batch_views(entries) == entry_views(infosets.entries@),
        forall|i: int|
            0 <= i < entries.len() ==> (#[trigger] entries[i]).action_count
                == entries[i].regret_sum@.len(),
    ensures
        batch_entries_error(entries, players, 0) is None,
{
    assert(batch_views(entries).len() == entries.len());
    assert forall|i: int| 0 <= i < entries.len() implies (#[trigger] entries[i]).action_count
        == entries[i].action_count && batch_entry_error(entries, players, i) is None by {
        let (key, data) = infosets.entries@[i];
        assert(batch_views(entries)[i] == (entries[i].key(), entries[i].data()));
        assert(entry_views(infosets.entries@)[i] == (key, data@));
        assert(entries[i].data().regret_sum == data.regret_sum@);
        assert(entries[i].data().strategy_sum == data.strategy_sum@);
        if batch_repeats(entries, i) {
            let j = choose|j: int| 0 <= j < i && (#[trigger] entries[j]).key() == entries[i].key();
            assert(batch_views(entries)[j] == (entries[j].key(), entries[j].data()));
            assert(entry_views(infosets.entries@)[j].0 == infosets.entries@[j].0);
            assert(infosets.entries@[j].0.below(infosets.entries@[i].0));
        }
    }
    lemma_no_batch_error(entries, players, 0);
}

/// One information set with usable sums leaves the others in order.
pub proof fn lemma_data_ok_after(
    before: Table<InfoSetData>,
    after: Table<InfoSetData>,
    key: Key,
    players: usize,
)
    requires
        before.wf(),
        after.wf(),
        batch_data_ok(before, players),
        key.major < players,
        after@.dom().contains(key),
        after@ == before@.insert(key, after@[key]),
        after@[key]@.regret_sum.len() > 0,
        after@[key]@.regret_sum.len() == after@[key]@.strategy_sum.len(),
        all_usable(after@[key]@.regret_sum),
        all_usable(after@[key]@.strategy_sum),
    ensures
        batch_data_ok(after, players),
{
    assert forall|i: int| 0 <= i < after.entries@.len() implies {
        let (k, data) = #[trigger] after.entries@[i];
        &&& k.major < players
        &&& data.regret_sum@.len() > 0
        &&& data.regret_sum@.len() == data.strategy_sum@.len()
        &&& all_usable(data.regret_sum@)
        &&& all_usable(data.strategy_sum@)
    } by {
        let (k, data) = after.entries@[i];
        lemma_entry(after, i);
        if k == key {
            assert(data@ == after@[key]@);
        } else {
            assert(before@.dom().contains(k));
            assert(before@[k] == data);
            let j = choose|j: int|
                0 <= j < before.entries@.len() && (#[trigger] before.entries@[j]).0 == k;
            lemma_entry(before, j);
            assert(before.entries@[j].1 == data);
        }
    }
}

proof fn lemma_batch_entry_passes(
    entries: Seq<MultiwayBatchInfoSetCheckpoint>,
    players: usize,
    from: int,
    index: int,
)
    requires
        0 <= from <= index < entries.len(),
        batch_entries_error(entries, players, from) is None,
    ensures
        batch_entry_error(entries, players, index) is None,
    decreases index - from,
{
    if from < index {
        lemma_batch_entry_passes(entries, players, from + 1, index);
    }
}

/// Information sets that come from an accepted checkpoint are in order.
pub proof fn lemma_restored_data_ok(
    entries: Seq<MultiwayBatchInfoSetCheckpoint>,
    players: usize,
    infosets: Table<InfoSetData>,
)
    requires
        infosets.wf(),
        batch_entries_error(entries, players, 0) is None,
        table_view(infosets) == restored(batch_views(entries)),
    ensures
        batch_data_ok(infosets, players),
{
    let views = batch_views(entries);
    assert forall|i: int| 0 <= i < infosets.entries@.len() implies {
        let (key, data) = #[trigger] infosets.entries@[i];
        &&& key.major < players
        &&& data.regret_sum@.len() > 0
        &&& data.regret_sum@.len() == data.strategy_sum@.len()
        &&& all_usable(data.regret_sum@)
        &&& all_usable(data.strategy_sum@)
    } by {
        let (key, data) = infosets.entries@[i];
        lemma_entry(infosets, i);
        assert(table_view(infosets).dom().contains(key));
        assert(table_view(infosets)[key] == data@);
        crate::checkpoint::lemma_restored_from(views, key);
        let j = choose|j: int| 0 <= j < views.len() && #[trigger] views[j] == (key, restored(views)[key]);
        assert(views[j] == (entries[j].key(), entries[j].data()));
        lemma_batch_entry_passes(entries, players, 0, j);
        assert(data@.regret_sum == entries[j].regret_sum@);
        assert(data@.strategy_sum == entries[j].strategy_sum@);
    }
}

proof fn lemma_no_batch_error(
    entries: Seq<MultiwayBatchInfoSetCheckpoint>,
    players: usize,
    from: int,
)
    requires
        0 <= from <= entries.len(),
        forall|i: int|
            0 <= i < entries.len() ==> (#[trigger] entries[i]).action_count
                == entries[i].action_count && batch_entry_error(entries, players, i) is None,
    ensures
        batch_entries_error(entries, players, from) is None,
    decreases entries.len() - from,
{
    if from < entries.len() {
        assert(entries[from].action_count == entries[from].action_count);
        lemma_no_batch_error(entries, players, from + 1);
    }
}

} // verus!
