//! Information sets of the two-player solvers and their checkpoints.
use vstd::prelude::*;

use crate::bits::{below_zero, finite, is_below_zero, is_finite};
use crate::game::{game_error, GameError, GameNode, InfoSetId, StaticGame};
use crate::table::{lemma_entry, Key, Place, Table};

verus! {

pub const CHECKPOINT_FORMAT_VERSION: u32 = 1;

#[derive(Debug, Clone, Copy, PartialEq, Eq, Structural)]
pub enum SolverAlgorithm {
    CfrPlus,
    ExternalSamplingMccfr,
}

/// Accumulated regrets and strategy weights, as IEEE-754 bits.
#[derive(Debug)]
pub struct InfoSetData {
    pub regret_sum: Vec<u64>,
    pub strategy_sum: Vec<u64>,
    pub visits: u64,
}

#[verifier::ext_equal]
pub struct InfoSetView {
    pub regret_sum: Seq<u64>,
    pub strategy_sum: Seq<u64>,
    pub visits: u64,
}

impl View for InfoSetData {
    type V = InfoSetView;

    open spec fn view(&self) -> InfoSetView {
        InfoSetView {
            regret_sum: self.regret_sum@,
            strategy_sum: self.strategy_sum@,
            visits: self.visits,
        }
    }
}

/// `count` zeros.
pub fn zeros(count: usize) -> (values: Vec<u64>)
    ensures
        values@ == Seq::new(count as nat, |i: int| 0u64),
{
    let mut values: Vec<u64> = Vec::new();
    let mut index: usize = 0;
    while index < count
        invariant
            index <= count,
            values@ == Seq::new(index as nat, |i: int| 0u64),
        decreases count - index,
    {
        values.push(0);
        index = index + 1;
        assert(values@ =~= Seq::new(index as nat, |i: int| 0u64));
    }
    values
}

/// A copy of `values`.
pub fn copy_words(values: &Vec<u64>) -> (copy: Vec<u64>)
    ensures
        copy@ == values@,
{
    let copy = values.clone();
    assert(copy@ =~= values@);
    copy
}

impl InfoSetData {
    /// An information set that was never visited.
    pub fn new(action_count: usize) -> (data: Self)
        ensures
            data@ == fresh_infoset(action_count),
    {
        let data = InfoSetData {
            regret_sum: zeros(action_count),
            strategy_sum: zeros(action_count),
            visits: 0,
        };
        assert(data@ =~= fresh_infoset(action_count));
        data
    }
}

impl Clone for InfoSetData {
    fn clone(&self) -> (copy: Self)
        ensures
            copy@ == self@,
    {
        let copy = InfoSetData {
            regret_sum: copy_words(&self.regret_sum),
            strategy_sum: copy_words(&self.strategy_sum),
            visits: self.visits,
        };
        assert(copy@ =~= self@);
        copy
    }
}

pub open spec fn fresh_infoset(action_count: usize) -> InfoSetView {
    InfoSetView {
        regret_sum: Seq::new(action_count as nat, |i: int| 0u64),
        strategy_sum: Seq::new(action_count as nat, |i: int| 0u64),
        visits: 0,
    }
}

/// The key of an information set.
pub open spec fn infoset_key(player: usize, infoset: u64) -> Key {
    Key { major: player as u64, middle: infoset, minor: 0 }
}

/// The entries of a table, data by their meaning.
pub open spec fn entry_views(entries: Seq<(Key, InfoSetData)>) -> Seq<(Key, InfoSetView)> {
    entries.map(|i: int, entry: (Key, InfoSetData)| (entry.0, entry.1@))
}

/// Every key of the table is the key of an information set.
pub open spec fn infoset_keys(entries: Seq<(Key, InfoSetData)>) -> bool {
    forall|i: int|
        0 <= i < entries.len() ==> (#[trigger] entries[i]).0.minor == 0 && entries[i].0.major
            <= usize::MAX
}

#[derive(Debug, Clone, Copy, PartialEq, Eq, Structural)]
pub enum SolverError {
    /// A node offers another number of actions than its information set has.
    ActionCountChange { infoset: u64, known: usize, offered: usize },
    UnsupportedVersion { version: u32 },
    InvalidPlayer { player: usize },
    DuplicateInfoSet { player: usize, infoset: u64 },
    InvalidActionVectors { player: usize, infoset: u64 },
    InvalidValues { player: usize, infoset: u64 },
    UnexpectedRngState,
    MissingRngState,
    ZeroRngState,
    Game { error: GameError },
    AlgorithmMismatch { written_by: SolverAlgorithm, resumed_by: SolverAlgorithm },
    GameMismatch,
    ConfigMismatch,
    DealsMismatch,
    InconsistentActionCount { player: usize, infoset: u64 },
    UnknownInfoSet { player: usize, infoset: u64 },
    ActionCountMismatch { player: usize, infoset: u64, found: usize, expected: usize },
    UnknownNode { node: usize },
    NotADecision { node: usize },
}

/// Finds an information set, or adds it unvisited; its number of actions must
/// be `action_count`.
pub fn open_infoset(
    infosets: &mut Table<InfoSetData>,
    player: usize,
    infoset: InfoSetId,
    action_count: usize,
) -> (result: Result<usize, SolverError>)
    requires
        old(infosets).wf(),
        infoset_keys(old(infosets).entries@),
    ensures
        final(infosets).wf(),
        infoset_keys(final(infosets).entries@),
        ({
            let key = infoset_key(player, infoset);
            if old(infosets)@.dom().contains(key) {
                let data = old(infosets)@[key];
                &&& *final(infosets) == *old(infosets)
                &&& if data.regret_sum@.len() == action_count {
                    result matches Ok(index) && index < final(infosets).entries@.len()
                        && final(infosets).entries@[index as int] == (key, data)
                } else {
                    result == Err::<usize, SolverError>(
                        SolverError::ActionCountChange {
                            infoset,
                            known: data.regret_sum@.len() as usize,
                            offered: action_count,
                        },
                    )
                }
            } else {
                &&& result matches Ok(index)
                &&& index < final(infosets).entries@.len()
                &&& final(infosets).entries@[index as int].0 == key
                &&& final(infosets).entries@[index as int].1@ == fresh_infoset(action_count)
                &&& final(infosets)@ == old(infosets)@.insert(
                    key,
                    final(infosets).entries@[index as int].1,
                )
            }
        }),
{
    let key = Key { major: player as u64, middle: infoset, minor: 0 };
    match infosets.find(key) {
        Place::Found(index) => {
            let known = infosets.entries[index].1.regret_sum.len();
            if known != action_count {
                return Err(
                    SolverError::ActionCountChange { infoset, known, offered: action_count },
                );
            }
            Ok(index)
        },
        Place::Missing(index) => {
            infosets.insert_at(index, key, InfoSetData::new(action_count));
            assert forall|i: int| 0 <= i < infosets.entries@.len() implies (
            #[trigger] infosets.entries@[i]).0.minor == 0 && infosets.entries@[i].0.major
                <= usize::MAX by {
                if i < index {
                    assert(infosets.entries@[i] == old(infosets).entries@[i]);
                } else if i > index {
                    assert(infosets.entries@[i] == old(infosets).entries@[i - 1]);
                }
            }
            Ok(index)
        },
    }
}

#[derive(Debug, Clone)]
pub struct InfoSetCheckpoint {
    pub player: usize,
    pub infoset: InfoSetId,
    pub regret_sum: Vec<u64>,
    pub strategy_sum: Vec<u64>,
    pub visits: u64,
}

impl InfoSetCheckpoint {
    pub open spec fn key(self) -> Key {
        infoset_key(self.player, self.infoset)
    }

    pub open spec fn data(self) -> InfoSetView {
        InfoSetView {
            regret_sum: self.regret_sum@,
            strategy_sum: self.strategy_sum@,
            visits: self.visits,
        }
    }
}

/// The entries of a checkpoint as keys and data.
pub open spec fn checkpoint_views(entries: Seq<InfoSetCheckpoint>) -> Seq<(Key, InfoSetView)> {
    entries.map(|i: int, entry: InfoSetCheckpoint| (entry.key(), entry.data()))
}

#[derive(Debug, Clone)]
pub struct SolverCheckpoint {
    pub format_version: u32,
    pub algorithm: SolverAlgorithm,
    pub game_fingerprint: u64,
    /// Hash of the tree, the action abstraction and the configuration. Zero
    /// where the caller gave none.
    pub config_fingerprint: u64,
    pub iterations: u64,
    pub infosets: Vec<InfoSetCheckpoint>,
    pub rng_state: Option<u64>,
}

/// Finite and not below zero.
pub open spec fn usable(bits: u64) -> bool {
    finite(bits) && !below_zero(bits)
}

pub open spec fn all_usable(values: Seq<u64>) -> bool {
    forall|i: int| 0 <= i < values.len() ==> usable(#[trigger] values[i])
}

/// An earlier entry has the key of entry `index`.
pub open spec fn repeats(entries: Seq<InfoSetCheckpoint>, index: int) -> bool {
    exists|j: int| 0 <= j < index && (#[trigger] entries[j]).key() == entries[index].key()
}

/// What is wrong with entry `index` of a game of `players` players.
pub open spec fn entry_error(
    entries: Seq<InfoSetCheckpoint>,
    players: usize,
    index: int,
) -> Option<SolverError> {
    let entry = entries[index];
    let player = entry.player;
    let infoset = entry.infoset;
    if player >= players {
        Some(SolverError::InvalidPlayer { player })
    } else if repeats(entries, index) {
        Some(SolverError::DuplicateInfoSet { player, infoset })
    } else if entry.regret_sum@.len() == 0 || entry.regret_sum@.len() != entry.strategy_sum@.len() {
        Some(SolverError::InvalidActionVectors { player, infoset })
    } else if !all_usable(entry.regret_sum@) || !all_usable(entry.strategy_sum@) {
        Some(SolverError::InvalidValues { player, infoset })
    } else {
        None
    }
}

pub open spec fn entries_error(
    entries: Seq<InfoSetCheckpoint>,
    players: usize,
    from: int,
) -> Option<SolverError>
    decreases entries.len() - from,
{
    if from >= entries.len() {
        None
    } else {
        match entry_error(entries, players, from) {
            Some(error) => Some(error),
            None => entries_error(entries, players, from + 1),
        }
    }
}

/// What is wrong with the generator state of a checkpoint.
pub open spec fn rng_error(algorithm: SolverAlgorithm, rng_state: Option<u64>) -> Option<
    SolverError,
> {
    match (algorithm, rng_state) {
        (SolverAlgorithm::CfrPlus, Some(_)) => Some(SolverError::UnexpectedRngState),
        (SolverAlgorithm::CfrPlus, None) => None,
        (SolverAlgorithm::ExternalSamplingMccfr, None) => Some(SolverError::MissingRngState),
        (SolverAlgorithm::ExternalSamplingMccfr, Some(state)) => if state == 0 {
            Some(SolverError::ZeroRngState)
        } else {
            None
        },
    }
}

pub open spec fn checkpoint_error(checkpoint: SolverCheckpoint) -> Option<SolverError> {
    if checkpoint.format_version != CHECKPOINT_FORMAT_VERSION {
        Some(SolverError::UnsupportedVersion { version: checkpoint.format_version })
    } else {
        match entries_error(checkpoint.infosets@, 2, 0) {
            Some(error) => Some(error),
            None => rng_error(checkpoint.algorithm, checkpoint.rng_state),
        }
    }
}

/// All values are finite and not below zero.
pub fn values_usable(values: &Vec<u64>) -> (yes: bool)
    ensures
        yes == all_usable(values@),
{
    let mut index: usize = 0;
    while index < values.len()
        invariant
            index <= values@.len(),
            forall|i: int| 0 <= i < index ==> usable(#[trigger] values@[i]),
        decreases values.len() - index,
    {
        if !is_finite(values[index]) || is_below_zero(values[index]) {
            assert(!usable(values@[index as int]));
            return false;
        }
        index = index + 1;
    }
    true
}

/// Checks the entries of a checkpoint of a game of `players` players.
pub fn validate_entries(entries: &Vec<InfoSetCheckpoint>, players: usize) -> (result: Result<
    (),
    SolverError,
>)
    ensures
        match result {
            Ok(_) => entries_error(entries@, players, 0) is None,
            Err(error) => entries_error(entries@, players, 0) == Some(error),
        },
{
    let mut keys: Table<()> = Table::new();
    let mut index: usize = 0;
    while index < entries.len()
        invariant
            index <= entries@.len(),
            keys.wf(),
            forall|key: Key| #[trigger]
                keys@.dom().contains(key) <==> exists|j: int|
                    0 <= j < index && (#[trigger] entries@[j]).key() == key,
            entries_error(entries@, players, 0) == entries_error(entries@, players, index as int),
        decreases entries.len() - index,
    {
        let entry = &entries[index];
        let player = entry.player;
        let infoset = entry.infoset;
        if player >= players {
            return Err(SolverError::InvalidPlayer { player });
        }
        let key = Key { major: player as u64, middle: infoset, minor: 0 };
        let ghost before = keys@;
        if !keys.insert_new(key, ()) {
            return Err(SolverError::DuplicateInfoSet { player, infoset });
        }
        if entry.regret_sum.len() == 0 || entry.regret_sum.len() != entry.strategy_sum.len() {
            return Err(SolverError::InvalidActionVectors { player, infoset });
        }
        if !values_usable(&entry.regret_sum) || !values_usable(&entry.strategy_sum) {
            return Err(SolverError::InvalidValues { player, infoset });
        }
        proof {
            assert(entries@[index as int].key() == key);
            assert forall|other: Key| #[trigger] keys@.dom().contains(other) <==> exists|j: int|
                0 <= j < index + 1 && (#[trigger] entries@[j]).key() == other by {
                assert(keys@.dom().contains(other) <==> before.dom().contains(other) || other
                    == key);
            }
        }
        index = index + 1;
    }
    Ok(())
}

impl SolverCheckpoint {
    pub fn validate(&self) -> (result: Result<(), SolverError>)
        ensures
            match result {
                Ok(_) => checkpoint_error(*self) is None,
                Err(error) => checkpoint_error(*self) == Some(error),
            },
    {
        if self.format_version != CHECKPOINT_FORMAT_VERSION {
            return Err(SolverError::UnsupportedVersion { version: self.format_version });
        }
        match validate_entries(&self.infosets, 2) {
            Ok(_) => {},
            Err(error) => {
                return Err(error);
            },
        }
        match (self.algorithm, self.rng_state) {
            (SolverAlgorithm::CfrPlus, Some(_)) => Err(SolverError::UnexpectedRngState),
            (SolverAlgorithm::CfrPlus, None) => Ok(()),
            (SolverAlgorithm::ExternalSamplingMccfr, None) => Err(SolverError::MissingRngState),
            (SolverAlgorithm::ExternalSamplingMccfr, Some(state)) => {
                if state == 0 {
                    Err(SolverError::ZeroRngState)
                } else {
                    Ok(())
                }
            },
        }
    }
}

/// The entries of a table, in the order of their keys.
pub fn checkpoint_entries(infosets: &Table<InfoSetData>) -> (entries: Vec<InfoSetCheckpoint>)
    requires
        infoset_keys(infosets.entries@),
    ensures
        checkpoint_views(entries@) == entry_views(infosets.entries@),
{
    let mut entries: Vec<InfoSetCheckpoint> = Vec::new();
    let mut index: usize = 0;
    while index < infosets.entries.len()
        invariant
            index <= infosets.entries@.len(),
            infoset_keys(infosets.entries@),
            checkpoint_views(entries@) == entry_views(infosets.entries@).take(index as int),
        decreases infosets.entries.len() - index,
    {
        let key = infosets.entries[index].0;
        let data = &infosets.entries[index].1;
        assert(infosets.entries@[index as int].0.major <= usize::MAX);
        let ghost before = entries@;
        let entry = InfoSetCheckpoint {
            player: key.major as usize,
            infoset: key.middle,
            regret_sum: copy_words(&data.regret_sum),
            strategy_sum: copy_words(&data.strategy_sum),
            visits: data.visits,
        };
        assert(entry.data() =~= data@);
        assert(entry.key() == key);
        entries.push(entry);
        assert(checkpoint_views(entries@) =~= checkpoint_views(before).push((key, data@)));
        assert(entry_views(infosets.entries@).take(index as int + 1) =~= entry_views(
            infosets.entries@,
        ).take(index as int).push((key, data@)));
        index = index + 1;
    }
    assert(entry_views(infosets.entries@).take(index as int) =~= entry_views(infosets.entries@));
    entries
}

/// The checkpoint of a solver, its entries in the order of their keys.
pub fn checkpoint_from_infosets(
    algorithm: SolverAlgorithm,
    game: &StaticGame,
    config_fingerprint: u64,
    iterations: u64,
    infosets: &Table<InfoSetData>,
    rng_state: Option<u64>,
) -> (checkpoint: SolverCheckpoint)
    requires
        infoset_keys(infosets.entries@),
    ensures
        checkpoint.format_version == CHECKPOINT_FORMAT_VERSION,
        checkpoint.algorithm == algorithm,
        checkpoint.game_fingerprint == game.spec_fingerprint(),
        checkpoint.config_fingerprint == config_fingerprint,
        checkpoint.iterations == iterations,
        checkpoint.rng_state == rng_state,
        checkpoint_views(checkpoint.infosets@) == entry_views(infosets.entries@),
{
    SolverCheckpoint {
        format_version: CHECKPOINT_FORMAT_VERSION,
        algorithm,
        game_fingerprint: game.fingerprint(),
        config_fingerprint,
        iterations,
        infosets: checkpoint_entries(infosets),
        rng_state,
    }
}

/// The information set of a decision node and its number of actions.
#[derive(Debug, Clone, Copy, PartialEq, Eq, Structural)]
pub struct DecisionKey {
    pub player: usize,
    pub infoset: u64,
    pub actions: usize,
}

/// What each node decides; nothing at chance nodes and leaves.
pub open spec fn decisions_of(nodes: Seq<GameNode>) -> Seq<Option<DecisionKey>> {
    nodes.map(
        |i: int, node: GameNode|
            match node {
                GameNode::Decision { player, infoset, children } => Some(
                    DecisionKey { player, infoset, actions: children@.len() as usize },
                ),
                _ => None,
            },
    )
}

/// Lists what each node decides.
pub fn list_decisions(nodes: &[GameNode]) -> (decisions: Vec<Option<DecisionKey>>)
    ensures
        decisions@ == decisions_of(nodes@),
{
    let mut decisions: Vec<Option<DecisionKey>> = Vec::new();
    let mut index: usize = 0;
    while index < nodes.len()
        invariant
            index <= nodes@.len(),
            decisions@ == decisions_of(nodes@).take(index as int),
        decreases nodes.len() - index,
    {
        let decision = match &nodes[index] {
            GameNode::Decision { player, infoset, children } => Some(
                DecisionKey { player: *player, infoset: *infoset, actions: children.len() },
            ),
            _ => None,
        };
        let ghost before = decisions@;
        decisions.push(decision);
        assert(decisions_of(nodes@).take(index as int + 1) =~= before.push(
            decisions_of(nodes@)[index as int],
        ));
        index = index + 1;
    }
    assert(decisions_of(nodes@).take(index as int) =~= decisions_of(nodes@));
    decisions
}

/// The key of a decision and its number of actions.
pub open spec fn decision_key(decision: Option<DecisionKey>) -> Option<(Key, nat)> {
    match decision {
        Some(DecisionKey { player, infoset, actions }) => Some(
            (infoset_key(player, infoset), actions as nat),
        ),
        None => None,
    }
}

/// Some node before `until` gives `key` the number of actions `count`.
pub open spec fn key_has_count(nodes: Seq<Option<DecisionKey>>, until: int, key: Key, count: nat) -> bool {
    exists|i: int|
        0 <= i < until && i < nodes.len() && #[trigger] decision_key(nodes[i]) == Some((key, count))
}

/// The first decision node from `from` on whose information set had another
/// number of actions before.
pub open spec fn count_error(nodes: Seq<Option<DecisionKey>>, from: int) -> Option<SolverError>
    decreases nodes.len() - from,
{
    if from >= nodes.len() {
        None
    } else {
        match nodes[from] {
            Some(DecisionKey { player, infoset, actions }) => if exists|count: nat|
                count != actions && #[trigger] key_has_count(
                    nodes,
                    from,
                    infoset_key(player, infoset),
                    count,
                ) {
                Some(SolverError::InconsistentActionCount { player, infoset })
            } else {
                count_error(nodes, from + 1)
            },
            None => count_error(nodes, from + 1),
        }
    }
}

/// The first entry from `from` on that does not fit the nodes.
pub open spec fn fit_error(
    nodes: Seq<Option<DecisionKey>>,
    entries: Seq<InfoSetCheckpoint>,
    from: int,
) -> Option<SolverError>
    decreases entries.len() - from,
{
    if from >= entries.len() {
        None
    } else {
        let entry = entries[from];
        let player = entry.player;
        let infoset = entry.infoset;
        let found = entry.regret_sum@.len();
        if key_has_count(nodes, nodes.len() as int, entry.key(), found) {
            fit_error(nodes, entries, from + 1)
        } else if exists|count: nat| #[trigger]
            key_has_count(nodes, nodes.len() as int, entry.key(), count) {
            let expected = choose|count: nat| #[trigger]
                key_has_count(nodes, nodes.len() as int, entry.key(), count);
            Some(
                SolverError::ActionCountMismatch {
                    player,
                    infoset,
                    found: found as usize,
                    expected: expected as usize,
                },
            )
        } else {
            Some(SolverError::UnknownInfoSet { player, infoset })
        }
    }
}

/// Why a checkpoint cannot be resumed with a game.
pub open spec fn resume_error(
    checkpoint: SolverCheckpoint,
    expected_algorithm: SolverAlgorithm,
    game: StaticGame,
    sums_ok: Seq<bool>,
    expected_config_fingerprint: u64,
) -> Option<SolverError> {
    match game_error(game, sums_ok) {
        Some(error) => Some(SolverError::Game { error }),
        None => match checkpoint_error(checkpoint) {
            Some(error) => Some(error),
            None => if checkpoint.algorithm != expected_algorithm {
                Some(
                    SolverError::AlgorithmMismatch {
                        written_by: checkpoint.algorithm,
                        resumed_by: expected_algorithm,
                    },
                )
            } else if checkpoint.game_fingerprint != game.spec_fingerprint() {
                Some(SolverError::GameMismatch)
            } else if checkpoint.config_fingerprint != expected_config_fingerprint {
                Some(SolverError::ConfigMismatch)
            } else {
                match count_error(decisions_of(game.nodes@), 0) {
                    Some(error) => Some(error),
                    None => fit_error(decisions_of(game.nodes@), checkpoint.infosets@, 0),
                }
            },
        },
    }
}

/// Every key of the first `until` nodes has one number of actions.
pub open spec fn counts_agree(nodes: Seq<Option<DecisionKey>>, until: int) -> bool {
    forall|key: Key, a: nat, b: nat| #[trigger]
        key_has_count(nodes, until, key, a) && #[trigger] key_has_count(nodes, until, key, b)
            ==> a == b
}

proof fn lemma_count_step(nodes: Seq<Option<DecisionKey>>, index: int)
    requires
        0 <= index < nodes.len(),
    ensures
        forall|key: Key, count: nat| #[trigger]
            key_has_count(nodes, index + 1, key, count) <==> key_has_count(nodes, index, key, count)
                || decision_key(nodes[index]) == Some((key, count)),
{
    assert forall|key: Key, count: nat| #[trigger]
        key_has_count(nodes, index + 1, key, count) <==> key_has_count(nodes, index, key, count)
            || decision_key(nodes[index]) == Some((key, count)) by {
        if key_has_count(nodes, index + 1, key, count) {
            let i = choose|i: int|
                0 <= i < index + 1 && i < nodes.len() && #[trigger] decision_key(nodes[i]) == Some(
                    (key, count),
                );
            if i < index {
                assert(key_has_count(nodes, index, key, count));
            }
        }
        if key_has_count(nodes, index, key, count) {
            let i = choose|i: int|
                0 <= i < index && i < nodes.len() && #[trigger] decision_key(nodes[i]) == Some(
                    (key, count),
                );
            assert(decision_key(nodes[i]) == Some((key, count)));
        }
        if decision_key(nodes[index]) == Some((key, count)) {
            assert(key_has_count(nodes, index + 1, key, count));
        }
    }
}

/// Collects the number of actions of each information set.
pub fn action_counts(nodes: &Vec<Option<DecisionKey>>) -> (result: Result<Table<usize>, SolverError>)
    ensures
        match result {
            Ok(counts) => {
                &&& count_error(nodes@, 0) is None
                &&& counts.wf()
                &&& counts_agree(nodes@, nodes@.len() as int)
                &&& forall|key: Key, count: nat| #[trigger]
                    key_has_count(nodes@, nodes@.len() as int, key, count)
                        <==> counts@.dom().contains(key) && counts@[key] == count
            },
            Err(error) => count_error(nodes@, 0) == Some(error),
        },
{
    let mut counts: Table<usize> = Table::new();
    let mut index: usize = 0;
    while index < nodes.len()
        invariant
            index <= nodes@.len(),
            counts.wf(),
            forall|key: Key, count: nat| #[trigger]
                key_has_count(nodes@, index as int, key, count) <==> counts@.dom().contains(key)
                    && counts@[key] == count,
            count_error(nodes@, 0) == count_error(nodes@, index as int),
        decreases nodes.len() - index,
    {
        proof {
            lemma_count_step(nodes@, index as int);
        }
        if let Some(decision) = nodes[index] {
            let player = decision.player;
            let infoset = decision.infoset;
            let key = Key { major: player as u64, middle: infoset, minor: 0 };
            let count = decision.actions;
            match counts.find(key) {
                Place::Found(place) => {
                    let known = counts.entries[place].1;
                    assert(key_has_count(nodes@, index as int, key, known as nat));
                    if known != count {
                        return Err(SolverError::InconsistentActionCount { player, infoset });
                    }
                },
                Place::Missing(place) => {
                    let ghost before = counts@;
                    counts.insert_at(place, key, count);
                    assert forall|other: nat| !key_has_count(nodes@, index as int, key, other) by {
                        assert(!before.dom().contains(key));
                    }
                },
            }
        }
        index = index + 1;
    }
    Ok(counts)
}

/// Checks that a checkpoint can be resumed with `game`.
pub fn validate_checkpoint_for_game(
    checkpoint: &SolverCheckpoint,
    expected_algorithm: SolverAlgorithm,
    game: &StaticGame,
    sums_ok: &[bool],
    expected_config_fingerprint: u64,
) -> (result: Result<(), SolverError>)
    requires
        sums_ok@.len() == game.nodes@.len(),
    ensures
        match result {
            Ok(_) => resume_error(
                *checkpoint,
                expected_algorithm,
                *game,
                sums_ok@,
                expected_config_fingerprint,
            ) is None,
            Err(error) => resume_error(
                *checkpoint,
                expected_algorithm,
                *game,
                sums_ok@,
                expected_config_fingerprint,
            ) == Some(error),
        },
{
    match game.validate(sums_ok) {
        Ok(_) => {},
        Err(error) => {
            return Err(SolverError::Game { error });
        },
    }
    match checkpoint.validate() {
        Ok(_) => {},
        Err(error) => {
            return Err(error);
        },
    }
    if checkpoint.algorithm != expected_algorithm {
        return Err(
            SolverError::AlgorithmMismatch {
                written_by: checkpoint.algorithm,
                resumed_by: expected_algorithm,
            },
        );
    }
    if checkpoint.game_fingerprint != game.fingerprint() {
        return Err(SolverError::GameMismatch);
    }
    if checkpoint.config_fingerprint != expected_config_fingerprint {
        return Err(SolverError::ConfigMismatch);
    }
    let decisions = list_decisions(game.nodes());
    let counts = match action_counts(&decisions) {
        Ok(counts) => counts,
        Err(error) => {
            return Err(error);
        },
    };
    check_fit(&decisions, &counts, &checkpoint.infosets)
}

/// Checks that every entry fits the decisions that `counts` was made from.
pub fn check_fit(
    decisions: &Vec<Option<DecisionKey>>,
    counts: &Table<usize>,
    entries: &Vec<InfoSetCheckpoint>,
) -> (result: Result<(), SolverError>)
    requires
        counts.wf(),
        counts_agree(decisions@, decisions@.len() as int),
        forall|key: Key, count: nat| #[trigger]
            key_has_count(decisions@, decisions@.len() as int, key, count)
                <==> counts@.dom().contains(key) && counts@[key] == count,
    ensures
        match result {
            Ok(_) => fit_error(decisions@, entries@, 0) is None,
            Err(error) => fit_error(decisions@, entries@, 0) == Some(error),
        },
{
    let ghost nodes = decisions@;
    let mut index: usize = 0;
    while index < entries.len()
        invariant
            index <= entries@.len(),
            counts.wf(),
            counts_agree(nodes, nodes.len() as int),
            forall|key: Key, count: nat| #[trigger]
                key_has_count(nodes, nodes.len() as int, key, count) <==> counts@.dom().contains(
                    key,
                ) && counts@[key] == count,
            nodes == decisions@,
            fit_error(nodes, entries@, 0) == fit_error(nodes, entries@, index as int),
        decreases entries.len() - index,
    {
        let entry = &entries[index];
        let player = entry.player;
        let infoset = entry.infoset;
        let found = entry.regret_sum.len();
        let key = Key { major: player as u64, middle: infoset, minor: 0 };
        assert(key == entry.key());
        match counts.get(key) {
            None => {
                return Err(SolverError::UnknownInfoSet { player, infoset });
            },
            Some(expected) => {
                assert(key_has_count(nodes, nodes.len() as int, key, *expected as nat));
                if *expected != found {
                    return Err(
                        SolverError::ActionCountMismatch {
                            player,
                            infoset,
                            found,
                            expected: *expected,
                        },
                    );
                }
            },
        }
        index = index + 1;
    }
    Ok(())
}

/// The table that entries add up to; a later entry of a key wins.
pub open spec fn restored(entries: Seq<(Key, InfoSetView)>) -> Map<Key, InfoSetView>
    decreases entries.len(),
{
    if entries.len() == 0 {
        Map::empty()
    } else {
        restored(entries.drop_last()).insert(entries.last().0, entries.last().1)
    }
}

/// A table by the meaning of its data.
pub open spec fn table_view(table: Table<InfoSetData>) -> Map<Key, InfoSetView> {
    table@.map_values(|data: InfoSetData| data@)
}

/// The information sets of a checkpoint.
pub fn infosets_from_checkpoint(checkpoint: &SolverCheckpoint) -> (infosets: Table<InfoSetData>)
    ensures
        infosets.wf(),
        infoset_keys(infosets.entries@),
        table_view(infosets) == restored(checkpoint_views(checkpoint.infosets@)),
{
    restore_entries(&checkpoint.infosets)
}

/// The table of checkpoint entries; a later entry of a key wins.
pub fn restore_entries(entries: &Vec<InfoSetCheckpoint>) -> (infosets: Table<InfoSetData>)
    ensures
        infosets.wf(),
        infoset_keys(infosets.entries@),
        table_view(infosets) == restored(checkpoint_views(entries@)),
{
    let mut infosets: Table<InfoSetData> = Table::new();
    let mut index: usize = 0;
    let ghost views = checkpoint_views(entries@);
    assert(views.take(0) =~= Seq::<(Key, InfoSetView)>::empty());
    assert(table_view(infosets) =~= restored(views.take(0)));
    while index < entries.len()
        invariant
            index <= entries@.len(),
            views == checkpoint_views(entries@),
            infosets.wf(),
            infoset_keys(infosets.entries@),
            table_view(infosets) == restored(views.take(index as int)),
        decreases entries.len() - index,
    {
        let entry = &entries[index];
        let key = Key { major: entry.player as u64, middle: entry.infoset, minor: 0 };
        let data = InfoSetData {
            regret_sum: copy_words(&entry.regret_sum),
            strategy_sum: copy_words(&entry.strategy_sum),
            visits: entry.visits,
        };
        let ghost before = infosets;
        assert(data@ =~= entry.data());
        assert(views[index as int] == (key, data@));
        assert(views.take(index as int + 1).drop_last() =~= views.take(index as int));
        let ghost added = data;
        match infosets.find(key) {
            Place::Found(place) => {
                infosets.replace_at(place, data);
            },
            Place::Missing(place) => {
                infosets.insert_at(place, key, data);
                assert forall|i: int| 0 <= i < infosets.entries@.len() implies (
                #[trigger] infosets.entries@[i]).0.minor == 0 && infosets.entries@[i].0.major
                    <= usize::MAX by {
                    if i < place {
                        assert(infosets.entries@[i] == before.entries@[i]);
                    } else if i > place {
                        assert(infosets.entries@[i] == before.entries@[i - 1]);
                    }
                }
            },
        }
        assert(infosets@ == before@.insert(key, added));
        assert(table_view(infosets) =~= table_view(before).insert(key, added@));
        index = index + 1;
    }
    assert(views.take(index as int) =~= views);
    infosets
}

proof fn lemma_restored_entry(entries: Seq<(Key, InfoSetView)>, key: Key)
    requires
        forall|i: int, j: int|
            0 <= i < j < entries.len() ==> (#[trigger] entries[i]).0.below(
                (#[trigger] entries[j]).0,
            ),
    ensures
        restored(entries).dom().contains(key) <==> exists|i: int|
            0 <= i < entries.len() && (#[trigger] entries[i]).0 == key,
        forall|i: int|
            0 <= i < entries.len() && (#[trigger] entries[i]).0 == key ==> restored(entries)[key]
                == entries[i].1,
    decreases entries.len(),
{
    if entries.len() > 0 {
        let rest = entries.drop_last();
        assert forall|i: int, j: int| 0 <= i < j < rest.len() implies (
        #[trigger] rest[i]).0.below((#[trigger] rest[j]).0) by {
            assert(entries[i].0.below(entries[j].0));
        }
        lemma_restored_entry(rest, key);
        assert forall|i: int| 0 <= i < entries.len() && (#[trigger] entries[i]).0 == key implies
            restored(entries)[key] == entries[i].1 by {
            if i < rest.len() {
                assert(rest[i].0 == key);
                assert(entries[i].0.below(entries[entries.len() - 1].0));
            }
        }
        if restored(entries).dom().contains(key) {
            if restored(rest).dom().contains(key) {
                let i = choose|i: int| 0 <= i < rest.len() && (#[trigger] rest[i]).0 == key;
                assert(entries[i].0 == key);
            } else {
                assert(entries[entries.len() - 1].0 == key);
            }
        }
        if exists|i: int| 0 <= i < entries.len() && (#[trigger] entries[i]).0 == key {
            let i = choose|i: int| 0 <= i < entries.len() && (#[trigger] entries[i]).0 == key;
            if i < rest.len() {
                assert(rest[i].0 == key);
            }
        }
    }
}

/// Restoring what a checkpoint wrote gives the information sets back.
pub proof fn lemma_restore_undoes_checkpoint(infosets: Table<InfoSetData>)
    requires
        infosets.wf(),
    ensures
        restored(entry_views(infosets.entries@)) == table_view(infosets),
{
    let entries = infosets.entries@;
    let views = entry_views(entries);
    assert forall|i: int, j: int| 0 <= i < j < views.len() implies (#[trigger] views[i]).0.below(
        (#[trigger] views[j]).0,
    ) by {
        assert(entries[i].0.below(entries[j].0));
    }
    assert forall|key: Key| #[trigger]
        restored(views).dom().contains(key) <==> table_view(infosets).dom().contains(key) by {
        lemma_restored_entry(views, key);
        if restored(views).dom().contains(key) {
            let i = choose|i: int| 0 <= i < views.len() && (#[trigger] views[i]).0 == key;
            lemma_entry(infosets, i);
        }
        if infosets.has(key) {
            let i = choose|i: int| 0 <= i < entries.len() && (#[trigger] entries[i]).0 == key;
            assert(views[i].0 == key);
        }
    }
    assert forall|key: Key| #[trigger] restored(views).dom().contains(key) implies restored(
        views,
    )[key] == table_view(infosets)[key] by {
        lemma_restored_entry(views, key);
        let i = choose|i: int| 0 <= i < views.len() && (#[trigger] views[i]).0 == key;
        lemma_entry(infosets, i);
    }
    assert(restored(views) =~= table_view(infosets));
}

/// The information sets that a solver builds up over `nodes`: players of the
/// game, as many sums as the node has actions, all usable.
pub open spec fn fits_game(
    infosets: Table<InfoSetData>,
    players: usize,
    nodes: Seq<Option<DecisionKey>>,
) -> bool {
    forall|i: int|
        0 <= i < infosets.entries@.len() ==> {
            let (key, data) = #[trigger] infosets.entries@[i];
            &&& key.major < players
            &&& key.minor == 0
            &&& data.regret_sum@.len() > 0
            &&& data.regret_sum@.len() == data.strategy_sum@.len()
            &&& all_usable(data.regret_sum@)
            &&& all_usable(data.strategy_sum@)
            &&& key_has_count(nodes, nodes.len() as int, key, data.regret_sum@.len())
        }
}

/// Entries written from information sets that fit a game are in order and fit
/// it.
pub proof fn lemma_written_entries_fit(
    entries: Seq<InfoSetCheckpoint>,
    players: usize,
    nodes: Seq<Option<DecisionKey>>,
    infosets: Table<InfoSetData>,
)
    requires
        infosets.wf(),
        fits_game(infosets, players, nodes),
        checkpoint_views(entries) == entry_views(infosets.entries@),
    ensures
        entries_error(entries, players, 0) is None,
        fit_error(nodes, entries, 0) is None,
{
    assert(checkpoint_views(entries).len() == entries.len());
    assert(entry_views(infosets.entries@).len() == infosets.entries@.len());
    assert forall|i: int| 0 <= i < entries.len() implies entry_error(entries, players, i) is None
        && key_has_count(
        nodes,
        nodes.len() as int,
        (#[trigger] entries[i]).key(),
        entries[i].regret_sum@.len(),
    ) by {
        let (key, data) = infosets.entries@[i];
        assert(checkpoint_views(entries)[i] == (entries[i].key(), entries[i].data()));
        assert(entry_views(infosets.entries@)[i] == (key, data@));
        assert(entries[i].data().regret_sum == data.regret_sum@);
        assert(entries[i].data().strategy_sum == data.strategy_sum@);
        assert(entries[i].player < players);
        if repeats(entries, i) {
            let j = choose|j: int| 0 <= j < i && (#[trigger] entries[j]).key() == entries[i].key();
            assert(checkpoint_views(entries)[j] == (entries[j].key(), entries[j].data()));
            assert(entry_views(infosets.entries@)[j] == (
                infosets.entries@[j].0,
                infosets.entries@[j].1@,
            ));
            assert(infosets.entries@[j].0.below(infosets.entries@[i].0));
        }
    }
    lemma_no_entries_error(entries, players, 0);
    lemma_no_fit_error(nodes, entries, 0);
}

/// A solver accepts its own checkpoint: with the same game and configuration
/// nothing is left to reject.
pub proof fn lemma_own_checkpoint_is_accepted(
    checkpoint: SolverCheckpoint,
    game: StaticGame,
    sums_ok: Seq<bool>,
    infosets: Table<InfoSetData>,
)
    requires
        game_error(game, sums_ok) is None,
        count_error(decisions_of(game.nodes@), 0) is None,
        infosets.wf(),
        fits_game(infosets, 2, decisions_of(game.nodes@)),
        checkpoint.format_version == CHECKPOINT_FORMAT_VERSION,
        checkpoint.game_fingerprint == game.spec_fingerprint(),
        checkpoint_views(checkpoint.infosets@) == entry_views(infosets.entries@),
        rng_error(checkpoint.algorithm, checkpoint.rng_state) is None,
    ensures
        resume_error(
            checkpoint,
            checkpoint.algorithm,
            game,
            sums_ok,
            checkpoint.config_fingerprint,
        ) is None,
{
    lemma_written_entries_fit(checkpoint.infosets@, 2, decisions_of(game.nodes@), infosets);
}

/// What restored entries hold, one of them holds.
pub proof fn lemma_restored_from(entries: Seq<(Key, InfoSetView)>, key: Key)
    requires
        restored(entries).dom().contains(key),
    ensures
        exists|i: int|
            0 <= i < entries.len() && #[trigger] entries[i] == (key, restored(entries)[key]),
    decreases entries.len(),
{
    let last = entries.len() - 1;
    if entries.last().0 == key {
        assert(entries[last] == (key, restored(entries)[key]));
    } else {
        let rest = entries.drop_last();
        lemma_restored_from(rest, key);
        let i = choose|i: int| 0 <= i < rest.len() && #[trigger] rest[i] == (key, restored(rest)[key]);
        assert(entries[i] == (key, restored(entries)[key]));
    }
}

proof fn lemma_entry_passes(
    entries: Seq<InfoSetCheckpoint>,
    players: usize,
    nodes: Seq<Option<DecisionKey>>,
    from: int,
    index: int,
)
    requires
        0 <= from <= index < entries.len(),
        entries_error(entries, players, from) is None,
        fit_error(nodes, entries, from) is None,
    ensures
        entry_error(entries, players, index) is None,
        key_has_count(
            nodes,
            nodes.len() as int,
            entries[index].key(),
            entries[index].regret_sum@.len(),
        ),
    decreases index - from,
{
    if from < index {
        lemma_entry_passes(entries, players, nodes, from + 1, index);
    }
}

/// Information sets that come from an accepted checkpoint fit the game.
pub proof fn lemma_accepted_entries_fit(
    entries: Seq<InfoSetCheckpoint>,
    players: usize,
    nodes: Seq<Option<DecisionKey>>,
    infosets: Table<InfoSetData>,
)
    requires
        infosets.wf(),
        entries_error(entries, players, 0) is None,
        fit_error(nodes, entries, 0) is None,
        table_view(infosets) == restored(checkpoint_views(entries)),
    ensures
        fits_game(infosets, players, nodes),
{
    let views = checkpoint_views(entries);
    assert forall|i: int| 0 <= i < infosets.entries@.len() implies {
        let (key, data) = #[trigger] infosets.entries@[i];
        &&& key.major < players
        &&& key.minor == 0
        &&& data.regret_sum@.len() > 0
        &&& data.regret_sum@.len() == data.strategy_sum@.len()
        &&& all_usable(data.regret_sum@)
        &&& all_usable(data.strategy_sum@)
        &&& key_has_count(nodes, nodes.len() as int, key, data.regret_sum@.len())
    } by {
        let (key, data) = infosets.entries@[i];
        lemma_entry(infosets, i);
        assert(table_view(infosets).dom().contains(key));
        assert(table_view(infosets)[key] == data@);
        lemma_restored_from(views, key);
        let j = choose|j: int| 0 <= j < views.len() && #[trigger] views[j] == (key, restored(views)[key]);
        assert(views[j] == (entries[j].key(), entries[j].data()));
        lemma_entry_passes(entries, players, nodes, 0, j);
        assert(data@.regret_sum == entries[j].regret_sum@);
        assert(data@.strategy_sum == entries[j].strategy_sum@);
    }
}

proof fn lemma_no_entries_error(entries: Seq<InfoSetCheckpoint>, players: usize, from: int)
    requires
        0 <= from <= entries.len(),
        forall|i: int|
            0 <= i < entries.len() ==> #[trigger] entries[i] == entries[i] && entry_error(
                entries,
                players,
                i,
            ) is None,
    ensures
        entries_error(entries, players, from) is None,
    decreases entries.len() - from,
{
    if from < entries.len() {
        assert(entries[from] == entries[from]);
        lemma_no_entries_error(entries, players, from + 1);
    }
}

proof fn lemma_no_fit_error(
    nodes: Seq<Option<DecisionKey>>,
    entries: Seq<InfoSetCheckpoint>,
    from: int,
)
    requires
        0 <= from <= entries.len(),
        forall|i: int|
            0 <= i < entries.len() ==> key_has_count(
                nodes,
                nodes.len() as int,
                (#[trigger] entries[i]).key(),
                entries[i].regret_sum@.len(),
            ),
    ensures
        fit_error(nodes, entries, from) is None,
    decreases entries.len() - from,
{
    if from < entries.len() {
        assert(entries[from].key() == entries[from].key());
        lemma_no_fit_error(nodes, entries, from + 1);
    }
}

} // verus!
