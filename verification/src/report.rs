//! Strategy reports: which information sets a compiled game has, what they are
//! about, and where a checkpoint speaks of them.
use vstd::prelude::*;

use crate::cards::Combo;
use crate::checkpoint::{
    checkpoint_error, infoset_key, InfoSetCheckpoint, SolverAlgorithm, SolverCheckpoint,
    SolverError,
};
use crate::domain::Action;
use crate::game::{GameNode, InfoSetId};
use crate::holdem::CompiledHoldemGame;
use crate::table::{lemma_entry, Key, Place, Table};

verus! {

#[derive(Debug, Clone, Copy, PartialEq, Eq, Structural)]
pub enum ReportError {
    Checkpoint(SolverError),
    GameMismatch,
    MissingActions { node: usize },
    NoActions { player: usize, infoset: u64 },
    InconsistentActions { player: usize, infoset: u64 },
    InconsistentMetadata { player: usize, infoset: u64 },
    UnknownInfoSet { player: usize, infoset: u64 },
    ActionCountMismatch { player: usize, infoset: u64 },
}

/// What an action is worth; numbers are IEEE-754 bits.
#[derive(Debug, Clone, Copy, PartialEq, Eq, Structural)]
pub struct ActionReport {
    pub action: Action,
    pub frequency: u64,
    pub counterfactual_ev: Option<u64>,
    pub ev_loss: Option<u64>,
}

#[derive(Debug, Clone)]
pub struct InfoSetReport {
    pub player: usize,
    pub infoset: InfoSetId,
    pub public_node: Option<usize>,
    pub private_hand: Option<Combo>,
    pub occurrences: usize,
    pub visits: u64,
    pub actions: Vec<ActionReport>,
}

#[derive(Debug, Clone)]
pub struct StrategyReport {
    pub algorithm: SolverAlgorithm,
    pub iterations: u64,
    pub average_utility: [u64; 2],
    pub infosets: Vec<InfoSetReport>,
}

/// What a report says of an information set before any number is known.
#[derive(Debug)]
pub struct InfoSetLayout {
    pub player: usize,
    pub infoset: InfoSetId,
    pub public_node: Option<usize>,
    pub private_hand: Option<Combo>,
    pub occurrences: usize,
    /// The entry of the checkpoint, if the information set was visited.
    pub entry: Option<usize>,
    pub actions: Vec<Action>,
}

pub open spec fn node_key(node: GameNode) -> Option<Key> {
    match node {
        GameNode::Decision { player, infoset, children } => Some(infoset_key(player, infoset)),
        _ => None,
    }
}

/// The first node from `from` on with a key.
pub open spec fn first_with_key(nodes: Seq<GameNode>, key: Key, from: int) -> Option<int>
    decreases nodes.len() - from,
{
    if from >= nodes.len() {
        None
    } else if node_key(nodes[from]) == Some(key) {
        Some(from)
    } else {
        first_with_key(nodes, key, from + 1)
    }
}

/// How many of the first `count` nodes have a key.
pub open spec fn count_with_key(nodes: Seq<GameNode>, key: Key, count: int) -> nat
    decreases count,
{
    if count <= 0 {
        0
    } else {
        count_with_key(nodes, key, count - 1) + if node_key(nodes[count - 1]) == Some(key) {
            1nat
        } else {
            0
        }
    }
}

pub open spec fn public_of(compiled: CompiledHoldemGame, node: int) -> Option<usize> {
    if node < compiled.tree_node_ids@.len() {
        compiled.tree_node_ids@[node]
    } else {
        None
    }
}

/// The hand of a player at a node.
pub open spec fn hand_of(compiled: CompiledHoldemGame, node: int, player: usize) -> Option<Combo> {
    if node < compiled.private_hands@.len() {
        match compiled.private_hands@[node] {
            Some(hands) => Some(hands@[player as int]),
            None => None,
        }
    } else {
        None
    }
}

/// The first node from `from` on whose labels are missing, or differ from those
/// of the first node of its information set.
pub open spec fn layout_error(compiled: CompiledHoldemGame, from: int) -> Option<ReportError>
    decreases compiled.game.nodes@.len() - from,
{
    let nodes = compiled.game.nodes@;
    if from >= nodes.len() {
        None
    } else {
        match nodes[from] {
            GameNode::Decision { player, infoset, children } => {
                let first = first_with_key(nodes, infoset_key(player, infoset), 0)->Some_0;
                if from >= compiled.actions@.len() {
                    Some(ReportError::MissingActions { node: from as usize })
                } else if compiled.actions@[from]@.len() == 0 {
                    Some(ReportError::NoActions { player, infoset })
                } else if compiled.actions@[first]@ != compiled.actions@[from]@ {
                    Some(ReportError::InconsistentActions { player, infoset })
                } else if public_of(compiled, first) != public_of(compiled, from) || hand_of(
                    compiled,
                    first,
                    player,
                ) != hand_of(compiled, from, player) {
                    Some(ReportError::InconsistentMetadata { player, infoset })
                } else {
                    layout_error(compiled, from + 1)
                }
            },
            _ => layout_error(compiled, from + 1),
        }
    }
}

/// The first entry from `from` on that does not fit the game.
pub open spec fn entries_misfit(
    compiled: CompiledHoldemGame,
    entries: Seq<InfoSetCheckpoint>,
    from: int,
) -> Option<ReportError>
    decreases entries.len() - from,
{
    if from >= entries.len() {
        None
    } else {
        let entry = entries[from];
        let player = entry.player;
        let infoset = entry.infoset;
        match first_with_key(compiled.game.nodes@, entry.key(), 0) {
            None => Some(ReportError::UnknownInfoSet { player, infoset }),
            Some(first) => if entry.regret_sum@.len() != compiled.actions@[first]@.len()
                || entry.strategy_sum@.len() != compiled.actions@[first]@.len() {
                Some(ReportError::ActionCountMismatch { player, infoset })
            } else {
                entries_misfit(compiled, entries, from + 1)
            },
        }
    }
}

/// Why a report cannot be made.
pub open spec fn report_error(compiled: CompiledHoldemGame, checkpoint: SolverCheckpoint) -> Option<
    ReportError,
> {
    match checkpoint_error(checkpoint) {
        Some(error) => Some(ReportError::Checkpoint(error)),
        None => if checkpoint.game_fingerprint != compiled.game.spec_fingerprint() {
            Some(ReportError::GameMismatch)
        } else {
            match layout_error(compiled, 0) {
                Some(error) => Some(error),
                None => entries_misfit(compiled, checkpoint.infosets@, 0),
            }
        },
    }
}

/// The last of the first `count` entries with a key.
pub open spec fn entry_of(entries: Seq<InfoSetCheckpoint>, key: Key, count: int) -> Option<usize>
    decreases count,
{
    if count <= 0 {
        None
    } else if entries[count - 1].key() == key {
        Some((count - 1) as usize)
    } else {
        entry_of(entries, key, count - 1)
    }
}

/// The layout of one information set.
pub open spec fn layout_ok(
    layout: InfoSetLayout,
    compiled: CompiledHoldemGame,
    entries: Seq<InfoSetCheckpoint>,
) -> bool {
    let nodes = compiled.game.nodes@;
    let key = infoset_key(layout.player, layout.infoset);
    let first = first_with_key(nodes, key, 0);
    &&& first is Some
    &&& layout.public_node == public_of(compiled, first->Some_0)
    &&& layout.private_hand == hand_of(compiled, first->Some_0, layout.player)
    &&& layout.actions@ == compiled.actions@[first->Some_0]@
    &&& layout.occurrences == count_with_key(nodes, key, nodes.len() as int)
    &&& layout.entry == entry_of(entries, key, entries.len() as int)
}

/// The layouts of all information sets, in the order of their keys.
pub open spec fn layouts_ok(
    layouts: Seq<InfoSetLayout>,
    compiled: CompiledHoldemGame,
    entries: Seq<InfoSetCheckpoint>,
) -> bool {
    &&& forall|i: int|
        0 <= i < layouts.len() ==> layout_ok(#[trigger] layouts[i], compiled, entries)
    &&& forall|i: int, j: int|
        0 <= i < j < layouts.len() ==> infoset_key(
            (#[trigger] layouts[i]).player,
            layouts[i].infoset,
        ).below(infoset_key((#[trigger] layouts[j]).player, layouts[j].infoset))
    &&& forall|n: int|
        0 <= n < compiled.game.nodes@.len() ==> (node_key(
            #[trigger] compiled.game.nodes@[n],
        ) matches Some(key) ==> has_layout(layouts, key))
}

pub open spec fn has_layout(layouts: Seq<InfoSetLayout>, key: Key) -> bool {
    exists|i: int|
        0 <= i < layouts.len() && infoset_key((#[trigger] layouts[i]).player, layouts[i].infoset)
            == key
}

/// An information set on the way to its layout.
#[derive(Debug, Clone, Copy, PartialEq, Eq, Structural)]
pub struct LayoutSlot {
    pub first: usize,
    pub occurrences: usize,
    pub entry: Option<usize>,
}

fn same_actions(left: &Vec<Action>, right: &Vec<Action>) -> (yes: bool)
    ensures
        yes == (left@ == right@),
{
    if left.len() != right.len() {
        return false;
    }
    let mut index: usize = 0;
    while index < left.len()
        invariant
            index <= left@.len(),
            left@.len() == right@.len(),
            forall|i: int| 0 <= i < index ==> left@[i] == right@[i],
        decreases left.len() - index,
    {
        if left[index] != right[index] {
            assert(left@[index as int] != right@[index as int]);
            return false;
        }
        index = index + 1;
    }
    assert(left@ =~= right@);
    true
}

fn player_hand(compiled: &CompiledHoldemGame, node: usize, player: usize) -> (hand: Option<Combo>)
    requires
        player < 2,
    ensures
        hand == hand_of(*compiled, node as int, player),
{
    match compiled.private_hands_at(node) {
        Some(hands) => Some(hands[player]),
        None => None,
    }
}

/// The table knows the information sets of the first `count` nodes.
pub open spec fn slots_ok(
    slots: Table<LayoutSlot>,
    compiled: CompiledHoldemGame,
    count: int,
    entries: Seq<InfoSetCheckpoint>,
    entry_count: int,
) -> bool {
    let nodes = compiled.game.nodes@;
    &&& slots.wf()
    &&& forall|key: Key| #[trigger]
        slots@.dom().contains(key) <==> count_with_key(nodes, key, count) > 0
    &&& forall|key: Key| #[trigger]
        slots@.dom().contains(key) ==> {
            &&& first_with_key(nodes, key, 0) == Some(slots@[key].first as int)
            &&& slots@[key].first < count
            &&& slots@[key].first < compiled.actions@.len()
            &&& slots@[key].occurrences == count_with_key(nodes, key, count)
            &&& slots@[key].entry == entry_of(entries, key, entry_count)
        }
}

proof fn lemma_count_positive(nodes: Seq<GameNode>, key: Key, count: int)
    requires
        0 <= count <= nodes.len(),
    ensures
        count_with_key(nodes, key, count) <= count,
        count_with_key(nodes, key, count) > 0 <==> exists|i: int|
            0 <= i < count && node_key(#[trigger] nodes[i]) == Some(key),
    decreases count,
{
    if count > 0 {
        lemma_count_positive(nodes, key, count - 1);
        if count_with_key(nodes, key, count) > 0 {
            if node_key(nodes[count - 1]) == Some(key) {
                assert(node_key(nodes[count - 1]) == Some(key));
            } else {
                let i = choose|i: int|
                    0 <= i < count - 1 && node_key(#[trigger] nodes[i]) == Some(key);
                assert(node_key(nodes[i]) == Some(key));
            }
        }
        if exists|i: int| 0 <= i < count && node_key(#[trigger] nodes[i]) == Some(key) {
            let i = choose|i: int| 0 <= i < count && node_key(#[trigger] nodes[i]) == Some(key);
            if i < count - 1 {
                assert(node_key(nodes[i]) == Some(key));
            }
        }
    }
}

proof fn lemma_first_with_key(nodes: Seq<GameNode>, key: Key, from: int)
    requires
        0 <= from,
    ensures
        match first_with_key(nodes, key, from) {
            Some(first) => {
                &&& from <= first < nodes.len()
                &&& node_key(nodes[first]) == Some(key)
                &&& forall|i: int|
                    from <= i < first ==> node_key(#[trigger] nodes[i]) != Some(key)
            },
            None => forall|i: int|
                from <= i < nodes.len() ==> node_key(#[trigger] nodes[i]) != Some(key),
        },
    decreases nodes.len() - from,
{
    if from < nodes.len() && node_key(nodes[from]) != Some(key) {
        lemma_first_with_key(nodes, key, from + 1);
    }
}

/// Collects the information sets of a compiled game.
fn collect_slots(
    compiled: &CompiledHoldemGame,
    Ghost(entries): Ghost<Seq<InfoSetCheckpoint>>,
) -> (result: Result<Table<LayoutSlot>, ReportError>)
    requires
        compiled.game.playable(),
    ensures
        match layout_error(*compiled, 0) {
            Some(error) => result == Err::<Table<LayoutSlot>, ReportError>(error),
            None => result matches Ok(slots) && slots_ok(
                slots,
                *compiled,
                compiled.game.nodes@.len() as int,
                entries,
                0,
            ),
        },
{
    let mut slots: Table<LayoutSlot> = Table::new();
    let mut index: usize = 0;
    let ghost nodes = compiled.game.nodes@;
    while index < compiled.game.nodes.len()
        invariant
            index <= compiled.game.nodes@.len(),
            nodes == compiled.game.nodes@,
            compiled.game.playable(),
            layout_error(*compiled, 0) == layout_error(*compiled, index as int),
            slots_ok(slots, *compiled, index as int, entries, 0),
        decreases compiled.game.nodes.len() - index,
    {
        match &compiled.game.nodes[index] {
            GameNode::Decision { player, infoset, children } => {
                assert(crate::game::game_node_ok(nodes[index as int], nodes.len()));
                let player = *player;
                let infoset = *infoset;
                let key = Key { major: player as u64, middle: infoset, minor: 0 };
                assert(key == infoset_key(player, infoset));
                assert(node_key(nodes[index as int]) == Some(key));
                proof {
                    lemma_first_with_key(nodes, key, 0);
                    lemma_count_positive(nodes, key, index as int);
                }
                if index >= compiled.actions.len() {
                    return Err(ReportError::MissingActions { node: index });
                }
                if compiled.actions[index].len() == 0 {
                    return Err(ReportError::NoActions { player, infoset });
                }
                let ghost before = slots;
                match slots.find(key) {
                    Place::Found(place) => {
                        let slot = slots.entries[place].1;
                        if !same_actions(&compiled.actions[slot.first], &compiled.actions[index]) {
                            return Err(ReportError::InconsistentActions { player, infoset });
                        }
                        if compiled.tree_node_id(slot.first) != compiled.tree_node_id(index)
                            || player_hand(compiled, slot.first, player) != player_hand(
                            compiled,
                            index,
                            player,
                        ) {
                            return Err(ReportError::InconsistentMetadata { player, infoset });
                        }
                        slots.replace_at(
                            place,
                            LayoutSlot {
                                first: slot.first,
                                occurrences: slot.occurrences + 1,
                                entry: slot.entry,
                            },
                        );
                    },
                    Place::Missing(place) => {
                        proof {
                            let first = first_with_key(nodes, key, 0)->Some_0;
                            if first < index {
                                assert(node_key(nodes[first]) == Some(key));
                                assert(false);
                            }
                            assert(first == index);
                        }
                        slots.insert_at(
                            place,
                            key,
                            LayoutSlot { first: index, occurrences: 1, entry: None },
                        );
                    },
                }
                proof {
                    lemma_slots_grow(before, slots, *compiled, index as int, key, entries);
                }
            },
            _ => {
                proof {
                    lemma_slots_stay(slots, *compiled, index as int, entries);
                }
            },
        }
        index = index + 1;
    }
    Ok(slots)
}

proof fn lemma_slots_stay(
    slots: Table<LayoutSlot>,
    compiled: CompiledHoldemGame,
    index: int,
    entries: Seq<InfoSetCheckpoint>,
)
    requires
        slots_ok(slots, compiled, index, entries, 0),
        0 <= index < compiled.game.nodes@.len(),
        node_key(compiled.game.nodes@[index]) is None,
    ensures
        slots_ok(slots, compiled, index + 1, entries, 0),
{
    let nodes = compiled.game.nodes@;
    assert forall|key: Key| #[trigger] slots@.dom().contains(key) <==> count_with_key(
        nodes,
        key,
        index + 1,
    ) > 0 by {
        assert(count_with_key(nodes, key, index + 1) == count_with_key(nodes, key, index));
    }
    assert forall|key: Key| #[trigger] slots@.dom().contains(key) implies slots@[key].occurrences
        == count_with_key(nodes, key, index + 1) by {
        assert(count_with_key(nodes, key, index + 1) == count_with_key(nodes, key, index));
    }
}

proof fn lemma_slots_grow(
    before: Table<LayoutSlot>,
    after: Table<LayoutSlot>,
    compiled: CompiledHoldemGame,
    index: int,
    key: Key,
    entries: Seq<InfoSetCheckpoint>,
)
    requires
        slots_ok(before, compiled, index, entries, 0),
        0 <= index < compiled.game.nodes@.len(),
        index < compiled.actions@.len(),
        node_key(compiled.game.nodes@[index]) == Some(key),
        after.wf(),
        after@ == before@.insert(key, after@[key]),
        first_with_key(compiled.game.nodes@, key, 0) == Some(after@[key].first as int),
        after@[key].first <= index,
        after@[key].occurrences == count_with_key(compiled.game.nodes@, key, index) + 1,
        after@[key].entry is None,
    ensures
        slots_ok(after, compiled, index + 1, entries, 0),
{
    let nodes = compiled.game.nodes@;
    assert forall|other: Key| #[trigger] after@.dom().contains(other) <==> count_with_key(
        nodes,
        other,
        index + 1,
    ) > 0 by {
        assert(after@.dom().contains(other) <==> before@.dom().contains(other) || other == key);
        assert(before@.dom().contains(other) <==> count_with_key(nodes, other, index) > 0);
    }
    assert forall|other: Key| #[trigger] after@.dom().contains(other) implies {
        &&& first_with_key(nodes, other, 0) == Some(after@[other].first as int)
        &&& after@[other].first < index + 1
        &&& after@[other].first < compiled.actions@.len()
        &&& after@[other].occurrences == count_with_key(nodes, other, index + 1)
        &&& after@[other].entry == entry_of(entries, other, 0)
    } by {
        if other != key {
            assert(before@.dom().contains(other));
            assert(after@[other] == before@[other]);
        }
    }
}

/// Finds the entries of the information sets.
fn match_entries(
    slots: Table<LayoutSlot>,
    compiled: &CompiledHoldemGame,
    entries: &Vec<InfoSetCheckpoint>,
) -> (result: Result<Table<LayoutSlot>, ReportError>)
    requires
        slots_ok(slots, *compiled, compiled.game.nodes@.len() as int, entries@, 0),
    ensures
        match entries_misfit(*compiled, entries@, 0) {
            Some(error) => result == Err::<Table<LayoutSlot>, ReportError>(error),
            None => result matches Ok(matched) && slots_ok(
                matched,
                *compiled,
                compiled.game.nodes@.len() as int,
                entries@,
                entries@.len() as int,
            ),
        },
{
    let mut slots = slots;
    let mut index: usize = 0;
    let ghost nodes = compiled.game.nodes@;
    let ghost total = nodes.len() as int;
    while index < entries.len()
        invariant
            index <= entries@.len(),
            nodes == compiled.game.nodes@,
            total == nodes.len(),
            slots_ok(slots, *compiled, total, entries@, index as int),
            entries_misfit(*compiled, entries@, 0) == entries_misfit(
                *compiled,
                entries@,
                index as int,
            ),
        decreases entries.len() - index,
    {
        let entry = &entries[index];
        let player = entry.player;
        let infoset = entry.infoset;
        let key = Key { major: player as u64, middle: infoset, minor: 0 };
        assert(key == entry.key());
        proof {
            lemma_first_with_key(nodes, key, 0);
            lemma_count_positive(nodes, key, total);
        }
        match slots.find(key) {
            Place::Missing(_) => {
                assert(first_with_key(nodes, key, 0) is None) by {
                    if first_with_key(nodes, key, 0) is Some {
                        let first = first_with_key(nodes, key, 0)->Some_0;
                        assert(node_key(nodes[first]) == Some(key));
                    }
                }
                return Err(ReportError::UnknownInfoSet { player, infoset });
            },
            Place::Found(place) => {
                let slot = slots.entries[place].1;
                let count = compiled.actions[slot.first].len();
                if entry.regret_sum.len() != count || entry.strategy_sum.len() != count {
                    return Err(ReportError::ActionCountMismatch { player, infoset });
                }
                let ghost before = slots;
                slots.replace_at(
                    place,
                    LayoutSlot {
                        first: slot.first,
                        occurrences: slot.occurrences,
                        entry: Some(index),
                    },
                );
                proof {
                    assert forall|other: Key| #[trigger] slots@.dom().contains(other) <==>
                        count_with_key(nodes, other, total) > 0 by {
                        assert(slots@.dom().contains(other) <==> before@.dom().contains(other));
                    }
                    assert forall|other: Key| #[trigger] slots@.dom().contains(other) implies {
                        &&& first_with_key(nodes, other, 0) == Some(slots@[other].first as int)
                        &&& slots@[other].first < total
                        &&& slots@[other].first < compiled.actions@.len()
                        &&& slots@[other].occurrences == count_with_key(nodes, other, total)
                        &&& slots@[other].entry == entry_of(entries@, other, index as int + 1)
                    } by {
                        assert(before@.dom().contains(other));
                        if other != key {
                            assert(slots@[other] == before@[other]);
                        }
                    }
                }
            },
        }
        index = index + 1;
    }
    Ok(slots)
}

/// What a report on a checkpoint of a compiled game is about: every information
/// set of the game, in order, with its labels and its entry.
pub fn report_layout(compiled: &CompiledHoldemGame, checkpoint: &SolverCheckpoint) -> (result: Result<
    Vec<InfoSetLayout>,
    ReportError,
>)
    requires
        compiled.game.playable(),
    ensures
        match report_error(*compiled, *checkpoint) {
            Some(error) => result == Err::<Vec<InfoSetLayout>, ReportError>(error),
            None => result matches Ok(layouts) && layouts_ok(
                layouts@,
                *compiled,
                checkpoint.infosets@,
            ),
        },
{
    match checkpoint.validate() {
        Ok(_) => {},
        Err(error) => {
            return Err(ReportError::Checkpoint(error));
        },
    }
    if checkpoint.game_fingerprint != compiled.game.fingerprint() {
        return Err(ReportError::GameMismatch);
    }
    let collected = match collect_slots(compiled, Ghost(checkpoint.infosets@)) {
        Ok(slots) => slots,
        Err(error) => {
            return Err(error);
        },
    };
    let slots = match match_entries(collected, compiled, &checkpoint.infosets) {
        Ok(slots) => slots,
        Err(error) => {
            return Err(error);
        },
    };
    Ok(read_layouts(&slots, compiled, &checkpoint.infosets))
}

fn read_layouts(
    slots: &Table<LayoutSlot>,
    compiled: &CompiledHoldemGame,
    entries: &Vec<InfoSetCheckpoint>,
) -> (layouts: Vec<InfoSetLayout>)
    requires
        compiled.game.playable(),
        slots_ok(
            *slots,
            *compiled,
            compiled.game.nodes@.len() as int,
            entries@,
            entries@.len() as int,
        ),
    ensures
        layouts_ok(layouts@, *compiled, entries@),
{
    let ghost nodes = compiled.game.nodes@;
    let ghost total = nodes.len() as int;
    let mut layouts: Vec<InfoSetLayout> = Vec::new();
    let mut index: usize = 0;
    while index < slots.entries.len()
        invariant
            index <= slots.entries@.len(),
            layouts@.len() == index,
            nodes == compiled.game.nodes@,
            total == nodes.len(),
            compiled.game.playable(),
            slots_ok(*slots, *compiled, total, entries@, entries@.len() as int),
            forall|i: int|
                0 <= i < index ==> layout_ok(#[trigger] layouts@[i], *compiled, entries@)
                    && infoset_key(layouts@[i].player, layouts@[i].infoset)
                    == slots.entries@[i].0,
        decreases slots.entries.len() - index,
    {
        let (key, slot) = slots.entries[index];
        proof {
            lemma_entry(*slots, index as int);
            lemma_first_with_key(nodes, key, 0);
            assert(crate::game::game_node_ok(nodes[slot.first as int], nodes.len()));
        }
        let player = key.major as usize;
        let infoset = key.middle;
        assert(infoset_key(player, infoset) == key);
        let actions = compiled.actions[slot.first].clone();
        assert(actions@ =~= compiled.actions@[slot.first as int]@);
        layouts.push(
            InfoSetLayout {
                player,
                infoset,
                public_node: compiled.tree_node_id(slot.first),
                private_hand: player_hand(compiled, slot.first, player),
                occurrences: slot.occurrences,
                entry: slot.entry,
                actions,
            },
        );
        index = index + 1;
    }
    proof {
        assert forall|i: int, j: int| 0 <= i < j < layouts@.len() implies infoset_key(
            (#[trigger] layouts@[i]).player,
            layouts@[i].infoset,
        ).below(infoset_key((#[trigger] layouts@[j]).player, layouts@[j].infoset)) by {
            assert(slots.entries@[i].0.below(slots.entries@[j].0));
        }
        assert forall|n: int| 0 <= n < nodes.len() implies (node_key(
            #[trigger] compiled.game.nodes@[n],
        ) matches Some(key) ==> has_layout(layouts@, key)) by {
            if node_key(nodes[n]) is Some {
                let key = node_key(nodes[n])->Some_0;
                lemma_count_positive(nodes, key, total);
                assert(slots@.dom().contains(key));
                assert(slots.has(key));
                let i = choose|i: int|
                    0 <= i < slots.entries@.len() && (#[trigger] slots.entries@[i]).0 == key;
                assert(infoset_key(layouts@[i].player, layouts@[i].infoset) == key);
            }
        }
    }
    layouts
}

/// The numbers of an information set.
#[derive(Debug)]
pub struct InfoSetValues {
    pub frequencies: Vec<u64>,
    pub counterfactual_evs: Vec<Option<u64>>,
    pub ev_losses: Vec<Option<u64>>,
}

/// There are numbers for every action of every information set.
pub open spec fn values_fit(layouts: Seq<InfoSetLayout>, values: Seq<InfoSetValues>) -> bool {
    &&& values.len() == layouts.len()
    &&& forall|i: int|
        0 <= i < values.len() ==> (#[trigger] values[i]).frequencies@.len()
            == layouts[i].actions@.len() && values[i].counterfactual_evs@.len()
            == layouts[i].actions@.len() && values[i].ev_losses@.len()
            == layouts[i].actions@.len()
}

/// An information set of a report: its layout, its visits and its numbers.
pub open spec fn infoset_reported(
    report: InfoSetReport,
    layout: InfoSetLayout,
    values: InfoSetValues,
    entries: Seq<InfoSetCheckpoint>,
) -> bool {
    &&& report.player == layout.player
    &&& report.infoset == layout.infoset
    &&& report.public_node == layout.public_node
    &&& report.private_hand == layout.private_hand
    &&& report.occurrences == layout.occurrences
    &&& report.visits == match layout.entry {
        Some(entry) => entries[entry as int].visits,
        None => 0,
    }
    &&& report.actions@ == Seq::new(
        layout.actions@.len(),
        |a: int|
            ActionReport {
                action: layout.actions@[a],
                frequency: values.frequencies@[a],
                counterfactual_ev: values.counterfactual_evs@[a],
                ev_loss: values.ev_losses@[a],
            },
    )
}

/// Joins the layouts of a report with its numbers.
pub fn build_strategy_report(
    checkpoint: &SolverCheckpoint,
    layouts: &Vec<InfoSetLayout>,
    values: &Vec<InfoSetValues>,
    average_utility: [u64; 2],
) -> (report: StrategyReport)
    requires
        values_fit(layouts@, values@),
        forall|i: int|
            0 <= i < layouts@.len() ==> ((#[trigger] layouts@[i]).entry matches Some(entry)
                ==> entry < checkpoint.infosets@.len()),
    ensures
        report.algorithm == checkpoint.algorithm,
        report.iterations == checkpoint.iterations,
        report.average_utility == average_utility,
        report.infosets@.len() == layouts@.len(),
        forall|i: int|
            0 <= i < layouts@.len() ==> infoset_reported(
                #[trigger] report.infosets@[i],
                layouts@[i],
                values@[i],
                checkpoint.infosets@,
            ),
{
    let mut infosets: Vec<InfoSetReport> = Vec::new();
    let mut index: usize = 0;
    while index < layouts.len()
        invariant
            index <= layouts@.len(),
            infosets@.len() == index,
            values_fit(layouts@, values@),
            forall|i: int|
                0 <= i < layouts@.len() ==> ((#[trigger] layouts@[i]).entry matches Some(entry)
                    ==> entry < checkpoint.infosets@.len()),
            forall|i: int|
                0 <= i < index ==> infoset_reported(
                    #[trigger] infosets@[i],
                    layouts@[i],
                    values@[i],
                    checkpoint.infosets@,
                ),
        decreases layouts.len() - index,
    {
        let layout = &layouts[index];
        let numbers = &values[index];
        assert(values@[index as int].frequencies@.len() == layouts@[index as int].actions@.len());
        let visits = match layout.entry {
            Some(entry) => checkpoint.infosets[entry].visits,
            None => 0,
        };
        let ghost wanted = Seq::new(
            layout.actions@.len(),
            |a: int|
                ActionReport {
                    action: layout.actions@[a],
                    frequency: numbers.frequencies@[a],
                    counterfactual_ev: numbers.counterfactual_evs@[a],
                    ev_loss: numbers.ev_losses@[a],
                },
        );
        let mut actions: Vec<ActionReport> = Vec::new();
        let mut a: usize = 0;
        while a < layout.actions.len()
            invariant
                a <= layout.actions@.len(),
                numbers.frequencies@.len() == layout.actions@.len(),
                numbers.counterfactual_evs@.len() == layout.actions@.len(),
                numbers.ev_losses@.len() == layout.actions@.len(),
                wanted == Seq::new(
                    layout.actions@.len(),
                    |a: int|
                        ActionReport {
                            action: layout.actions@[a],
                            frequency: numbers.frequencies@[a],
                            counterfactual_ev: numbers.counterfactual_evs@[a],
                            ev_loss: numbers.ev_losses@[a],
                        },
                ),
                actions@ == wanted.take(a as int),
            decreases layout.actions.len() - a,
        {
            actions.push(
                ActionReport {
                    action: layout.actions[a],
                    frequency: numbers.frequencies[a],
                    counterfactual_ev: numbers.counterfactual_evs[a],
                    ev_loss: numbers.ev_losses[a],
                },
            );
            assert(actions@ =~= wanted.take(a as int + 1));
            a = a + 1;
        }
        assert(actions@ =~= wanted);
        infosets.push(
            InfoSetReport {
                player: layout.player,
                infoset: layout.infoset,
                public_node: layout.public_node,
                private_hand: layout.private_hand,
                occurrences: layout.occurrences,
                visits,
                actions,
            },
        );
        index = index + 1;
    }
    StrategyReport {
        algorithm: checkpoint.algorithm,
        iterations: checkpoint.iterations,
        average_utility,
        infosets,
    }
}

/// The entry of a layout is an entry of the checkpoint, for the same
/// information set.
pub proof fn lemma_entry_of_layout(entries: Seq<InfoSetCheckpoint>, key: Key, count: int)
    requires
        0 <= count <= entries.len(),
        entries.len() <= usize::MAX,
    ensures
        entry_of(entries, key, count) matches Some(entry) ==> entry < count && entries[entry as int].key()
            == key,
        entry_of(entries, key, count) is None ==> forall|i: int|
            0 <= i < count ==> (#[trigger] entries[i]).key() != key,
    decreases count,
{
    if count > 0 {
        lemma_entry_of_layout(entries, key, count - 1);
    }
}

} // verus!
