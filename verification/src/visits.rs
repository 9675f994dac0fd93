//! The visits of all information sets together.
use vstd::prelude::*;

use crate::checkpoint::{
    checkpoint_views, entry_views, fresh_infoset, infoset_key, lemma_restore_undoes_checkpoint,
    restored, table_view, DecisionKey, InfoSetData, InfoSetView, SolverError,
};
use crate::multiway::{MultiwayMccfrSolver, MultiwaySolverCheckpoint};
use crate::runs::lemma_same_data_same_entries;
use crate::solver::{opened, recorded};
use crate::table::{Key, Table};

verus! {

/// The visits of the listed information sets together.
pub open spec fn listed_visits(entries: Seq<(Key, InfoSetView)>) -> int
    decreases entries.len(),
{
    if entries.len() == 0 {
        0
    } else {
        listed_visits(entries.drop_last()) + entries.last().1.visits
    }
}

/// The visits of the information sets of a map together.
pub open spec fn mapped_visits(infosets: Map<Key, InfoSetView>) -> int
    decreases infosets.dom().len(),
    when infosets.dom().finite()
{
    if infosets.dom().len() == 0 {
        0
    } else {
        let key = infosets.dom().choose();
        mapped_visits(infosets.remove(key)) + infosets[key].visits
    }
}

proof fn lemma_mapped_remove(infosets: Map<Key, InfoSetView>, key: Key)
    requires
        infosets.dom().finite(),
        infosets.dom().contains(key),
    ensures
        mapped_visits(infosets) == mapped_visits(infosets.remove(key)) + infosets[key].visits,
    decreases infosets.dom().len(),
{
    let chosen = infosets.dom().choose();
    assert(infosets.dom().contains(chosen));
    if chosen != key {
        let rest = infosets.remove(chosen);
        lemma_mapped_remove(rest, key);
        lemma_mapped_remove(infosets.remove(key), chosen);
        assert(rest.remove(key) =~= infosets.remove(key).remove(chosen));
    }
}

pub proof fn lemma_mapped_insert(infosets: Map<Key, InfoSetView>, key: Key, data: InfoSetView)
    requires
        infosets.dom().finite(),
    ensures
        mapped_visits(infosets.insert(key, data)) == mapped_visits(infosets) + data.visits - (
        if infosets.dom().contains(key) {
            infosets[key].visits as int
        } else {
            0
        }),
{
    let after = infosets.insert(key, data);
    lemma_mapped_remove(after, key);
    if infosets.dom().contains(key) {
        lemma_mapped_remove(infosets, key);
        assert(after.remove(key) =~= infosets.remove(key));
    } else {
        assert(after.remove(key) =~= infosets);
    }
}

proof fn lemma_listed_is_mapped(entries: Seq<(Key, InfoSetView)>)
    requires
        forall|i: int, j: int|
            0 <= i < j < entries.len() ==> (#[trigger] entries[i]).0 != (#[trigger] entries[j]).0,
    ensures
        restored(entries).dom().finite(),
        forall|key: Key| #[trigger]
            restored(entries).dom().contains(key) ==> exists|i: int|
                0 <= i < entries.len() && (#[trigger] entries[i]).0 == key,
        mapped_visits(restored(entries)) == listed_visits(entries),
    decreases entries.len(),
{
    if entries.len() > 0 {
        let rest = entries.drop_last();
        assert forall|i: int, j: int| 0 <= i < j < rest.len() implies (#[trigger] rest[i]).0 != (
        #[trigger] rest[j]).0 by {
            assert(entries[i].0 != entries[j].0);
        }
        lemma_listed_is_mapped(rest);
        let last = entries.last();
        lemma_mapped_insert(restored(rest), last.0, last.1);
        if restored(rest).dom().contains(last.0) {
            let i = choose|i: int| 0 <= i < rest.len() && (#[trigger] rest[i]).0 == last.0;
            assert(entries[i].0 != entries[entries.len() - 1].0);
        }
        assert forall|key: Key| #[trigger] restored(entries).dom().contains(key) implies exists|
            i: int,
        | 0 <= i < entries.len() && (#[trigger] entries[i]).0 == key by {
            if key == last.0 {
                assert(entries[entries.len() - 1].0 == key);
            } else {
                let i = choose|i: int| 0 <= i < rest.len() && (#[trigger] rest[i]).0 == key;
                assert(entries[i].0 == key);
            }
        }
    }
}

/// A table has the visits of its entries.
pub proof fn lemma_table_visits(table: Table<InfoSetData>)
    requires
        table.wf(),
    ensures
        table_view(table).dom().finite(),
        mapped_visits(table_view(table)) == listed_visits(entry_views(table.entries@)),
{
    let entries = entry_views(table.entries@);
    assert forall|i: int, j: int| 0 <= i < j < entries.len() implies (#[trigger] entries[i]).0 != (
    #[trigger] entries[j]).0 by {
        assert(table.entries@[i].0.below(table.entries@[j].0));
    }
    lemma_listed_is_mapped(entries);
    lemma_restore_undoes_checkpoint(table);
}

/// Opening an information set leaves the visits as they are.
pub proof fn lemma_opening_counts_no_visit(
    nodes: Seq<Option<DecisionKey>>,
    node: usize,
    before: Table<InfoSetData>,
    after: Table<InfoSetData>,
    result: Result<usize, SolverError>,
)
    requires
        before.wf(),
        after.wf(),
        opened(nodes, node, before, after, result),
    ensures
        listed_visits(entry_views(after.entries@)) == listed_visits(entry_views(before.entries@)),
{
    lemma_table_visits(before);
    lemma_table_visits(after);
    if after != before {
        let decision = nodes[node as int]->Some_0;
        let key = infoset_key(decision.player, decision.infoset);
        let fresh = fresh_infoset(decision.actions);
        lemma_mapped_insert(table_view(before), key, fresh);
        assert(table_view(after) =~= table_view(before).insert(key, fresh));
    }
}

/// Recording a visit adds one to the visits; a refused one adds none.
pub proof fn lemma_recording_counts_one_visit(
    nodes: Seq<Option<DecisionKey>>,
    node: usize,
    before: Table<InfoSetData>,
    after: Table<InfoSetData>,
    regrets: Seq<u64>,
    strategies: Seq<u64>,
    result: Result<(), SolverError>,
)
    requires
        before.wf(),
        after.wf(),
        recorded(nodes, node, before, after, regrets, strategies, result),
        node < nodes.len() && nodes[node as int] is Some ==> {
            let decision = nodes[node as int]->Some_0;
            let key = infoset_key(decision.player, decision.infoset);
            before@.dom().contains(key) ==> before@[key].visits < u64::MAX
        },
    ensures
        listed_visits(entry_views(after.entries@)) == listed_visits(entry_views(before.entries@))
            + if result is Ok {
            1int
        } else {
            0
        },
{
    lemma_table_visits(before);
    lemma_table_visits(after);
    if result is Ok {
        let decision = nodes[node as int]->Some_0;
        let key = infoset_key(decision.player, decision.infoset);
        let data = after@[key]@;
        lemma_mapped_insert(table_view(before), key, data);
        assert(table_view(after) =~= table_view(before).insert(key, data));
    }
}

impl MultiwayMccfrSolver {
    /// The counter of visits is the number of visits of all information sets.
    pub open spec fn visits_counted(self) -> bool {
        self.metrics.infoset_visits == listed_visits(entry_views(self.infosets.entries@))
    }
}

/// The counter of visits in a checkpoint is the sum over its information sets.
pub proof fn lemma_checkpoint_visits_add_up(
    solver: MultiwayMccfrSolver,
    checkpoint: MultiwaySolverCheckpoint,
)
    requires
        solver.visits_counted(),
        solver.written(checkpoint),
    ensures
        checkpoint.metrics.infoset_visits == listed_visits(
            checkpoint_views(checkpoint.infosets@),
        ),
{
}

/// A resumed solver has counted the visits that the first one had.
pub proof fn lemma_resumed_visits_add_up(
    solver: MultiwayMccfrSolver,
    checkpoint: MultiwaySolverCheckpoint,
    resumed: MultiwayMccfrSolver,
)
    requires
        solver.wf(),
        solver.visits_counted(),
        solver.written(checkpoint),
        resumed.resumes(solver.game, checkpoint, solver.config_fingerprint),
    ensures
        resumed.visits_counted(),
{
    lemma_restore_undoes_checkpoint(solver.infosets);
    lemma_same_data_same_entries(resumed.infosets, solver.infosets);
}

} // verus!
