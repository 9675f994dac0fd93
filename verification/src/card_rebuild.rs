//! The tree after card abstraction, built from the root down.
//!
//! The caller asks which node comes next, groups the outcomes where that is
//! needed, and places the node. Nodes are numbered in the order in which they
//! are placed, each before its children.
use vstd::prelude::*;

use crate::card_abstraction::{
    countable, counted, group_ok, groups_ok, positions_of, AbstractionError, ChanceGrouping,
    StatsAccumulator,
};
use crate::domain::Street;
use crate::tree::{
    copy_outcomes, same_outcomes, well_formed, ChanceNodeSpec, ChanceOutcome, GameTree, NodeFacts,
    NodeId, TreeNode,
};

verus! {

/// The groups are those of some bucket for each outcome.
pub open spec fn are_groups(groups: Seq<ChanceGrouping>, outcomes: Seq<ChanceOutcome>) -> bool {
    exists|buckets: Seq<usize>|
        buckets.len() == outcomes.len() && #[trigger] groups_ok(
            groups,
            outcomes,
            buckets,
            buckets.len() as int,
        )
}

/// The outcomes of the groups, each with the cards of the one that stays.
pub open spec fn merged_outcomes(
    merged: Seq<ChanceOutcome>,
    outcomes: Seq<ChanceOutcome>,
    groups: Seq<ChanceGrouping>,
) -> bool {
    &&& merged.len() == groups.len()
    &&& forall|k: int|
        0 <= k < groups.len() ==> (#[trigger] merged[k]).cards@
            == outcomes[groups[k].rep_index as int].cards@
}

/// What a placed node has of the node that it comes from: everything but the
/// links, with the outcomes of a chance node merged. `plan` lists the nodes
/// that its children come from.
pub open spec fn copied(
    node: TreeNode,
    origin: TreeNode,
    plan: Seq<usize>,
    groups: Option<Vec<ChanceGrouping>>,
) -> bool {
    &&& node.action_from_parent == origin.action_from_parent
    &&& node.state.same(origin.state)
    &&& match origin.chance {
        None => {
            &&& node.chance is None
            &&& node.leaf == origin.leaf
            &&& plan == origin.children@
            &&& groups is None
        },
        Some(chance) => {
            &&& node.leaf is None
            &&& node.chance matches Some(new_chance)
            &&& new_chance.next_street == chance.next_street
            &&& chance.next_street != Street::Preflop
            &&& if chance.outcomes@.len() == 1 {
                &&& same_outcomes(new_chance.outcomes@, chance.outcomes@)
                &&& plan == origin.children@
                &&& groups is None
            } else {
                &&& groups matches Some(list)
                &&& are_groups(list@, chance.outcomes@)
                &&& merged_outcomes(new_chance.outcomes@, chance.outcomes@, list@)
                &&& plan.len() == list@.len()
                &&& forall|k: int|
                    0 <= k < plan.len() ==> #[trigger] plan[k]
                        == origin.children@[list@[k].rep_index as int]
            }
        },
    }
}

/// `after` is `before` with one more child.
pub open spec fn grown(before: TreeNode, after: TreeNode, child: usize) -> bool {
    &&& after.id == before.id
    &&& after.parent == before.parent
    &&& after.action_from_parent == before.action_from_parent
    &&& after.state == before.state
    &&& after.leaf == before.leaf
    &&& after.chance == before.chance
    &&& after.children@ == before.children@.push(child)
}

/// Each chance node has a child for each outcome.
pub open spec fn outcomes_have_children(source: GameTree) -> bool {
    forall|i: int|
        0 <= i < source.nodes@.len() ==> match (#[trigger] source.nodes@[i]).chance {
            Some(chance) => source.nodes@[i].children@.len() == chance.outcomes@.len(),
            None => true,
        }
}

/// A tree under construction.
pub struct TreeRebuild {
    pub nodes: Vec<TreeNode>,
    /// The node that each placed node comes from.
    pub origins: Vec<usize>,
    /// The nodes that the children of each placed node come from.
    pub plans: Vec<Vec<usize>>,
    /// The groups of each placed node whose outcomes were merged.
    pub groups: Vec<Option<Vec<ChanceGrouping>>>,
    /// The placed nodes that still lack children, from the root down.
    pub open: Vec<usize>,
    pub stats: StatsAccumulator,
}

pub open spec fn is_full(nodes: Seq<TreeNode>, plans: Seq<Vec<usize>>, index: usize) -> bool {
    nodes[index as int].children@.len() >= plans[index as int]@.len()
}

/// The open nodes without those at the end that have all their children.
pub open spec fn settled(
    open: Seq<usize>,
    nodes: Seq<TreeNode>,
    plans: Seq<Vec<usize>>,
) -> Seq<usize>
    decreases open.len(),
{
    if open.len() == 0 || !is_full(nodes, plans, open.last()) {
        open
    } else {
        settled(open.drop_last(), nodes, plans)
    }
}

impl TreeRebuild {
    pub open spec fn placed_ok(self, source: GameTree, i: int) -> bool {
        &&& self.origins@[i] < source.nodes@.len()
        &&& self.nodes@[i].id == i
        &&& copied(
            self.nodes@[i],
            source.nodes@[self.origins@[i] as int],
            self.plans@[i]@,
            self.groups@[i],
        )
        &&& self.nodes@[i].children@.len() <= self.plans@[i]@.len()
        &&& if i == 0 {
            self.nodes@[i].parent is None && self.origins@[i] == source.root
        } else {
            &&& self.nodes@[i].parent matches Some(parent)
            &&& parent < i
            &&& self.nodes@[parent as int].children@.contains(i as usize)
        }
    }

    pub open spec fn child_ok(self, i: int, k: int) -> bool {
        let child = self.nodes@[i].children@[k];
        &&& i < child < self.nodes@.len()
        &&& self.nodes@[child as int].parent == Some(i as usize)
        &&& self.origins@[child as int] == self.plans@[i]@[k]
    }

    pub open spec fn lists_agree(self) -> bool {
        &&& self.origins@.len() == self.nodes@.len()
        &&& self.plans@.len() == self.nodes@.len()
        &&& self.groups@.len() == self.nodes@.len()
        &&& self.nodes@.len() <= usize::MAX
    }

    pub open spec fn open_ok(self) -> bool {
        &&& self.open@.len() > 0 ==> self.nodes@.len() > 0
        &&& forall|k: int| 0 <= k < self.open@.len() ==> #[trigger] self.open@[k] < self.nodes@.len()
        &&& forall|i: int|
            0 <= i < self.nodes@.len() && !#[trigger] is_full(self.nodes@, self.plans@, i as usize)
                ==> self.open@.contains(i as usize)
        &&& self.open@.len() > 0 ==> !is_full(self.nodes@, self.plans@, self.open@.last())
    }

    /// Merging never adds outcomes.
    pub open spec fn stats_ok(self) -> bool {
        &&& self.stats.flop.outcomes_after <= self.stats.flop.outcomes_before
        &&& self.stats.turn.outcomes_after <= self.stats.turn.outcomes_before
        &&& self.stats.river.outcomes_after <= self.stats.river.outcomes_before
    }

    pub open spec fn wf(self, source: GameTree) -> bool {
        &&& self.lists_agree()
        &&& forall|i: int| 0 <= i < self.nodes@.len() ==> #[trigger] self.placed_ok(source, i)
        &&& forall|i: int, k: int|
            0 <= i < self.nodes@.len() && 0 <= k < self.nodes@[i].children@.len()
                ==> #[trigger] self.child_ok(i, k)
        &&& self.open_ok()
        &&& self.stats_ok()
    }

    /// The node to place next.
    pub open spec fn next(self, source: GameTree) -> Option<usize> {
        if self.nodes@.len() == 0 {
            Some(source.root)
        } else if self.open@.len() == 0 {
            None
        } else {
            let last = self.open@.last() as int;
            Some(self.plans@[last]@[self.nodes@[last].children@.len() as int])
        }
    }

    /// The placed node that waits for the next one.
    pub open spec fn waiting(self) -> Option<usize> {
        if self.open@.len() == 0 {
            None
        } else {
            Some(self.open@.last())
        }
    }

    /// `after` is `self` with one more node, which hangs below the waiting one.
    pub open spec fn placed(self, after: Self, origin: usize) -> bool {
        let id = self.nodes@.len();
        &&& after.lists_agree()
        &&& after.nodes@.len() == id + 1
        &&& after.nodes@[id as int].id == id
        &&& after.nodes@[id as int].parent == self.waiting()
        &&& after.nodes@[id as int].children@.len() == 0
        &&& forall|i: int|
            #![trigger after.nodes@[i]]
            0 <= i < id ==> if Some(i as usize) == self.waiting() {
                grown(self.nodes@[i], after.nodes@[i], id as usize)
            } else {
                after.nodes@[i] == self.nodes@[i]
            }
        &&& after.origins@ == self.origins@.push(origin)
        &&& after.plans@.drop_last() == self.plans@
        &&& after.groups@.drop_last() == self.groups@
        &&& after.open@ == settled(self.open@.push(id as usize), after.nodes@, after.plans@)
    }

    /// Nothing placed yet.
    pub fn new(source: &GameTree) -> (rebuild: Self)
        ensures
            rebuild.wf(*source),
            rebuild.nodes@.len() == 0,
            rebuild.next(*source) == Some(source.root),
            rebuild.stats.flop.nodes == 0,
            rebuild.stats.turn.nodes == 0,
            rebuild.stats.river.nodes == 0,
            rebuild.stats.flop.outcomes_before == 0,
            rebuild.stats.turn.outcomes_before == 0,
            rebuild.stats.river.outcomes_before == 0,
    {
        TreeRebuild {
            nodes: Vec::new(),
            origins: Vec::new(),
            plans: Vec::new(),
            groups: Vec::new(),
            open: Vec::new(),
            stats: StatsAccumulator::default(),
        }
    }

    /// The node to place next; none when the tree is complete.
    pub fn next_node(&self, source: &GameTree) -> (node: Option<NodeId>)
        requires
            self.wf(*source),
        ensures
            node == self.next(*source),
    {
        if self.nodes.len() == 0 {
            return Some(source.root);
        }
        if self.open.len() == 0 {
            return None;
        }
        let last = self.open[self.open.len() - 1];
        Some(self.plans[last][self.nodes[last].children.len()])
    }

    /// Does the next node need groups? Chance nodes with one outcome do not.
    pub fn needs_groups(&self, source: &GameTree) -> (result: Result<bool, AbstractionError>)
        requires
            self.wf(*source),
            self.next(*source) is Some,
        ensures
            result == groups_needed(*source, self.next(*source)->0),
    {
        let node: usize = match self.next_node(source) {
            Some(node) => node,
            None => source.root,
        };
        if node >= source.nodes.len() {
            return Err(AbstractionError::UnknownNode { node });
        }
        match &source.nodes[node].chance {
            None => Ok(false),
            Some(chance) => {
                match chance.next_street {
                    Street::Preflop => Err(AbstractionError::LeadsToPreflop { node }),
                    _ => Ok(chance.outcomes.len() != 1),
                }
            },
        }
    }

    /// Places the next node as it is: a leaf, a decision, or a chance node with
    /// one outcome.
    pub fn place_plain(&mut self, source: &GameTree)
        requires
            old(self).wf(*source),
            outcomes_have_children(*source),
            old(self).next(*source) is Some,
            groups_needed(*source, old(self).next(*source)->0) == Ok::<bool, AbstractionError>(
                false,
            ),
            old(self).can_count(*source, 1),
            old(self).nodes@.len() < usize::MAX,
        ensures
            final(self).wf(*source),
            old(self).placed(*final(self), old(self).next(*source)->0),
            final(self).groups@.last() is None,
            old(self).stats_after(*final(self), *source, 1),
    {
        let origin: usize = match self.next_node(source) {
            Some(node) => node,
            None => source.root,
        };
        let node = &source.nodes[origin];
        let id = self.nodes.len();
        let plan = node.children.clone();
        assert(plan@ =~= node.children@);
        let (chance, leaf) = match &node.chance {
            None => (None, node.leaf),
            Some(spec) => {
                self.stats.count(spec.next_street, 1, 1);
                (
                    Some(
                        ChanceNodeSpec {
                            next_street: spec.next_street,
                            outcomes: copy_outcomes(&spec.outcomes),
                        },
                    ),
                    None,
                )
            },
        };
        proof {
            if node.chance is Some {
                lemma_counted(*old(self), *self, *source, node.chance->0.next_street, 1, 1);
            }
        }
        let new_node = TreeNode {
            id,
            parent: self.waiting_node(),
            action_from_parent: node.action_from_parent,
            state: node.state.clone(),
            children: Vec::new(),
            leaf,
            chance,
        };
        self.attach(source, new_node, origin, plan, None);
    }

    /// Places the next node, a chance node, with the outcomes of the groups. Each
    /// gets the probability that the caller gives for its group.
    pub fn place_merged(
        &mut self,
        source: &GameTree,
        groups: Vec<ChanceGrouping>,
        probabilities: &Vec<u64>,
    )
        requires
            old(self).wf(*source),
            outcomes_have_children(*source),
            old(self).next(*source) is Some,
            groups_needed(*source, old(self).next(*source)->0) == Ok::<bool, AbstractionError>(
                true,
            ),
            are_groups(
                groups@,
                source.nodes@[old(self).next(*source)->0 as int].chance->0.outcomes@,
            ),
            probabilities@.len() == groups@.len(),
            old(self).can_count(*source, groups@.len()),
            old(self).nodes@.len() < usize::MAX,
        ensures
            final(self).wf(*source),
            old(self).placed(*final(self), old(self).next(*source)->0),
            final(self).groups@.last() == Some(groups),
            forall|k: int|
                0 <= k < groups@.len() ==> (
                #[trigger] final(self).nodes@.last().chance->0.outcomes@[k]).probability
                    == probabilities@[k],
            old(self).stats_after(*final(self), *source, groups@.len()),
    {
        let origin: usize = match self.next_node(source) {
            Some(node) => node,
            None => source.root,
        };
        let node = &source.nodes[origin];
        let id = self.nodes.len();
        let mut outcomes: Vec<ChanceOutcome> = Vec::new();
        let mut plan: Vec<usize> = Vec::new();
        let mut next_street = Street::Flop;
        proof {
            let spec = node.chance->0;
            lemma_groups_count(groups@, spec.outcomes@);
            assert(node.chance is Some);
            assert(spec.next_street != Street::Preflop);
        }
        match &node.chance {
            None => {},
            Some(spec) => {
                next_street = spec.next_street;
                let mut index: usize = 0;
                while index < groups.len()
                    invariant
                        index <= groups@.len(),
                        groups@.len() == probabilities@.len(),
                        outcomes@.len() == index,
                        plan@.len() == index,
                        node.children@.len() == spec.outcomes@.len(),
                        forall|k: int|
                            0 <= k < groups@.len() ==> (#[trigger] groups@[k]).rep_index
                                < spec.outcomes@.len(),
                        forall|k: int|
                            0 <= k < index ==> (#[trigger] outcomes@[k]).cards@
                                == spec.outcomes@[groups@[k].rep_index as int].cards@
                                && outcomes@[k].probability == probabilities@[k],
                        forall|k: int|
                            0 <= k < index ==> #[trigger] plan@[k]
                                == node.children@[groups@[k].rep_index as int],
                    decreases groups.len() - index,
                {
                    let rep = groups[index].rep_index;
                    let cards = spec.outcomes[rep].cards.clone();
                    assert(cards@ =~= spec.outcomes@[rep as int].cards@);
                    outcomes.push(ChanceOutcome { cards, probability: probabilities[index] });
                    plan.push(node.children[rep]);
                    index = index + 1;
                }
                self.stats.count(spec.next_street, spec.outcomes.len(), groups.len());
                proof {
                    lemma_counted(
                        *old(self),
                        *self,
                        *source,
                        spec.next_street,
                        spec.outcomes@.len(),
                        groups@.len(),
                    );
                }
            },
        }
        let new_node = TreeNode {
            id,
            parent: self.waiting_node(),
            action_from_parent: node.action_from_parent,
            state: node.state.clone(),
            children: Vec::new(),
            leaf: None,
            chance: Some(ChanceNodeSpec { next_street, outcomes }),
        };
        self.attach(source, new_node, origin, plan, Some(groups));
    }

    fn waiting_node(&self) -> (node: Option<usize>)
        ensures
            node == self.waiting(),
    {
        if self.open.len() == 0 {
            None
        } else {
            Some(self.open[self.open.len() - 1])
        }
    }

    fn attach(
        &mut self,
        source: &GameTree,
        node: TreeNode,
        origin: usize,
        plan: Vec<usize>,
        groups: Option<Vec<ChanceGrouping>>,
    )
        requires
            old(self).wf(*source),
            old(self).next(*source) == Some(origin),
            origin < source.nodes@.len(),
            old(self).nodes@.len() < usize::MAX,
            node.id == old(self).nodes@.len(),
            node.parent == old(self).waiting(),
            node.children@.len() == 0,
            copied(node, source.nodes@[origin as int], plan@, groups),
        ensures
            final(self).wf(*source),
            old(self).placed(*final(self), origin),
            final(self).nodes@.last() == node,
            final(self).groups@.last() == groups,
            final(self).stats == old(self).stats,
    {
        let ghost before = *self;
        let id = self.nodes.len();
        assert(self.nodes@.len() == id);
        match self.waiting_node() {
            None => {},
            Some(parent) => {
                self.nodes[parent].children.push(id);
            },
        }
        self.nodes.push(node);
        self.origins.push(origin);
        self.plans.push(plan);
        self.groups.push(groups);
        self.open.push(id);
        let ghost middle = *self;
        proof {
            assert(middle.plans@.drop_last() =~= before.plans@);
            assert(middle.groups@.drop_last() =~= before.groups@);
            assert forall|i: int| 0 <= i < id implies if Some(i as usize) == before.waiting() {
                grown(before.nodes@[i], #[trigger] middle.nodes@[i], id)
            } else {
                middle.nodes@[i] == before.nodes@[i]
            } by {}
            lemma_attached(before, middle, *source, origin);
        }
        while self.open.len() > 0 && self.nodes[self.open[self.open.len()
            - 1]].children.len() >= self.plans[self.open[self.open.len() - 1]].len()
            invariant
                self.nodes == middle.nodes,
                self.origins == middle.origins,
                self.plans == middle.plans,
                self.groups == middle.groups,
                self.stats == middle.stats,
                self.lists_agree(),
                forall|k: int|
                    0 <= k < self.open@.len() ==> #[trigger] self.open@[k] < self.nodes@.len(),
                forall|i: int|
                    0 <= i < self.nodes@.len() && !#[trigger] is_full(
                        self.nodes@,
                        self.plans@,
                        i as usize,
                    ) ==> self.open@.contains(i as usize),
                settled(self.open@, self.nodes@, self.plans@) == settled(
                    middle.open@,
                    middle.nodes@,
                    middle.plans@,
                ),
            decreases self.open@.len(),
        {
            let ghost all = self.open@;
            self.open.pop();
            proof {
                assert(self.open@ =~= all.drop_last());
                assert forall|i: int|
                    0 <= i < self.nodes@.len() && !#[trigger] is_full(
                        self.nodes@,
                        self.plans@,
                        i as usize,
                    ) implies self.open@.contains(i as usize) by {
                    let k = choose|k: int| 0 <= k < all.len() && all[k] == i as usize;
                    assert(k < all.len() - 1);
                    assert(self.open@[k] == i as usize);
                }
            }
        }
        proof {
            assert forall|i: int| 0 <= i < self.nodes@.len() implies #[trigger] self.placed_ok(
                *source,
                i,
            ) by {
                assert(middle.placed_ok(*source, i));
            }
            assert forall|i: int, k: int|
                0 <= i < self.nodes@.len() && 0 <= k
                    < self.nodes@[i].children@.len() implies #[trigger] self.child_ok(i, k) by {
                assert(middle.child_ok(i, k));
            }
        }
    }

    /// There is room to count the next node with `after` outcomes left.
    pub open spec fn can_count(self, source: GameTree, after: nat) -> bool {
        match source.nodes@[self.next(source)->0 as int].chance {
            None => true,
            Some(chance) => countable(
                self.stats.of(chance.next_street),
                chance.outcomes@.len(),
                after,
            ),
        }
    }

    /// The counts after the next node, with `left` outcomes, was placed.
    pub open spec fn stats_after(self, after: Self, source: GameTree, left: nat) -> bool {
        match source.nodes@[self.next(source)->0 as int].chance {
            None => after.stats == self.stats,
            Some(chance) => {
                &&& after.stats.of(chance.next_street) == counted(
                    self.stats.of(chance.next_street),
                    chance.outcomes@.len(),
                    left,
                )
                &&& forall|other: Street|
                    other != chance.next_street ==> #[trigger] after.stats.of(other)
                        == self.stats.of(other)
            },
        }
    }

    /// The tree, once every node is placed.
    pub fn finish(self, source: &GameTree) -> (tree: GameTree)
        requires
            self.wf(*source),
            self.next(*source) is None,
        ensures
            tree.root == 0,
            tree.nodes == self.nodes,
    {
        GameTree { root: 0, nodes: self.nodes }
    }
}

/// Does the node need groups, if it is known and does not lead to preflop?
pub open spec fn groups_needed(source: GameTree, node: usize) -> Result<bool, AbstractionError> {
    if node >= source.nodes@.len() {
        Err(AbstractionError::UnknownNode { node })
    } else {
        match source.nodes@[node as int].chance {
            None => Ok(false),
            Some(chance) => if chance.next_street == Street::Preflop {
                Err(AbstractionError::LeadsToPreflop { node })
            } else {
                Ok(chance.outcomes@.len() != 1)
            },
        }
    }
}

/// Counting a node leaves the rest as it was.
proof fn lemma_counted(
    before: TreeRebuild,
    after: TreeRebuild,
    source: GameTree,
    street: Street,
    outcomes: nat,
    left: nat,
)
    requires
        before.wf(source),
        after.nodes == before.nodes,
        after.origins == before.origins,
        after.plans == before.plans,
        after.groups == before.groups,
        after.open == before.open,
        left <= outcomes,
        street != Street::Preflop,
        countable(before.stats.of(street), outcomes, left),
        after.stats.of(street) == counted(before.stats.of(street), outcomes, left),
        forall|other: Street|
            other != street ==> #[trigger] after.stats.of(other) == before.stats.of(other),
    ensures
        after.wf(source),
        after.next(source) == before.next(source),
{
    assert forall|i: int| 0 <= i < after.nodes@.len() implies #[trigger] after.placed_ok(
        source,
        i,
    ) by {
        assert(before.placed_ok(source, i));
    }
    assert forall|i: int, k: int|
        0 <= i < after.nodes@.len() && 0 <= k
            < after.nodes@[i].children@.len() implies #[trigger] after.child_ok(i, k) by {
        assert(before.child_ok(i, k));
    }
    assert(after.stats.of(Street::Flop) == after.stats.flop);
    assert(after.stats.of(Street::Turn) == after.stats.turn);
    assert(after.stats.of(Street::River) == after.stats.river);
}

proof fn lemma_groups_count(groups: Seq<ChanceGrouping>, outcomes: Seq<ChanceOutcome>)
    requires
        are_groups(groups, outcomes),
    ensures
        groups.len() <= outcomes.len(),
        forall|k: int|
            0 <= k < groups.len() ==> (#[trigger] groups[k]).rep_index < outcomes.len(),
{
    let buckets = choose|buckets: Seq<usize>|
        buckets.len() == outcomes.len() && #[trigger] groups_ok(
            groups,
            outcomes,
            buckets,
            buckets.len() as int,
        );
    assert forall|k: int| 0 <= k < groups.len() implies (#[trigger] groups[k]).rep_index
        < outcomes.len() by {
        assert(group_ok(groups[k], outcomes, buckets, buckets.len() as int));
    }
    if groups.len() > 0 {
        let last = groups.len() - 1;
        lemma_first_members(groups, outcomes, buckets, last);
        assert(group_ok(groups[last], outcomes, buckets, buckets.len() as int));
        lemma_positions_below(buckets, groups[last].bucket, buckets.len() as int);
    }
}

proof fn lemma_first_members(
    groups: Seq<ChanceGrouping>,
    outcomes: Seq<ChanceOutcome>,
    buckets: Seq<usize>,
    index: int,
)
    requires
        groups_ok(groups, outcomes, buckets, buckets.len() as int),
        0 <= index < groups.len(),
    ensures
        index <= groups[index].members@[0],
    decreases index,
{
    if index > 0 {
        lemma_first_members(groups, outcomes, buckets, index - 1);
        assert(groups[index - 1].members@[0] < groups[index].members@[0]);
    }
}

proof fn lemma_positions_below(buckets: Seq<usize>, bucket: usize, count: int)
    requires
        0 <= count,
    ensures
        forall|k: int|
            0 <= k < positions_of(buckets, bucket, count).len() ==> (
            #[trigger] positions_of(buckets, bucket, count)[k]) < count || count > usize::MAX,
    decreases count,
{
    if count > 0 {
        lemma_positions_below(buckets, bucket, count - 1);
        let before = positions_of(buckets, bucket, count - 1);
        let now = positions_of(buckets, bucket, count);
        assert forall|k: int| 0 <= k < now.len() implies (#[trigger] now[k]) < count || count
            > usize::MAX by {
            if k < before.len() {
                assert(now[k] == before[k]);
            }
        }
    }
}

proof fn lemma_attached(before: TreeRebuild, middle: TreeRebuild, source: GameTree, origin: usize)
    requires
        before.wf(source),
        before.next(source) == Some(origin),
        origin < source.nodes@.len(),
        middle.lists_agree(),
        middle.nodes@.len() == before.nodes@.len() + 1,
        forall|i: int|
            0 <= i < before.nodes@.len() ==> if Some(i as usize) == before.waiting() {
                grown(
                    before.nodes@[i],
                    #[trigger] middle.nodes@[i],
                    before.nodes@.len() as usize,
                )
            } else {
                middle.nodes@[i] == before.nodes@[i]
            },
        middle.nodes@.last().id == before.nodes@.len(),
        middle.nodes@.last().parent == before.waiting(),
        middle.nodes@.last().children@.len() == 0,
        middle.origins@ == before.origins@.push(origin),
        middle.plans@.drop_last() == before.plans@,
        middle.groups@.drop_last() == before.groups@,
        copied(
            middle.nodes@.last(),
            source.nodes@[origin as int],
            middle.plans@.last()@,
            middle.groups@.last(),
        ),
        middle.open@ == before.open@.push(before.nodes@.len() as usize),
    ensures
        forall|i: int| 0 <= i < middle.nodes@.len() ==> #[trigger] middle.placed_ok(source, i),
        forall|i: int, k: int|
            0 <= i < middle.nodes@.len() && 0 <= k < middle.nodes@[i].children@.len()
                ==> #[trigger] middle.child_ok(i, k),
        forall|i: int|
            0 <= i < middle.nodes@.len() && !#[trigger] is_full(
                middle.nodes@,
                middle.plans@,
                i as usize,
            ) ==> middle.open@.contains(i as usize),
{
    let id = before.nodes@.len() as int;
    assert(forall|i: int|
        0 <= i < id ==> #[trigger] middle.plans@[i] == middle.plans@.drop_last()[i]);
    assert(forall|i: int|
        0 <= i < id ==> #[trigger] middle.groups@[i] == middle.groups@.drop_last()[i]);
    if id > 0 {
        assert(before.open@.len() > 0);
        assert(before.open@[before.open@.len() - 1] < id);
    }
    assert forall|i: int| 0 <= i < middle.nodes@.len() implies #[trigger] middle.placed_ok(
        source,
        i,
    ) by {
        if i < id {
            assert(before.placed_ok(source, i));
            if i > 0 {
                let parent = before.nodes@[i].parent->0 as int;
                let children = before.nodes@[parent].children@;
                let k = choose|k: int| 0 <= k < children.len() && children[k] == i as usize;
                assert(middle.nodes@[parent].children@[k] == i as usize);
            }
            if Some(i as usize) == before.waiting() {
                assert(!is_full(before.nodes@, before.plans@, i as usize));
            }
        } else if id > 0 {
            let parent = before.waiting()->0 as int;
            let children = middle.nodes@[parent].children@;
            assert(children[children.len() - 1] == id as usize);
        } else {
            assert(before.open@.len() == 0);
        }
    }
    assert forall|i: int, k: int|
        0 <= i < middle.nodes@.len() && 0 <= k
            < middle.nodes@[i].children@.len() implies #[trigger] middle.child_ok(i, k) by {
        assert(i < id);
        if k < before.nodes@[i].children@.len() {
            assert(before.child_ok(i, k));
            let child = before.nodes@[i].children@[k] as int;
            assert(middle.nodes@[i].children@[k] == child);
            assert(middle.nodes@[child].parent == before.nodes@[child].parent);
            assert(middle.origins@[child] == before.origins@[child]);
        } else {
            assert(Some(i as usize) == before.waiting());
            assert(middle.nodes@[i].children@[k] == id as usize);
            assert(middle.nodes@[id].parent == before.waiting());
        }
    }
    assert forall|i: int|
        0 <= i < middle.nodes@.len() && !#[trigger] is_full(
            middle.nodes@,
            middle.plans@,
            i as usize,
        ) implies middle.open@.contains(i as usize) by {
        if i < id {
            assert(!is_full(before.nodes@, before.plans@, i as usize));
            let k = choose|k: int|
                0 <= k < before.open@.len() && before.open@[k] == i as usize;
            assert(middle.open@[k] == i as usize);
        } else {
            assert(middle.open@[middle.open@.len() - 1] == i as usize);
        }
    }
}

/// The finished tree of a well-formed tree is well formed, if the states and
/// the merged probabilities are in order.
pub proof fn lemma_rebuilt_tree_is_well_formed(
    rebuild: TreeRebuild,
    source: GameTree,
    source_facts: Seq<NodeFacts>,
    tree: GameTree,
    facts: Seq<NodeFacts>,
)
    requires
        rebuild.wf(source),
        rebuild.next(source) is None,
        well_formed(source, source_facts),
        tree.root == 0,
        tree.nodes == rebuild.nodes,
        facts.len() == tree.nodes@.len(),
        forall|i: int|
            0 <= i < facts.len() ==> (#[trigger] facts[i]).state_ok && facts[i].probabilities_ok,
    ensures
        well_formed(tree, facts),
{
    let nodes = tree.nodes@;
    assert forall|i: int| 0 <= i < nodes.len() implies crate::tree::node_well_formed(
        nodes,
        #[trigger] facts[i],
        i,
    ) by {
        assert(rebuild.placed_ok(source, i));
        let origin = rebuild.origins@[i] as int;
        assert(crate::tree::node_well_formed(source.nodes@, source_facts[origin], origin));
        assert(is_full(rebuild.nodes@, rebuild.plans@, i as usize));
        assert forall|k: int| 0 <= k < nodes[i].children@.len() implies {
            let child = #[trigger] nodes[i].children@[k];
            child < nodes.len() && nodes[child as int].parent == Some(i as usize)
        } by {
            assert(rebuild.child_ok(i, k));
        }
        if i == 0 {
            assert(crate::tree::node_well_formed(source.nodes@, source_facts[0], 0));
        } else {
            lemma_edges(rebuild, source, source_facts, i);
        }
        match source.nodes@[origin].chance {
            None => {},
            Some(chance) => {
                assert(nodes[i].chance->0.outcomes@.len() == nodes[i].children@.len());
            },
        }
    }
}

proof fn lemma_edges(
    rebuild: TreeRebuild,
    source: GameTree,
    source_facts: Seq<NodeFacts>,
    i: int,
)
    requires
        rebuild.wf(source),
        well_formed(source, source_facts),
        0 < i < rebuild.nodes@.len(),
    ensures
        rebuild.nodes@[i].parent is Some,
        rebuild.nodes@[rebuild.nodes@[i].parent->0 as int].chance is Some
            == rebuild.nodes@[i].action_from_parent is None,
{
    assert(rebuild.placed_ok(source, i));
    let parent = rebuild.nodes@[i].parent->0 as int;
    let children = rebuild.nodes@[parent].children@;
    let k = choose|k: int| 0 <= k < children.len() && children[k] == i as usize;
    assert(rebuild.child_ok(parent, k));
    assert(rebuild.placed_ok(source, parent));
    let origin = rebuild.origins@[i] as int;
    let above = rebuild.origins@[parent] as int;
    let plan = rebuild.plans@[parent]@;
    assert(origin == plan[k]);
    assert(crate::tree::node_well_formed(source.nodes@, source_facts[above], above));
    assert(crate::tree::node_well_formed(source.nodes@, source_facts[origin], origin));
    assert(source.nodes@[above].children@.contains(origin as usize)) by {
        match source.nodes@[above].chance {
            None => {
                assert(source.nodes@[above].children@[k] == origin as usize);
            },
            Some(chance) => {
                if chance.outcomes@.len() == 1 {
                    assert(source.nodes@[above].children@[k] == origin as usize);
                } else {
                    let groups = rebuild.groups@[parent]->0;
                    lemma_groups_count(groups@, chance.outcomes@);
                    assert(groups@[k].rep_index < chance.outcomes@.len());
                    assert(plan[k] == source.nodes@[above].children@[groups@[k].rep_index as int]);
                }
            },
        }
    }
    let j = choose|j: int|
        0 <= j < source.nodes@[above].children@.len() && source.nodes@[above].children@[j]
            == origin as usize;
    assert(source.nodes@[origin].parent == Some(above as usize));
}

/// Merging merged outcomes again, by the same buckets, changes nothing: each
/// makes a group of its own, in the same order.
pub proof fn lemma_merging_is_idempotent(
    groups: Seq<ChanceGrouping>,
    outcomes: Seq<ChanceOutcome>,
    buckets: Seq<usize>,
    merged: Seq<ChanceOutcome>,
    merged_buckets: Seq<usize>,
    again: Seq<ChanceGrouping>,
)
    requires
        buckets.len() == outcomes.len(),
        outcomes.len() <= usize::MAX,
        groups_ok(groups, outcomes, buckets, buckets.len() as int),
        merged_outcomes(merged, outcomes, groups),
        merged_buckets.len() == groups.len(),
        forall|k: int|
            0 <= k < groups.len() ==> #[trigger] merged_buckets[k] == groups[k].bucket,
        groups_ok(again, merged, merged_buckets, merged_buckets.len() as int),
    ensures
        again.len() == groups.len(),
        forall|k: int|
            0 <= k < again.len() ==> {
                &&& (#[trigger] again[k]).members@ == seq![k as usize]
                &&& again[k].rep_index == k
                &&& again[k].bucket == groups[k].bucket
            },
{
    let count = merged_buckets.len() as int;
    assert(are_groups(groups, outcomes));
    lemma_groups_count(groups, outcomes);
    assert(are_groups(again, merged));
    lemma_groups_count(again, merged);
    assert forall|i: int, j: int| 0 <= i < j < count implies merged_buckets[i]
        != merged_buckets[j] by {
        assert(groups[i].bucket != groups[j].bucket);
    }
    assert forall|k: int| 0 <= k < count implies k < again.len() && (
    #[trigger] merged_buckets[k]) == again[k].bucket by {
        lemma_single_groups(again, merged, merged_buckets, k);
    }
    if again.len() < count {
        let b = merged_buckets[again.len() as int];
    }
    assert forall|k: int| 0 <= k < again.len() implies {
        &&& (#[trigger] again[k]).members@ == seq![k as usize]
        &&& again[k].rep_index == k
        &&& again[k].bucket == groups[k].bucket
    } by {
        let b = merged_buckets[k];
        assert(group_ok(again[k], merged, merged_buckets, count));
        lemma_only_position(merged_buckets, k, count);
    }
}

/// With different buckets, a bucket has one position.
proof fn lemma_only_position(buckets: Seq<usize>, index: int, count: int)
    requires
        0 <= index < buckets.len(),
        0 <= count <= buckets.len() <= usize::MAX,
        forall|i: int, j: int| 0 <= i < j < buckets.len() ==> buckets[i] != buckets[j],
    ensures
        positions_of(buckets, buckets[index], count) == if index < count {
            seq![index as usize]
        } else {
            Seq::empty()
        },
    decreases count,
{
    if count > 0 {
        lemma_only_position(buckets, index, count - 1);
        if count - 1 == index {
            assert(positions_of(buckets, buckets[index], count) =~= seq![index as usize]);
        }
    }
}

/// With different buckets, the groups follow the order of the outcomes.
proof fn lemma_single_groups(
    groups: Seq<ChanceGrouping>,
    outcomes: Seq<ChanceOutcome>,
    buckets: Seq<usize>,
    index: int,
)
    requires
        groups_ok(groups, outcomes, buckets, buckets.len() as int),
        buckets.len() <= usize::MAX,
        0 <= index < buckets.len(),
        forall|i: int, j: int| 0 <= i < j < buckets.len() ==> buckets[i] != buckets[j],
    ensures
        index < groups.len(),
        groups[index].bucket == buckets[index],
        groups[index].members@[0] == index,
    decreases index,
{
    let count = buckets.len() as int;
    assert(crate::card_abstraction::has_group(groups, buckets[index]));
    let g = choose|g: int| 0 <= g < groups.len() && (#[trigger] groups[g]).bucket == buckets[index];
    assert(group_ok(groups[g], outcomes, buckets, count));
    lemma_only_position(buckets, index, count);
    assert(groups[g].members@[0] == index);
    if g < index {
        lemma_single_groups(groups, outcomes, buckets, g);
    } else {
        lemma_first_members(groups, outcomes, buckets, index);
        if g > index {
            assert(groups[index].members@[0] < groups[g].members@[0]);
        }
    }
}

} // verus!
