//! Reachability and cycles in node graphs, by a depth-first walk with marks.
use vstd::prelude::*;

verus! {

/// The edge lists of a graph.
pub open spec fn edge_lists(edges: Seq<Vec<usize>>) -> Seq<Seq<usize>> {
    edges.map(|i: int, list: Vec<usize>| list@)
}

/// `path` follows edges.
pub open spec fn is_path(edges: Seq<Seq<usize>>, path: Seq<usize>) -> bool {
    &&& path.len() > 0
    &&& forall|i: int|
        0 <= i < path.len() - 1 ==> (#[trigger] path[i]) < edges.len()
            && edges[path[i] as int].contains(path[i + 1])
}

/// Some path leads from `from` to `to`.
pub open spec fn leads(edges: Seq<Seq<usize>>, from: usize, to: usize) -> bool {
    exists|path: Seq<usize>| #[trigger]
        is_path(edges, path) && path[0] == from && path.last() == to
}

/// Some path leads from `node` back to it.
pub open spec fn on_cycle(edges: Seq<Seq<usize>>, node: usize) -> bool {
    exists|path: Seq<usize>| #[trigger]
        is_path(edges, path) && path.len() > 1 && path[0] == node && path.last() == node
}

/// Every edge leads to a node.
pub open spec fn edges_ok(edges: Seq<Seq<usize>>) -> bool {
    forall|i: int, k: int|
        0 <= i < edges.len() && 0 <= k < edges[i].len() ==> (#[trigger] edges[i][k])
            < edges.len()
}

#[derive(Debug, Clone, Copy, PartialEq, Eq, Structural)]
pub enum ReachError {
    /// A node on a cycle that the root leads to.
    Cycle { node: usize },
    /// Some node that the root does not lead to.
    Unreachable,
}

/// No node that the root leads to lies on a cycle.
pub open spec fn acyclic_from(edges: Seq<Seq<usize>>, root: usize) -> bool {
    forall|node: usize| #[trigger] leads(edges, root, node) ==> !on_cycle(edges, node)
}

/// The root leads to every node.
pub open spec fn all_reached(edges: Seq<Seq<usize>>, root: usize) -> bool {
    forall|i: int| 0 <= i < edges.len() ==> #[trigger] leads(edges, root, i as usize)
}

/// Every edge leads to a node of lower rank.
pub open spec fn ranked(edges: Seq<Seq<usize>>, ranks: Seq<nat>) -> bool {
    &&& ranks.len() == edges.len()
    &&& forall|i: int, k: int|
        0 <= i < edges.len() && 0 <= k < edges[i].len() ==> ranks[(#[trigger] edges[i][k]) as int]
            < ranks[i]
}

/// The first node that a depth-first walk meets again on its own way: `way` leads
/// from the root to the node whose edges are followed, from edge `from` on.
pub open spec fn met_again(edges: Seq<Seq<usize>>, way: Seq<usize>, from: int) -> Option<usize>
    decreases edges.len() - way.len(), edges[way.last() as int].len() - from,
{
    let targets = edges[way.last() as int];
    if from >= targets.len() {
        None
    } else if way.contains(targets[from]) {
        Some(targets[from])
    } else {
        let deeper = if way.len() < edges.len() {
            met_again(edges, way.push(targets[from]), 0)
        } else {
            None
        };
        match deeper {
            Some(node) => Some(node),
            None => met_again(edges, way, from + 1),
        }
    }
}

/// What a depth-first walk from the root says: the first node that it meets again
/// on its own way, or else whether it has seen every node.
pub open spec fn reach_error(edges: Seq<Seq<usize>>, root: usize) -> Option<ReachError> {
    match met_again(edges, seq![root], 0) {
        Some(node) => Some(ReachError::Cycle { node }),
        None => if all_reached(edges, root) {
            None
        } else {
            Some(ReachError::Unreachable)
        },
    }
}

/// Different numbers below `count` are at most `count` many.
proof fn lemma_few_numbers(numbers: Seq<usize>, count: nat)
    requires
        numbers.no_duplicates(),
        forall|i: int| 0 <= i < numbers.len() ==> #[trigger] numbers[i] < count,
    ensures
        numbers.len() <= count,
    decreases count,
{
    if count == 0 {
        if numbers.len() > 0 {
            assert(numbers[0] < count);
        }
    } else if exists|i: int| 0 <= i < numbers.len() && #[trigger] numbers[i] == count - 1 {
        let at = choose|i: int| 0 <= i < numbers.len() && #[trigger] numbers[i] == count - 1;
        let rest = numbers.remove(at);
        assert forall|i: int| 0 <= i < rest.len() implies #[trigger] rest[i] < count - 1 by {
            let j = if i < at { i } else { i + 1 };
            assert(rest[i] == numbers[j]);
            assert(numbers[j] != numbers[at]);
        }
        assert(rest.no_duplicates()) by {
            assert forall|i: int, j: int|
                0 <= i < rest.len() && 0 <= j < rest.len() && i != j implies rest[i] != rest[j] by {
                let x = if i < at { i } else { i + 1 };
                let y = if j < at { j } else { j + 1 };
                assert(rest[i] == numbers[x] && rest[j] == numbers[y]);
            }
        }
        lemma_few_numbers(rest, (count - 1) as nat);
    } else {
        assert forall|i: int| 0 <= i < numbers.len() implies #[trigger] numbers[i] < count - 1 by {
            assert(numbers[i] < count);
        }
        lemma_few_numbers(numbers, (count - 1) as nat);
    }
}

/// Nothing is met again behind a black node: it leads to black nodes of lower rank
/// only, while the way holds grey nodes and black ones of higher rank.
proof fn lemma_black_meets_nothing(
    edges: Seq<Seq<usize>>,
    root: usize,
    marks: Seq<u8>,
    stack: Seq<usize>,
    ranks: Seq<nat>,
    way: Seq<usize>,
    from: int,
)
    requires
        edges_ok(edges),
        walk_ok(edges, root, marks, stack, ranks),
        way.len() > 0,
        0 <= from,
        way.last() < edges.len(),
        marks[way.last() as int] == 2,
        forall|i: int|
            0 <= i < way.len() ==> (#[trigger] way[i]) < edges.len() && (marks[way[i] as int] == 1
                || ranks[way.last() as int] <= ranks[way[i] as int]),
    ensures
        met_again(edges, way, from) is None,
    decreases edges.len() - way.len(), edges[way.last() as int].len() - from,
{
    reveal(walk_ok);
    let node = way.last() as int;
    let targets = edges[node];
    if from < targets.len() {
        let child = edges[node][from];
        assert(child < edges.len());
        assert(marks[child as int] == 2 && ranks[child as int] < ranks[node]);
        if way.contains(child) {
            let i = choose|i: int| 0 <= i < way.len() && way[i] == child;
            assert(way[i] < edges.len());
        }
        if way.len() < edges.len() {
            let longer = way.push(child);
            assert forall|i: int| 0 <= i < longer.len() implies (#[trigger] longer[i]) < edges.len()
                && (marks[longer[i] as int] == 1 || ranks[longer.last() as int]
                <= ranks[longer[i] as int]) by {
                if i < way.len() {
                    assert(way[i] < edges.len());
                }
            }
            lemma_black_meets_nothing(edges, root, marks, stack, ranks, longer, 0);
        }
        lemma_black_meets_nothing(edges, root, marks, stack, ranks, way, from + 1);
    }
}

spec fn white_count(marks: Seq<u8>) -> nat
    decreases marks.len(),
{
    if marks.len() == 0 {
        0
    } else {
        white_count(marks.drop_last()) + (if marks.last() == 0 {
            1nat
        } else {
            0
        })
    }
}

proof fn lemma_white_update(marks: Seq<u8>, index: int, mark: u8)
    requires
        0 <= index < marks.len(),
        marks[index] == 0,
        mark != 0,
    ensures
        white_count(marks.update(index, mark)) + 1 == white_count(marks),
    decreases marks.len(),
{
    let after = marks.update(index, mark);
    if index == marks.len() - 1 {
        assert(after.drop_last() =~= marks.drop_last());
    } else {
        assert(after.drop_last() =~= marks.drop_last().update(index, mark));
        lemma_white_update(marks.drop_last(), index, mark);
    }
}

proof fn lemma_white_monotone(before: Seq<u8>, after: Seq<u8>)
    requires
        before.len() == after.len(),
        forall|i: int| 0 <= i < before.len() && before[i] != 0 ==> #[trigger] after[i] != 0,
    ensures
        white_count(after) <= white_count(before),
    decreases before.len(),
{
    if before.len() > 0 {
        assert forall|i: int|
            0 <= i < before.drop_last().len() && before.drop_last()[i] != 0 implies
            #[trigger] after.drop_last()[i] != 0 by {
            assert(before[i] != 0);
            assert(after[i] != 0);
        }
        lemma_white_monotone(before.drop_last(), after.drop_last());
        let last = before.len() - 1;
        assert(before[last] != 0 ==> after[last] != 0);
    }
}

/// What holds of the marks while the nodes of `stack` are being walked: they
/// are the grey ones, the root leads to every node that is not white, and the
/// black ones lead to black ones of lower rank only.
#[verifier::opaque]
spec fn walk_ok(
    edges: Seq<Seq<usize>>,
    root: usize,
    marks: Seq<u8>,
    stack: Seq<usize>,
    ranks: Seq<nat>,
) -> bool {
    &&& edges.len() <= usize::MAX
    &&& marks.len() == edges.len()
    &&& ranks.len() == edges.len()
    &&& forall|i: int| 0 <= i < marks.len() ==> #[trigger] marks[i] <= 2
    &&& forall|i: int|
        0 <= i < marks.len() ==> (#[trigger] marks[i] == 1 <==> stack.contains(i as usize))
    &&& forall|i: int| 0 <= i < stack.len() ==> #[trigger] stack[i] < edges.len()
    &&& stack.no_duplicates()
    &&& stack.len() > 0 ==> is_path(edges, stack) && stack[0] == root
    &&& forall|i: int|
        0 <= i < marks.len() && #[trigger] marks[i] == 2 ==> leads(edges, root, i as usize)
    &&& forall|i: int, k: int|
        0 <= i < marks.len() && marks[i] == 2 && 0 <= k < edges[i].len() ==> {
            let child = #[trigger] edges[i][k];
            marks[child as int] == 2 && ranks[child as int] < ranks[i]
        }
}

proof fn lemma_extend_path(edges: Seq<Seq<usize>>, path: Seq<usize>, next: usize)
    requires
        is_path(edges, path),
        path.last() < edges.len(),
        edges[path.last() as int].contains(next),
    ensures
        is_path(edges, path.push(next)),
{
    let longer = path.push(next);
    assert forall|i: int| 0 <= i < longer.len() - 1 implies (#[trigger] longer[i]) < edges.len()
        && edges[longer[i] as int].contains(longer[i + 1]) by {
        if i < path.len() - 1 {
            assert(path[i] < edges.len());
        }
    }
}

/// A white node may be entered.
proof fn lemma_enter(
    edges: Seq<Seq<usize>>,
    root: usize,
    marks: Seq<u8>,
    stack: Seq<usize>,
    ranks: Seq<nat>,
    node: usize,
)
    requires
        edges_ok(edges),
        walk_ok(edges, root, marks, stack, ranks),
        node < edges.len(),
        marks[node as int] == 0,
        is_path(edges, stack.push(node)),
        stack.push(node)[0] == root,
    ensures
        walk_ok(edges, root, marks.update(node as int, 1), stack.push(node), ranks),
{
    reveal(walk_ok);
    let here = stack.push(node);
    let entered = marks.update(node as int, 1);
    assert(here.no_duplicates()) by {
        assert(marks[node as int] != 1);
        assert(!stack.contains(node as int as usize));
    }
    assert forall|i: int| 0 <= i < entered.len() implies (#[trigger] entered[i] == 1
        <==> here.contains(i as usize)) by {
        if i == node {
            assert(here[stack.len() as int] == node);
        } else {
            assert(marks[i] == 1 <==> stack.contains(i as usize));
            if stack.contains(i as usize) {
                let p = choose|p: int| 0 <= p < stack.len() && stack[p] == i as usize;
                assert(here[p] == i as usize);
            }
            if here.contains(i as usize) {
                let p = choose|p: int| 0 <= p < here.len() && here[p] == i as usize;
                assert(p != stack.len());
                assert(stack[p] == i as usize);
            }
        }
    }
    assert forall|i: int, k: int|
        0 <= i < entered.len() && entered[i] == 2 && 0 <= k < edges[i].len() implies {
        let child = #[trigger] edges[i][k];
        entered[child as int] == 2 && ranks[child as int] < ranks[i]
    } by {
        assert(marks[i] == 2);
        assert(edges[i][k] < edges.len());
    }
    assert forall|i: int| 0 <= i < entered.len() && #[trigger] entered[i] == 2 implies leads(
        edges,
        root,
        i as usize,
    ) by {
        assert(marks[i] == 2);
    }
}

/// A node whose children are all black may turn black.
proof fn lemma_leave(
    edges: Seq<Seq<usize>>,
    root: usize,
    marks: Seq<u8>,
    stack: Seq<usize>,
    ranks: Seq<nat>,
    node: usize,
)
    requires
        edges_ok(edges),
        walk_ok(edges, root, marks, stack.push(node), ranks),
        node < edges.len(),
        !stack.contains(node),
        stack.len() > 0 ==> is_path(edges, stack) && stack[0] == root,
        leads(edges, root, node),
        forall|j: int|
            0 <= j < edges[node as int].len() ==> marks[(#[trigger] edges[node as int][j]) as int]
                == 2,
    ensures
        walk_ok(
            edges,
            root,
            marks.update(node as int, 2),
            stack,
            ranks.update(node as int, highest(ranks) + 1),
        ),
{
    reveal(walk_ok);
    let here = stack.push(node);
    let left = marks.update(node as int, 2);
    assert(stack.no_duplicates()) by {
        assert forall|i: int, j: int|
            0 <= i < stack.len() && 0 <= j < stack.len() && i != j implies stack[i] != stack[j] by {
            assert(here[i] != here[j]);
        }
    }
    let finished = ranks.update(node as int, highest(ranks) + 1);
    assert(here[stack.len() as int] == node);
    assert(marks[node as int] == 1);
    assert forall|i: int| 0 <= i < left.len() implies (#[trigger] left[i] == 1 <==> stack.contains(
        i as usize,
    )) by {
        if i != node {
            assert(marks[i] == 1 <==> here.contains(i as usize));
            if stack.contains(i as usize) {
                let p = choose|p: int| 0 <= p < stack.len() && stack[p] == i as usize;
                assert(here[p] == i as usize);
            }
            if here.contains(i as usize) {
                let p = choose|p: int| 0 <= p < here.len() && here[p] == i as usize;
                assert(p != stack.len());
                assert(stack[p] == i as usize);
            }
        }
    }
    assert forall|i: int| 0 <= i < stack.len() implies #[trigger] stack[i] < edges.len() by {
        assert(here[i] < edges.len());
    }
    assert forall|i: int, j: int|
        0 <= i < left.len() && left[i] == 2 && 0 <= j < edges[i].len() implies {
        let child = #[trigger] edges[i][j];
        left[child as int] == 2 && finished[child as int] < finished[i]
    } by {
        let child = edges[i][j];
        assert(child < edges.len());
        if i == node {
            lemma_highest(ranks, child as int);
        }
        assert(child != node);
    }
    assert forall|i: int| 0 <= i < left.len() && #[trigger] left[i] == 2 implies leads(
        edges,
        root,
        i as usize,
    ) by {
        if i != node {
            assert(marks[i] == 2);
        }
    }
}

/// Meeting a grey node closes a cycle.
proof fn lemma_grey_closes_cycle(edges: Seq<Seq<usize>>, stack: Seq<usize>, node: usize)
    requires
        is_path(edges, stack.push(node)),
        stack.contains(node),
    ensures
        on_cycle(edges, node),
{
    let here = stack.push(node);
    let p = choose|p: int| 0 <= p < stack.len() && stack[p] == node;
    let cycle = here.skip(p);
    assert forall|i: int| 0 <= i < cycle.len() - 1 implies (#[trigger] cycle[i]) < edges.len()
        && edges[cycle[i] as int].contains(cycle[i + 1]) by {
        assert(here[p + i] == cycle[i]);
        assert(here[p + i + 1] == cycle[i + 1]);
    }
    assert(is_path(edges, cycle) && cycle.len() > 1 && cycle[0] == node && cycle.last() == node);
}

proof fn lemma_walk_facts(
    edges: Seq<Seq<usize>>,
    root: usize,
    marks: Seq<u8>,
    stack: Seq<usize>,
    ranks: Seq<nat>,
)
    requires
        walk_ok(edges, root, marks, stack, ranks),
    ensures
        edges.len() <= usize::MAX,
        marks.len() == edges.len(),
        ranks.len() == edges.len(),
        forall|i: int| 0 <= i < marks.len() ==> #[trigger] marks[i] <= 2,
        forall|i: int|
            0 <= i < marks.len() ==> (#[trigger] marks[i] == 1 <==> stack.contains(i as usize)),
        stack.len() > 0 ==> is_path(edges, stack) && stack[0] == root && stack.last() < edges.len(),
        stack.no_duplicates(),
        forall|i: int| 0 <= i < stack.len() ==> #[trigger] stack[i] < edges.len(),
{
    reveal(walk_ok);
    if stack.len() > 0 {
        assert(stack[stack.len() - 1] < edges.len());
    }
}

/// A branch that meets a node again decides what the walk meets.
proof fn lemma_branch_meets(
    edges: Seq<Seq<usize>>,
    root: usize,
    marks: Seq<u8>,
    way: Seq<usize>,
    ranks: Seq<nat>,
    k: int,
    found: usize,
)
    requires
        edges_ok(edges),
        walk_ok(edges, root, marks, way, ranks),
        way.len() > 0,
        way.last() < edges.len(),
        0 <= k < edges[way.last() as int].len(),
        ({
            let child = edges[way.last() as int][k];
            if marks[child as int] == 1 {
                found == child
            } else {
                met_again(edges, way.push(child), 0) == Some(found)
            }
        }),
    ensures
        met_again(edges, way, k) == Some(found),
{
    let child = edges[way.last() as int][k];
    assert(child < edges.len());
    lemma_walk_facts(edges, root, marks, way, ranks);
    assert(marks[child as int] == 1 <==> way.contains(child as int as usize));
    if !way.contains(child) {
        let deeper = way.push(child);
        assert(deeper.no_duplicates());
        assert forall|i: int| 0 <= i < deeper.len() implies #[trigger] deeper[i] < edges.len() by {
            if i < way.len() {
                assert(way[i] < edges.len());
            }
        }
        lemma_few_numbers(deeper, edges.len());
    }
}

/// A branch whose node has turned black meets nothing again.
proof fn lemma_branch_done(
    edges: Seq<Seq<usize>>,
    root: usize,
    marks: Seq<u8>,
    way: Seq<usize>,
    ranks: Seq<nat>,
    k: int,
)
    requires
        edges_ok(edges),
        walk_ok(edges, root, marks, way, ranks),
        way.len() > 0,
        way.last() < edges.len(),
        0 <= k < edges[way.last() as int].len(),
        marks[edges[way.last() as int][k] as int] == 2,
    ensures
        met_again(edges, way, k) == met_again(edges, way, k + 1),
{
    let child = edges[way.last() as int][k];
    assert(child < edges.len());
    lemma_walk_facts(edges, root, marks, way, ranks);
    assert(marks[child as int] == 1 <==> way.contains(child as int as usize));
    let deeper = way.push(child);
    assert forall|i: int| 0 <= i < deeper.len() implies (#[trigger] deeper[i]) < edges.len() && (
    marks[deeper[i] as int] == 1 || ranks[deeper.last() as int] <= ranks[deeper[i] as int]) by {
        if i < way.len() {
            assert(way[i] < edges.len());
            assert(way.contains(way[i]));
            assert(marks[way[i] as int] == 1);
        }
    }
    lemma_black_meets_nothing(edges, root, marks, way, ranks, deeper, 0);
}

/// Walks from `node` on. `stack` is the way from the root to the node before
/// it.
fn visit(
    edges: &Vec<Vec<usize>>,
    root: usize,
    node: usize,
    marks: &mut Vec<u8>,
    Ghost(stack): Ghost<Seq<usize>>,
    Ghost(ranks): Ghost<Seq<nat>>,
) -> (result: (Result<(), usize>, Ghost<Seq<nat>>))
    requires
        edges_ok(edge_lists(edges@)),
        node < edge_lists(edges@).len(),
        walk_ok(edge_lists(edges@), root, old(marks)@, stack, ranks),
        if stack.len() == 0 {
            node == root
        } else {
            edge_lists(edges@)[stack.last() as int].contains(node)
        },
    ensures
        match result.0 {
            Ok(_) => {
                &&& walk_ok(edge_lists(edges@), root, final(marks)@, stack, result.1@)
                &&& final(marks)@.len() == edge_lists(edges@).len()
                &&& final(marks)@[node as int] == 2
                &&& forall|i: int|
                    0 <= i < edge_lists(edges@).len() && old(marks)@[i] != 0 ==> #[trigger] final(marks)@[i]
                        == old(marks)@[i]
            },
            Err(found) => {
                &&& found < edge_lists(edges@).len()
                &&& on_cycle(edge_lists(edges@), found)
                &&& leads(edge_lists(edges@), root, found)
                &&& if old(marks)@[node as int] == 1 {
                    found == node
                } else {
                    met_again(edge_lists(edges@), stack.push(node), 0) == Some(found)
                }
            },
        },
    decreases white_count(old(marks)@),
{
    let ghost here = stack.push(node);
    let ghost start = marks@;
    proof {
        lemma_walk_facts(edge_lists(edges@), root, marks@, stack, ranks);
        if stack.len() > 0 {
            lemma_extend_path(edge_lists(edges@), stack, node);
        }
        assert(is_path(edge_lists(edges@), here) && here[0] == root && here.last() == node);
        assert(leads(edge_lists(edges@), root, node));
    }
    if marks[node] == 1 {
        proof {
            lemma_grey_closes_cycle(edge_lists(edges@), stack, node);
        }
        return (Err(node), Ghost(ranks));
    }
    if marks[node] == 2 {
        return (Ok(()), Ghost(ranks));
    }
    marks[node] = 1;
    let ghost mut ranked = ranks;
    let ghost entered = marks@;
    proof {
        assert(start[node as int] == 0);
        lemma_white_update(start, node as int, 1);
        lemma_enter(edge_lists(edges@), root, start, stack, ranks, node);
        assert(entered =~= start.update(node as int, 1));
    }
    let children = &edges[node];
    let mut k: usize = 0;
    while k < children.len()
        invariant
            k <= children@.len(),
            edges_ok(edge_lists(edges@)),
            node < edge_lists(edges@).len(),
            children@ == edge_lists(edges@)[node as int],
            children == edges@[node as int],
            here == stack.push(node),
            entered.len() == edge_lists(edges@).len(),
            marks@.len() == edge_lists(edges@).len(),
            entered[node as int] == 1,
            walk_ok(edge_lists(edges@), root, marks@, here, ranked),
            forall|i: int|
                0 <= i < edge_lists(edges@).len() && entered[i] != 0 ==> #[trigger] marks@[i] == entered[i],
            forall|j: int| 0 <= j < k ==> marks@[(#[trigger] children@[j]) as int] == 2,
            white_count(entered) < white_count(old(marks)@),
            here.last() == node,
            old(marks)@[node as int] == 0,
            met_again(edge_lists(edges@), here, 0) == met_again(
                edge_lists(edges@),
                here,
                k as int,
            ),
        decreases children.len() - k,
    {
        let child = children[k];
        proof {
            assert(edge_lists(edges@)[node as int][k as int] < edge_lists(edges@).len());
            assert(edge_lists(edges@)[here.last() as int].contains(child));
            lemma_white_monotone(entered, marks@);
        }
        let ghost before = marks@;
        let (walked, Ghost(new_ranks)) = visit(
            edges,
            root,
            child,
            marks,
            Ghost(here),
            Ghost(ranked),
        );
        match walked {
            Err(found) => {
                proof {
                    lemma_branch_meets(
                        edge_lists(edges@),
                        root,
                        before,
                        here,
                        ranked,
                        k as int,
                        found,
                    );
                }
                return (Err(found), Ghost(new_ranks));
            },
            Ok(_) => {},
        }
        proof {
            ranked = new_ranks;
            lemma_branch_done(edge_lists(edges@), root, marks@, here, ranked, k as int);
            assert forall|i: int| 0 <= i < edge_lists(edges@).len() && entered[i] != 0 implies
                #[trigger] marks@[i] == entered[i] by {
                assert(before[i] == entered[i]);
            }
            assert forall|j: int| 0 <= j < k + 1 implies marks@[(#[trigger] children@[j]) as int]
                == 2 by {
                assert(edge_lists(edges@)[node as int][j] < edge_lists(edges@).len());
                if j < k {
                    assert(before[children@[j] as int] == 2);
                }
            }
        }
        k = k + 1;
    }
    let ghost walked_marks = marks@;
    marks[node] = 2;
    let ghost finished = ranked.update(node as int, highest(ranked) + 1);
    proof {
        lemma_leave(edge_lists(edges@), root, walked_marks, stack, ranked, node);
        assert(marks@ =~= walked_marks.update(node as int, 2));
        assert forall|i: int| 0 <= i < edge_lists(edges@).len() && old(marks)@[i] != 0 implies
            #[trigger] marks@[i] == old(marks)@[i] by {
            assert(entered[i] == start[i]);
            assert(walked_marks[i] == entered[i]);
        }
    }
    (Ok(()), Ghost(finished))
}

/// A number that no rank exceeds.
spec fn highest(ranks: Seq<nat>) -> nat
    decreases ranks.len(),
{
    if ranks.len() == 0 {
        0
    } else {
        let rest = highest(ranks.drop_last());
        if rest > ranks.last() {
            rest
        } else {
            ranks.last()
        }
    }
}

proof fn lemma_highest(ranks: Seq<nat>, index: int)
    requires
        0 <= index < ranks.len(),
    ensures
        ranks[index] <= highest(ranks),
    decreases ranks.len(),
{
    if index < ranks.len() - 1 {
        lemma_highest(ranks.drop_last(), index);
    }
}

proof fn lemma_path_stays_black(
    edges: Seq<Seq<usize>>,
    root: usize,
    marks: Seq<u8>,
    ranks: Seq<nat>,
    path: Seq<usize>,
    index: int,
)
    requires
        edges_ok(edges),
        walk_ok(edges, root, marks, Seq::empty(), ranks),
        is_path(edges, path),
        path[0] < edges.len(),
        marks[path[0] as int] == 2,
        0 <= index < path.len(),
    ensures
        path[index] < edges.len(),
        marks[path[index] as int] == 2,
        ranks[path[index] as int] <= ranks[path[0] as int],
        index > 0 ==> ranks[path[index] as int] < ranks[path[0] as int],
    decreases index,
{
    reveal(walk_ok);
    if index > 0 {
        lemma_path_stays_black(edges, root, marks, ranks, path, index - 1);
        let above = path[index - 1];
        let k = choose|k: int|
            0 <= k < edges[above as int].len() && edges[above as int][k] == path[index];
        assert(edges[above as int][k] < edges.len());
    }
}

/// Checks that the root leads to every node and to no cycle.
pub fn check_reachable(edges: &Vec<Vec<usize>>, root: usize) -> (result: Result<(), ReachError>)
    requires
        edges_ok(edge_lists(edges@)),
        root < edge_lists(edges@).len(),
    ensures
        ({
            let lists = edge_lists(edges@);
            &&& result == match reach_error(lists, root) {
                Some(error) => Err::<(), ReachError>(error),
                None => Ok(()),
            }
            &&& match result {
                Ok(_) => acyclic_from(lists, root) && all_reached(lists, root)
                    && exists|ranks: Seq<nat>| #[trigger] ranked(lists, ranks),
                Err(ReachError::Cycle { node }) => leads(lists, root, node) && on_cycle(
                    lists,
                    node,
                ),
                Err(ReachError::Unreachable) => acyclic_from(lists, root) && !all_reached(
                    lists,
                    root,
                ),
            }
        }),
{
    let mut marks: Vec<u8> = Vec::new();
    while marks.len() < edges.len()
        invariant
            marks@.len() <= edge_lists(edges@).len(),
            forall|i: int| 0 <= i < marks@.len() ==> marks@[i] == 0,
        decreases edges.len() - marks.len(),
    {
        marks.push(0);
    }
    let ghost ranks = Seq::new(edge_lists(edges@).len(), |i: int| 0nat);
    assert(walk_ok(edge_lists(edges@), root, marks@, Seq::empty(), ranks)) by {
        reveal(walk_ok);
        assert(edges.len() == edges@.len());
    }
    let (walked, Ghost(finished)) = visit(
        edges,
        root,
        root,
        &mut marks,
        Ghost(Seq::empty()),
        Ghost(ranks),
    );
    match walked {
        Err(node) => {
            assert(Seq::<usize>::empty().push(root) =~= seq![root]);
            return Err(ReachError::Cycle { node });
        },
        Ok(_) => {},
    }
    proof {
        lemma_black_meets_nothing(
            edge_lists(edges@),
            root,
            marks@,
            Seq::empty(),
            finished,
            seq![root],
            0,
        );
        lemma_walk_facts(edge_lists(edges@), root, marks@, Seq::empty(), finished);
        assert forall|node: usize| #[trigger] leads(edge_lists(edges@), root, node) implies !on_cycle(
            edge_lists(edges@),
            node,
        ) && node < edge_lists(edges@).len() && marks@[node as int] == 2 by {
            let path = choose|path: Seq<usize>| #[trigger]
                is_path(edge_lists(edges@), path) && path[0] == root && path.last() == node;
            lemma_path_stays_black(edge_lists(edges@), root, marks@, finished, path, path.len() - 1);
            if on_cycle(edge_lists(edges@), node) {
                let cycle = choose|cycle: Seq<usize>| #[trigger]
                    is_path(edge_lists(edges@), cycle) && cycle.len() > 1 && cycle[0] == node && cycle.last()
                        == node;
                lemma_path_stays_black(edge_lists(edges@), root, marks@, finished, cycle, cycle.len() - 1);
            }
        }
    }
    let mut index: usize = 0;
    while index < marks.len()
        invariant
            index <= marks@.len(),
            marks@.len() == edge_lists(edges@).len(),
            acyclic_from(edge_lists(edges@), root),
            met_again(edge_lists(edges@), seq![root], 0) is None,
            forall|node: usize| #[trigger]
                leads(edge_lists(edges@), root, node) ==> node < edge_lists(edges@).len() && marks@[node as int] == 2,
            forall|i: int| 0 <= i < index ==> marks@[i] != 0,
        decreases marks.len() - index,
    {
        if marks[index] == 0 {
            assert(!leads(edge_lists(edges@), root, index));
            assert(!all_reached(edge_lists(edges@), root)) by {
                if all_reached(edge_lists(edges@), root) {
                    assert(leads(edge_lists(edges@), root, index as int as usize));
                }
            }
            return Err(ReachError::Unreachable);
        }
        index = index + 1;
    }
    proof {
        reveal(walk_ok);
        assert forall|i: int| 0 <= i < edge_lists(edges@).len() implies #[trigger] leads(
            edge_lists(edges@),
            root,
            i as usize,
        ) by {
            assert(marks@[i] != 0);
            assert(marks@[i] <= 2);
            assert(marks@[i] != 1) by {
                assert(!Seq::<usize>::empty().contains(i as usize));
            }
        }
    }
    proof {
        assert forall|i: int| 0 <= i < edges@.len() implies marks@[i] == 2 by {
            assert(leads(edge_lists(edges@), root, i as usize));
        }
        assert(ranked(edge_lists(edges@), finished));
    }
    Ok(())
}

} // verus!
