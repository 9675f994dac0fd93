//! Depth-first walks through a game, one step at a time.
//!
//! A walk enters a node, is told where to go from there, and leaves the node
//! when it has been everywhere it was told to go. Whoever drives the walk
//! computes values between the steps.
use vstd::prelude::*;

use crate::rng::{chosen_index, draw_of, xorshift, XorShift64};

verus! {

/// What a node offers to a walk.
#[derive(Debug)]
pub enum Shape {
    Leaf,
    Chance(Vec<usize>),
    Decision(usize, Vec<usize>),
}

/// Where a walk goes from a node.
#[derive(Debug, Clone, Copy, PartialEq, Eq, Structural)]
pub enum Plan {
    Nowhere,
    Everywhere,
    /// To the target at a position.
    Only(usize),
}

/// How many nodes were sampled on the way.
#[derive(Debug, Clone, Copy, PartialEq, Eq, Structural)]
pub struct WalkCounters {
    pub sampled_chance_nodes: u64,
    pub sampled_opponent_actions: u64,
}

pub open spec fn shape_targets(shape: Shape) -> Seq<usize> {
    match shape {
        Shape::Leaf => Seq::empty(),
        Shape::Chance(targets) => targets@,
        Shape::Decision(_, targets) => targets@,
    }
}

/// A walk for `traverser` samples one target of a chance node and of a
/// decision of another player.
pub open spec fn samples(shape: Shape, traverser: usize) -> bool {
    match shape {
        Shape::Leaf => false,
        Shape::Chance(_) => true,
        Shape::Decision(player, _) => player != traverser,
    }
}

/// The plan of an external-sampling walk whose next draw is `draw`.
pub open spec fn sampled_plan(
    shape: Shape,
    traverser: usize,
    thresholds: Seq<u64>,
    draw: u64,
) -> Plan {
    if samples(shape, traverser) {
        Plan::Only(chosen_index(thresholds, draw) as usize)
    } else if shape is Leaf {
        Plan::Nowhere
    } else {
        Plan::Everywhere
    }
}

/// Plans a node of an external-sampling walk: the traverser tries every
/// action, everything else is drawn by the thresholds.
pub fn plan_sampled(
    shape: &Shape,
    traverser: usize,
    thresholds: &[u64],
    rng: &mut XorShift64,
    counters: &mut WalkCounters,
) -> (plan: Plan)
    requires
        samples(*shape, traverser) ==> thresholds@.len() > 0 && thresholds@.len() == shape_targets(
            *shape,
        ).len(),
        old(counters).sampled_chance_nodes < u64::MAX,
        old(counters).sampled_opponent_actions < u64::MAX,
    ensures
        ({
            let drawn = samples(*shape, traverser);
            let next = xorshift(old(rng).state);
            &&& plan == sampled_plan(*shape, traverser, thresholds@, draw_of(next))
            &&& final(rng).state == if drawn { next } else { old(rng).state }
            &&& final(counters).sampled_chance_nodes == old(counters).sampled_chance_nodes + if drawn
                && shape is Chance { 1int } else { 0 }
            &&& final(counters).sampled_opponent_actions == old(counters).sampled_opponent_actions
                + if drawn && shape is Decision { 1int } else { 0 }
            &&& plan matches Plan::Only(position) ==> position < shape_targets(*shape).len()
        }),
{
    match shape {
        Shape::Leaf => Plan::Nowhere,
        Shape::Chance(_) => {
            let position = rng.sample_index(thresholds);
            counters.sampled_chance_nodes = counters.sampled_chance_nodes + 1;
            Plan::Only(position)
        },
        Shape::Decision(player, _) => {
            if *player == traverser {
                Plan::Everywhere
            } else {
                let position = rng.sample_index(thresholds);
                counters.sampled_opponent_actions = counters.sampled_opponent_actions + 1;
                Plan::Only(position)
            }
        },
    }
}

/// Plans a node of a walk that goes everywhere.
pub fn plan_full(shape: &Shape) -> (plan: Plan)
    ensures
        plan == if shape is Leaf { Plan::Nowhere } else { Plan::Everywhere },
{
    match shape {
        Shape::Leaf => Plan::Nowhere,
        _ => Plan::Everywhere,
    }
}

/// The targets that a plan picks.
pub open spec fn planned(targets: Seq<usize>, plan: Plan) -> Seq<usize> {
    match plan {
        Plan::Nowhere => Seq::empty(),
        Plan::Everywhere => targets,
        Plan::Only(position) => seq![targets[position as int]],
    }
}

/// What a walk has done.
pub enum WalkEvent {
    /// Entered a node, to go to some targets from there.
    Enter(usize, Seq<usize>),
    Leave(usize),
}

/// Where the visit of `node` that starts at event `at` ends: it enters the
/// node, visits each planned target in turn, and leaves the node.
pub open spec fn visit_end(events: Seq<WalkEvent>, at: int, node: usize) -> Option<int>
    decreases events.len() - at, 0int, 0int,
{
    if 0 <= at < events.len() {
        match events[at] {
            WalkEvent::Enter(entered, targets) => if entered == node {
                match visits_end(events, at + 1, targets, 0) {
                    Some(end) => if at < end < events.len() && events[end] == WalkEvent::Leave(
                        node,
                    ) {
                        Some(end + 1)
                    } else {
                        None
                    },
                    None => None,
                }
            } else {
                None
            },
            WalkEvent::Leave(_) => None,
        }
    } else {
        None
    }
}

/// Where the visits of the targets from position `from` on end.
pub open spec fn visits_end(
    events: Seq<WalkEvent>,
    at: int,
    targets: Seq<usize>,
    from: int,
) -> Option<int>
    decreases events.len() - at, 1int, targets.len() - from,
{
    if from >= targets.len() {
        Some(at)
    } else if at >= events.len() {
        None
    } else {
        match visit_end(events, at, targets[from]) {
            Some(end) => if at < end <= events.len() {
                visits_end(events, end, targets, from + 1)
            } else {
                None
            },
            None => None,
        }
    }
}

#[derive(Debug)]
pub struct WalkFrame {
    pub node: usize,
    pub targets: Vec<usize>,
    pub next: usize,
}

/// What the walk does next.
#[derive(Debug, Clone, Copy, PartialEq, Eq, Structural)]
pub enum WalkStep {
    Enter(usize),
    Leave(usize),
    Finished,
}

pub struct Walk {
    pub root: usize,
    pub started: bool,
    pub frames: Vec<WalkFrame>,
    pub events: Ghost<Seq<WalkEvent>>,
    pub starts: Ghost<Seq<int>>,
}

impl Walk {
    pub open spec fn wf(self) -> bool {
        let frames = self.frames@;
        let events = self.events@;
        let starts = self.starts@;
        &&& starts.len() == frames.len()
        &&& !self.started ==> frames.len() == 0 && events.len() == 0
        &&& self.started && frames.len() == 0 ==> visit_end(events, 0, self.root) == Some(
            events.len() as int,
        )
        &&& forall|k: int|
            0 <= k < frames.len() ==> frame_ok(#[trigger] frames[k], events, starts[k])
        &&& frames.len() > 0 ==> starts[0] == 0 && frames[0].node == self.root
        &&& forall|k: int|
            0 <= k < frames.len() - 1 ==> follows(#[trigger] frames[k], frames[k + 1])
                && children_end(frames[k], events, starts[k]) == Some(starts[k + 1])
        &&& frames.len() > 0 ==> children_end(
            frames.last(),
            events,
            starts.last(),
        ) == Some(events.len() as int)
    }

    /// The next step of the walk.
    pub open spec fn step(self) -> WalkStep {
        if !self.started {
            WalkStep::Enter(self.root)
        } else if self.frames@.len() == 0 {
            WalkStep::Finished
        } else {
            let top = self.frames@.last();
            if top.next < top.targets@.len() {
                WalkStep::Enter(top.targets@[top.next as int])
            } else {
                WalkStep::Leave(top.node)
            }
        }
    }

    pub fn new(root: usize) -> (walk: Self)
        ensures
            walk.wf(),
            walk.root == root,
            walk.events@.len() == 0,
            walk.step() == WalkStep::Enter(root),
    {
        let ghost no_events: Seq<WalkEvent> = Seq::empty();
        let ghost no_starts: Seq<int> = Seq::empty();
        Walk {
            root,
            started: false,
            frames: Vec::new(),
            events: Ghost(no_events),
            starts: Ghost(no_starts),
        }
    }

    pub fn next_step(&self) -> (step: WalkStep)
        requires
            self.wf(),
        ensures
            step == self.step(),
    {
        if !self.started {
            return WalkStep::Enter(self.root);
        }
        if self.frames.len() == 0 {
            return WalkStep::Finished;
        }
        let top = &self.frames[self.frames.len() - 1];
        if top.next < top.targets.len() {
            WalkStep::Enter(top.targets[top.next])
        } else {
            WalkStep::Leave(top.node)
        }
    }

    /// Enters the next node with a plan for its targets.
    pub fn enter(&mut self, shape: &Shape, plan: Plan) -> (node: usize)
        requires
            old(self).wf(),
            old(self).step() is Enter,
            plan matches Plan::Only(position) ==> position < shape_targets(*shape).len(),
        ensures
            final(self).wf(),
            final(self).root == old(self).root,
            old(self).step() == WalkStep::Enter(node),
            final(self).events@ == old(self).events@.push(
                WalkEvent::Enter(node, planned(shape_targets(*shape), plan)),
            ),
            final(self).frames@.len() == old(self).frames@.len() + 1,
            forall|k: int|
                0 <= k < old(self).frames@.len() ==> #[trigger] final(self).frames@[k]
                    == old(self).frames@[k],
            final(self).frames@.last().node == node,
            final(self).frames@.last().targets@ == planned(shape_targets(*shape), plan),
            final(self).frames@.last().next == 0,
    {
        let node: usize = if !self.started {
            self.root
        } else {
            let top = &self.frames[self.frames.len() - 1];
            top.targets[top.next]
        };
        let targets = planned_targets(shape, plan);
        let ghost before = *self;
        let ghost event = WalkEvent::Enter(node, targets@);
        let ghost events = self.events@;
        self.started = true;
        self.frames.push(WalkFrame { node, targets, next: 0 });
        proof {
            self.events@ = events.push(event);
            self.starts@ = before.starts@.push(events.len() as int);
            assert(self.frames@.drop_last() =~= before.frames@);
            lemma_entered(before, *self, event);
        }
        node
    }

    /// Leaves a node that has been walked through.
    pub fn leave(&mut self) -> (node: usize)
        requires
            old(self).wf(),
            old(self).step() is Leave,
        ensures
            final(self).wf(),
            final(self).root == old(self).root,
            old(self).step() == WalkStep::Leave(node),
            final(self).events@ == old(self).events@.push(WalkEvent::Leave(node)),
            final(self).frames@.len() == old(self).frames@.len() - 1,
            forall|k: int|
                0 <= k < final(self).frames@.len() - 1 ==> #[trigger] final(self).frames@[k]
                    == old(self).frames@[k],
            final(self).frames@.len() > 0 ==> {
                let top = final(self).frames@.last();
                let was = old(self).frames@[final(self).frames@.len() - 1];
                top.node == was.node && top.targets@ == was.targets@ && top.next == was.next + 1
            },
    {
        let ghost before = *self;
        let last = self.frames.len() - 1;
        let node = self.frames[last].node;
        self.frames.pop();
        if last > 0 {
            let next = self.frames[last - 1].next;
            assert(follows(before.frames@[last - 1], before.frames@[last - 1 + 1]));
            assert(next < self.frames@[last - 1].targets.len());
            self.frames[last - 1].next = next + 1;
        }
        proof {
            self.events@ = before.events@.push(WalkEvent::Leave(node));
            self.starts@ = before.starts@.drop_last();
            lemma_left(before, *self);
        }
        node
    }
}

fn planned_targets(shape: &Shape, plan: Plan) -> (list: Vec<usize>)
    requires
        plan matches Plan::Only(position) ==> position < shape_targets(*shape).len(),
    ensures
        list@ == planned(shape_targets(*shape), plan),
{
    match shape {
        Shape::Leaf => {
            let list: Vec<usize> = Vec::new();
            assert(list@ =~= planned(shape_targets(*shape), plan));
            list
        },
        Shape::Chance(targets) => pick_targets(targets, plan),
        Shape::Decision(_, targets) => pick_targets(targets, plan),
    }
}

fn pick_targets(targets: &Vec<usize>, plan: Plan) -> (list: Vec<usize>)
    requires
        plan matches Plan::Only(position) ==> position < targets@.len(),
    ensures
        list@ == planned(targets@, plan),
{
    match plan {
        Plan::Nowhere => {
            let list: Vec<usize> = Vec::new();
            assert(list@ =~= Seq::<usize>::empty());
            list
        },
        Plan::Everywhere => {
            let list = targets.clone();
            assert(list@ =~= targets@);
            list
        },
        Plan::Only(position) => {
            let list = vec![targets[position]];
            assert(list@ =~= seq![targets@[position as int]]);
            list
        },
    }
}

pub open spec fn frame_ok(frame: WalkFrame, events: Seq<WalkEvent>, start: int) -> bool {
    &&& frame.next <= frame.targets@.len()
    &&& 0 <= start < events.len()
    &&& events[start] == WalkEvent::Enter(frame.node, frame.targets@)
}

/// The frame above visits the next target of the frame below.
pub open spec fn follows(below: WalkFrame, above: WalkFrame) -> bool {
    &&& below.next < below.targets@.len()
    &&& above.node == below.targets@[below.next as int]
}

/// Where the visits of a frame that are over end.
pub open spec fn children_end(frame: WalkFrame, events: Seq<WalkEvent>, start: int) -> Option<int> {
    visits_end(events, start + 1, frame.targets@.take(frame.next as int), 0)
}

/// A visit that is over stays where it is when events are added.
proof fn lemma_visit_stays(events: Seq<WalkEvent>, event: WalkEvent, at: int, node: usize)
    requires
        visit_end(events, at, node) is Some,
    ensures
        visit_end(events.push(event), at, node) == visit_end(events, at, node),
        at < visit_end(events, at, node)->Some_0 <= events.len(),
    decreases events.len() - at, 0int, 0int,
{
    let more = events.push(event);
    match events[at] {
        WalkEvent::Enter(_, targets) => {
            assert(more[at] == events[at]);
            lemma_visits_stay(events, event, at + 1, targets, 0);
            let end = visits_end(events, at + 1, targets, 0)->Some_0;
            assert(more[end] == events[end]);
        },
        WalkEvent::Leave(_) => {},
    }
}

proof fn lemma_visits_stay(
    events: Seq<WalkEvent>,
    event: WalkEvent,
    at: int,
    targets: Seq<usize>,
    from: int,
)
    requires
        visits_end(events, at, targets, from) is Some,
        at <= events.len(),
    ensures
        visits_end(events.push(event), at, targets, from) == visits_end(events, at, targets, from),
        at <= visits_end(events, at, targets, from)->Some_0 <= events.len(),
    decreases events.len() - at, 1int, targets.len() - from,
{
    if from < targets.len() {
        lemma_visit_stays(events, event, at, targets[from]);
        let end = visit_end(events, at, targets[from])->Some_0;
        lemma_visits_stay(events, event, end, targets, from + 1);
    }
}

/// One more visit after those of the first targets.
proof fn lemma_one_more(
    events: Seq<WalkEvent>,
    at: int,
    targets: Seq<usize>,
    from: int,
    count: int,
    middle: int,
    end: int,
)
    requires
        0 <= from <= count < targets.len(),
        at <= events.len(),
        visits_end(events, at, targets.take(count), from) == Some(middle),
        at <= middle < events.len(),
        visit_end(events, middle, targets[count]) == Some(end),
        middle < end <= events.len(),
    ensures
        visits_end(events, at, targets.take(count + 1), from) == Some(end),
    decreases count - from,
{
    let some = targets.take(count);
    let more = targets.take(count + 1);
    assert(more[from] == targets[from]);
    if from == count {
        assert(middle == at);
        assert(visits_end(events, end, more, from + 1) == Some(end));
    } else {
        assert(some[from] == targets[from]);
        let next = visit_end(events, at, targets[from])->Some_0;
        assert(next > at);
        assert(visits_end(events, next, some, from + 1) == Some(middle));
        lemma_visits_within(events, next, some, from + 1);
        if next > events.len() {
            assert(false) by {
                lemma_visit_within(events, at, targets[from]);
            }
        }
        lemma_one_more(events, next, targets, from + 1, count, middle, end);
    }
}

proof fn lemma_visit_within(events: Seq<WalkEvent>, at: int, node: usize)
    requires
        visit_end(events, at, node) is Some,
    ensures
        at < visit_end(events, at, node)->Some_0 <= events.len(),
{
}

proof fn lemma_visits_within(events: Seq<WalkEvent>, at: int, targets: Seq<usize>, from: int)
    requires
        visits_end(events, at, targets, from) is Some,
    ensures
        at <= visits_end(events, at, targets, from)->Some_0,
    decreases events.len() - at, 1int, targets.len() - from,
{
    if from < targets.len() && at < events.len() {
        let end = visit_end(events, at, targets[from])->Some_0;
        lemma_visits_within(events, end, targets, from + 1);
    }
}

proof fn lemma_entered(before: Walk, after: Walk, event: WalkEvent)
    requires
        before.wf(),
        before.step() is Enter,
        after.root == before.root,
        after.started,
        after.frames@.len() == before.frames@.len() + 1,
        after.frames@.drop_last() == before.frames@,
        after.frames@.last().next == 0,
        before.step() == WalkStep::Enter(after.frames@.last().node),
        event == WalkEvent::Enter(after.frames@.last().node, after.frames@.last().targets@),
        after.events@ == before.events@.push(event),
        after.starts@ == before.starts@.push(before.events@.len() as int),
    ensures
        after.wf(),
{
    let events = before.events@;
    let more = after.events@;
    let frames = after.frames@;
    let starts = after.starts@;
    let last = frames.len() - 1;
    assert forall|k: int| 0 <= k < frames.len() implies frame_ok(
        #[trigger] frames[k],
        more,
        starts[k],
    ) by {
        if k < last {
            assert(frames[k] == before.frames@[k]);
            assert(frame_ok(before.frames@[k], events, before.starts@[k]));
        }
    }
    assert forall|k: int| 0 <= k < frames.len() - 1 implies follows(
        #[trigger] frames[k],
        frames[k + 1],
    ) && children_end(frames[k], more, starts[k]) == Some(starts[k + 1]) by {
        assert(frames[k] == before.frames@[k]);
        assert(frame_ok(before.frames@[k], events, before.starts@[k]));
        if k + 1 < last {
            assert(frames[k + 1] == before.frames@[k + 1]);
            assert(follows(before.frames@[k], before.frames@[k + 1]));
        } else {
            assert(before.frames@[k] == before.frames@.last());
        }
        lemma_visits_stay(
            events,
            event,
            starts[k] + 1,
            frames[k].targets@.take(frames[k].next as int),
            0,
        );
    }
    if before.frames@.len() > 0 {
        assert(frames[0] == before.frames@[0]);
    }
}

proof fn lemma_left(before: Walk, after: Walk)
    requires
        before.wf(),
        before.step() is Leave,
        after.root == before.root,
        after.started == before.started,
        after.frames@.len() == before.frames@.len() - 1,
        forall|k: int|
            0 <= k < after.frames@.len() - 1 ==> #[trigger] after.frames@[k] == before.frames@[k],
        after.frames@.len() > 0 ==> {
            let top = after.frames@.last();
            let was = before.frames@[after.frames@.len() - 1];
            top.node == was.node && top.targets@ == was.targets@ && top.next == was.next + 1
        },
        after.events@ == before.events@.push(WalkEvent::Leave(before.frames@.last().node)),
        after.starts@ == before.starts@.drop_last(),
    ensures
        after.wf(),
{
    let events = before.events@;
    let more = after.events@;
    let frames = after.frames@;
    let starts = after.starts@;
    let closed = before.frames@.last();
    let begun = before.starts@.last();
    let event = WalkEvent::Leave(closed.node);
    assert(frame_ok(before.frames@[before.frames@.len() - 1], events, begun));
    assert(closed.targets@.take(closed.next as int) =~= closed.targets@);
    lemma_visits_stay(events, event, begun + 1, closed.targets@, 0);
    assert(more[begun] == events[begun]);
    assert(visit_end(more, begun, closed.node) == Some(more.len() as int));
    assert forall|k: int| 0 <= k < frames.len() implies frame_ok(
        #[trigger] frames[k],
        more,
        starts[k],
    ) by {
        assert(frame_ok(before.frames@[k], events, before.starts@[k]));
        assert(follows(before.frames@[k], before.frames@[k + 1]));
        if k < frames.len() - 1 {
            assert(frames[k] == before.frames@[k]);
        }
    }
    assert forall|k: int| 0 <= k < frames.len() - 1 implies follows(
        #[trigger] frames[k],
        frames[k + 1],
    ) && children_end(frames[k], more, starts[k]) == Some(starts[k + 1]) by {
        assert(frames[k] == before.frames@[k]);
        assert(follows(before.frames@[k], before.frames@[k + 1]));
        assert(frame_ok(before.frames@[k], events, before.starts@[k]));
        if k + 1 < frames.len() - 1 {
            assert(frames[k + 1] == before.frames@[k + 1]);
        }
        lemma_visits_stay(
            events,
            event,
            starts[k] + 1,
            frames[k].targets@.take(frames[k].next as int),
            0,
        );
    }
    if frames.len() > 0 {
        let k = frames.len() - 1;
        let was = before.frames@[k];
        assert(frame_ok(was, events, before.starts@[k]));
        assert(follows(before.frames@[k], before.frames@[k + 1]));
        assert(children_end(was, events, before.starts@[k]) == Some(before.starts@[k + 1]));
        lemma_visits_stay(events, event, starts[k] + 1, was.targets@.take(was.next as int), 0);
        lemma_one_more(
            more,
            starts[k] + 1,
            was.targets@,
            0,
            was.next as int,
            begun,
            more.len() as int,
        );
        if k > 0 {
            assert(frames[0] == before.frames@[0]);
        }
    }
}

/// A finished walk has visited the root depth first: each node is entered, its
/// planned targets are visited in order, and it is left, with nothing in
/// between.
pub proof fn lemma_finished_walk_is_depth_first(walk: Walk)
    requires
        walk.wf(),
        walk.step() is Finished,
    ensures
        visit_end(walk.events@, 0, walk.root) == Some(walk.events@.len() as int),
{
}

} // verus!
