//! The model of the walk that finds the nearest hit of a ray in a hierarchy,
//! and the proof that pruning boxes loses no hit.

use vstd::prelude::*;
use crate::hierarchy::Hierarchy;

verus! {

/// A hit of a ray: which object, and how far along the ray.
#[derive(Debug, Copy, Clone, PartialEq, Eq)]
pub struct Hit {
    pub object: usize,
    pub distance: i64,
}

/// What the walk waits for.
#[derive(Debug, Copy, Clone, PartialEq, Eq)]
pub enum TraceStep {
    /// The ray has to be tested against the box of this node.
    TestBox(usize),
    /// The ray has to be tested against each object of this node.
    TestObjects(usize),
    /// The walk is over.
    Done,
}

/// Whether a hit at `distance` replaces `best`: there is no hit yet, or the
/// new one is strictly nearer.
pub open spec fn is_nearer(best: Option<Hit>, distance: i64) -> bool {
    best matches Some(hit) ==> distance < hit.distance
}

/// The nearest hit after `object` has been tested: `distance` is where the
/// ray hits it, if it does.
pub open spec fn offer(best: Option<Hit>, object: usize, distance: Option<i64>) -> Option<Hit> {
    match distance {
        Some(d) => if is_nearer(best, d) {
            Some(Hit { object, distance: d })
        } else {
            best
        },
        None => best,
    }
}

/// The nearest hit after the first `count` objects of `list` have been
/// tested in turn; `distances` holds what the test of each gave.
pub open spec fn offer_all(
    best: Option<Hit>,
    list: Seq<usize>,
    distances: Seq<Option<i64>>,
    count: int,
) -> Option<Hit>
    decreases count,
{
    if count <= 0 {
        best
    } else {
        offer(offer_all(best, list, distances, count - 1), list[count - 1], distances[count - 1])
    }
}

/// Whether `best` is a nearest hit among the objects whose tests gave
/// `distances`: it is one of the hits, and no hit is nearer; or nothing is
/// hit at all.
pub open spec fn is_nearest(best: Option<Hit>, distances: Seq<Option<i64>>) -> bool {
    match best {
        Some(hit) => {
            &&& hit.object < distances.len()
            &&& distances[hit.object as int] == Some(hit.distance)
            &&& forall|o: int|
                0 <= o < distances.len() && (#[trigger] distances[o]) is Some ==> hit.distance
                    <= distances[o]->0
        },
        None => forall|o: int| 0 <= o < distances.len() ==> (#[trigger] distances[o]) is None,
    }
}

/// Two nearest hits lie at the same distance.
pub proof fn lemma_nearest_distance_unique(
    a: Option<Hit>,
    b: Option<Hit>,
    distances: Seq<Option<i64>>,
)
    requires
        is_nearest(a, distances),
        is_nearest(b, distances),
    ensures
        a is Some <==> b is Some,
        a is Some ==> a->0.distance == b->0.distance,
{
    if a is Some {
        assert(distances[a->0.object as int] is Some);
    }
    if b is Some {
        assert(distances[b->0.object as int] is Some);
    }
}

/// Where no two objects are hit at the same distance, only one hit is
/// nearest: two searches that each find a nearest hit find the same object.
pub proof fn lemma_nearest_is_unique(a: Option<Hit>, b: Option<Hit>, distances: Seq<Option<i64>>)
    requires
        is_nearest(a, distances),
        is_nearest(b, distances),
        forall|o: int, p: int|
            0 <= o < distances.len() && 0 <= p < distances.len() && (#[trigger] distances[o])
                is Some && distances[o] == #[trigger] distances[p] ==> o == p,
    ensures
        a == b,
{
    lemma_nearest_distance_unique(a, b, distances);
    if a is Some {
        assert(distances[a->0.object as int] == distances[b->0.object as int]);
    }
}

/// The state of a walk: the nodes still to visit, the last to be visited
/// next; the nearest hit so far; and what the walk waits for.
#[verifier::ext_equal]
pub struct Walk {
    pub stack: Seq<usize>,
    pub best: Option<Hit>,
    pub step: TraceStep,
}

impl Walk {
    /// The walk at its start: nothing is hit, and the root is to be tested.
    pub open spec fn start() -> Walk {
        Walk { stack: Seq::empty(), best: None, step: TraceStep::TestBox(0) }
    }

    /// The walk that goes on with the node on top of `stack`, or is over
    /// where the stack is empty.
    pub open spec fn next(stack: Seq<usize>, best: Option<Hit>) -> Walk {
        if stack.len() == 0 {
            Walk { stack, best, step: TraceStep::Done }
        } else {
            Walk { stack: stack.drop_last(), best, step: TraceStep::TestBox(stack.last()) }
        }
    }

    /// Whether the box of a node is entered: the ray hits it, and no object
    /// hit so far is as near as the box.
    pub open spec fn enters(self, entry: Option<i64>) -> bool {
        entry matches Some(e) && is_nearer(self.best, e)
    }

    /// The stack after the children of `node` have been put on it, the left
    /// one first.
    pub open spec fn with_children(self, h: Hierarchy, node: int) -> Seq<usize> {
        let with_left = match h.nodes[node].left {
            Some(l) => self.stack.push(l),
            None => self.stack,
        };
        match h.nodes[node].right {
            Some(r) => with_left.push(r),
            None => with_left,
        }
    }

    /// The walk after the box that it waited for has been tested. `entry` is
    /// the distance at which the ray enters the box, if it hits it. A box
    /// that is entered has its children put on the stack and its objects
    /// tested next; any other box is passed over with all that is below it.
    pub open spec fn after_box(self, h: Hierarchy, entry: Option<i64>) -> Walk {
        match self.step {
            TraceStep::TestBox(n) => if self.enters(entry) {
                if h.nodes[n as int].objects.len() > 0 {
                    Walk {
                        stack: self.with_children(h, n as int),
                        best: self.best,
                        step: TraceStep::TestObjects(n),
                    }
                } else {
                    Walk::next(self.with_children(h, n as int), self.best)
                }
            } else {
                Walk::next(self.stack, self.best)
            },
            _ => self,
        }
    }

    /// The walk after the objects that it waited for have been tested.
    /// `distances` holds, for each object of the node in turn, the distance
    /// at which the ray hits it, if it does.
    pub open spec fn after_objects(self, h: Hierarchy, distances: Seq<Option<i64>>) -> Walk {
        match self.step {
            TraceStep::TestObjects(n) => Walk::next(
                self.stack,
                offer_all(
                    self.best,
                    h.nodes[n as int].objects,
                    distances,
                    h.nodes[n as int].objects.len() as int,
                ),
            ),
            _ => self,
        }
    }

    /// Whether every node that the walk names is a node of the hierarchy.
    pub open spec fn in_range(self, h: Hierarchy) -> bool {
        &&& forall|k: int| 0 <= k < self.stack.len() ==> (#[trigger] self.stack[k]) < h.nodes.len()
        &&& self.step matches TraceStep::TestBox(n) ==> n < h.nodes.len()
        &&& self.step matches TraceStep::TestObjects(n) ==> n < h.nodes.len()
    }
}

/// Whether the boxes bound the hits of a ray: where the ray hits an object at
/// some distance, it enters the box of every node above the object no later.
/// `entries` holds the answer of the box test of each node, `distances` the
/// answer of the object test of each object.
pub open spec fn boxes_bound_hits(
    h: Hierarchy,
    entries: Seq<Option<i64>>,
    distances: Seq<Option<i64>>,
) -> bool {
    forall|top: int, node: int, slot: int, o: int|
        #![trigger h.in_subtree(top, node), h.holds(node, slot, o)]
        h.in_subtree(top, node) && h.holds(node, slot, o) && distances[o] is Some ==> entries[top]
            is Some && entries[top]->0 <= distances[o]->0
}

impl Walk {
    /// The answers of the object tests of a node, taken from the answers for
    /// all objects.
    pub open spec fn answers(h: Hierarchy, node: int, distances: Seq<Option<i64>>) -> Seq<
        Option<i64>,
    > {
        h.nodes[node].objects.map_values(|o: usize| distances[o as int])
    }

    /// The walk one step on, for a ray whose tests give `entries` for the
    /// boxes and `distances` for the objects.
    pub open spec fn advance(
        self,
        h: Hierarchy,
        entries: Seq<Option<i64>>,
        distances: Seq<Option<i64>>,
    ) -> Walk {
        match self.step {
            TraceStep::TestBox(n) => self.after_box(h, entries[n as int]),
            TraceStep::TestObjects(n) => self.after_objects(
                h,
                Walk::answers(h, n as int, distances),
            ),
            TraceStep::Done => self,
        }
    }

    /// The walk `steps` steps on.
    pub open spec fn run(
        self,
        h: Hierarchy,
        entries: Seq<Option<i64>>,
        distances: Seq<Option<i64>>,
        steps: nat,
    ) -> Walk
        decreases steps,
    {
        if steps == 0 {
            self
        } else {
            self.advance(h, entries, distances).run(h, entries, distances, (steps - 1) as nat)
        }
    }

    /// Whether the walk still comes to `node`.
    spec fn awaits(self, h: Hierarchy, node: int) -> bool {
        ||| exists|k: int|
            0 <= k < self.stack.len() && #[trigger] h.in_subtree(self.stack[k] as int, node)
        ||| self.step matches TraceStep::TestBox(n) && h.in_subtree(n as int, node)
        ||| self.step matches TraceStep::TestObjects(n) && n == node
    }

    /// What holds all along a walk: the nearest hit so far is a hit, and no
    /// hit is nearer unless the walk still comes to its node.
    spec fn covers(self, h: Hierarchy, distances: Seq<Option<i64>>) -> bool {
        &&& self.in_range(h)
        &&& self.step is Done ==> self.stack.len() == 0
        &&& self.best matches Some(hit) ==> hit.object < distances.len()
            && distances[hit.object as int] == Some(hit.distance)
        &&& forall|node: int, slot: int, o: int| #[trigger]
            h.holds(node, slot, o) && distances[o] is Some ==> (self.best matches Some(hit)
                && hit.distance <= distances[o]->0) || self.awaits(h, node)
    }

    /// A node below a node of the stack is still come to after the walk has
    /// gone on with the top of the stack.
    proof fn lemma_next_awaits(
        stack: Seq<usize>,
        best: Option<Hit>,
        h: Hierarchy,
        node: int,
        k: int,
    )
        requires
            0 <= k < stack.len(),
            h.in_subtree(stack[k] as int, node),
        ensures
            Walk::next(stack, best).awaits(h, node),
    {
        let after = Walk::next(stack, best);
        if k < stack.len() - 1 {
            assert(after.stack[k] == stack[k]);
        }
    }

    /// What testing a run of objects does to the nearest hit.
    proof fn lemma_offer_all(
        best: Option<Hit>,
        list: Seq<usize>,
        answers: Seq<Option<i64>>,
        count: int,
    )
        requires
            0 <= count <= list.len(),
            list.len() == answers.len(),
        ensures
            ({
                let after = offer_all(best, list, answers, count);
                &&& best matches Some(hit) ==> after is Some && after->0.distance <= hit.distance
                &&& after is Some ==> after == best || exists|i: int|
                    0 <= i < count && #[trigger] answers[i] == Some(after->0.distance) && list[i]
                        == after->0.object
                &&& forall|i: int|
                    0 <= i < count && (#[trigger] answers[i]) is Some ==> after is Some
                        && after->0.distance <= answers[i]->0
            }),
        decreases count,
    {
        if count > 0 {
            Walk::lemma_offer_all(best, list, answers, count - 1);
            let before = offer_all(best, list, answers, count - 1);
            let after = offer_all(best, list, answers, count);
            if after is Some && after != best && after != before {
                assert(answers[count - 1] == Some(after->0.distance) && list[count - 1]
                    == after->0.object);
            }
        }
    }

    /// The walk at its start leaves no node out.
    proof fn lemma_start_covers(h: Hierarchy, distances: Seq<Option<i64>>)
        requires
            h.wf(),
        ensures
            Walk::start().covers(h, distances),
    {
        assert forall|node: int, slot: int, o: int| #[trigger]
            h.holds(node, slot, o) implies Walk::start().awaits(h, node) by {
            h.lemma_root_reaches(node);
        }
    }

    /// Testing a box keeps what holds all along the walk.
    proof fn lemma_after_box_covers(
        self,
        h: Hierarchy,
        entries: Seq<Option<i64>>,
        distances: Seq<Option<i64>>,
    )
        requires
            h.wf(),
            entries.len() == h.nodes.len(),
            distances.len() == h.objects.len(),
            boxes_bound_hits(h, entries, distances),
            self.covers(h, distances),
            self.step is TestBox,
        ensures
            self.after_box(h, entries[self.step->TestBox_0 as int]).covers(h, distances),
    {
        let n = self.step->TestBox_0 as int;
        let entry = entries[n];
        let after = self.after_box(h, entry);
        let grown = self.with_children(h, n);
        if h.nodes[n].left is Some {
            assert(h.is_child(n, h.nodes[n].left->0 as int));
        }
        if h.nodes[n].right is Some {
            assert(h.is_child(n, h.nodes[n].right->0 as int));
        }
        assert(after.in_range(h));
        assert forall|node: int, slot: int, o: int| #[trigger]
            h.holds(node, slot, o) && distances[o] is Some implies (after.best matches Some(hit)
            && hit.distance <= distances[o]->0) || after.awaits(h, node) by {
            if !(self.best is Some && self.best->0.distance <= distances[o]->0) {
                assert(self.awaits(h, node));
                if h.in_subtree(n, node) {
                    assert(entries[n] is Some && entries[n]->0 <= distances[o]->0);
                    assert(self.enters(entry));
                    if node == n {
                    } else if h.nodes[n].left is Some && n < h.nodes[n].left->0 < h.nodes.len()
                        && h.in_subtree(h.nodes[n].left->0 as int, node) {
                        let at = self.stack.len() as int;
                        assert(grown[at] == h.nodes[n].left->0);
                        if h.nodes[n].objects.len() == 0 {
                            Walk::lemma_next_awaits(grown, self.best, h, node, at);
                        } else {
                            assert(h.in_subtree(after.stack[at] as int, node));
                        }
                    } else {
                        let at = grown.len() - 1;
                        assert(grown[at] == h.nodes[n].right->0);
                        if h.nodes[n].objects.len() == 0 {
                            Walk::lemma_next_awaits(grown, self.best, h, node, at);
                        } else {
                            assert(h.in_subtree(after.stack[at] as int, node));
                        }
                    }
                } else {
                    let k = choose|k: int|
                        0 <= k < self.stack.len() && #[trigger] h.in_subtree(
                            self.stack[k] as int,
                            node,
                        );
                    if self.enters(entry) {
                        assert(grown[k] == self.stack[k]);
                        if h.nodes[n].objects.len() == 0 {
                            Walk::lemma_next_awaits(grown, self.best, h, node, k);
                        } else {
                            assert(h.in_subtree(after.stack[k] as int, node));
                        }
                    } else {
                        Walk::lemma_next_awaits(self.stack, self.best, h, node, k);
                    }
                }
            }
        }
    }

    /// Testing the objects of a node keeps what holds all along the walk.
    proof fn lemma_after_objects_covers(self, h: Hierarchy, distances: Seq<Option<i64>>)
        requires
            h.wf(),
            distances.len() == h.objects.len(),
            self.covers(h, distances),
            self.step is TestObjects,
        ensures
            self.after_objects(
                h,
                Walk::answers(h, self.step->TestObjects_0 as int, distances),
            ).covers(h, distances),
    {
        let n = self.step->TestObjects_0 as int;
        let list = h.nodes[n].objects;
        let answers = Walk::answers(h, n, distances);
        let after = self.after_objects(h, answers);
        Walk::lemma_offer_all(self.best, list, answers, list.len() as int);
        assert forall|i: int| 0 <= i < list.len() implies 0 <= #[trigger] list[i]
            < distances.len() by {
            assert(h.holds(n, i, list[i] as int));
        }
        assert(after.in_range(h)) by {
            assert forall|k: int| 0 <= k < after.stack.len() implies (#[trigger] after.stack[k])
                < h.nodes.len() by {
                assert(after.stack[k] == self.stack[k]);
            }
        }
        assert forall|node: int, slot: int, o: int| #[trigger]
            h.holds(node, slot, o) && distances[o] is Some implies (after.best matches Some(hit)
            && hit.distance <= distances[o]->0) || after.awaits(h, node) by {
            let d = distances[o]->0;
            if self.best is Some && self.best->0.distance <= d {
                assert(after.best is Some && after.best->0.distance <= self.best->0.distance);
            } else {
                assert(self.awaits(h, node));
                if node == n {
                    assert(answers[slot] == distances[o]);
                    assert(after.best is Some && after.best->0.distance <= answers[slot]->0);
                } else {
                    let k = choose|k: int|
                        0 <= k < self.stack.len() && #[trigger] h.in_subtree(
                            self.stack[k] as int,
                            node,
                        );
                    Walk::lemma_next_awaits(self.stack, after.best, h, node, k);
                }
            }
        }
    }

    /// What holds at the start of a walk holds after any number of steps.
    proof fn lemma_run_covers(
        self,
        h: Hierarchy,
        entries: Seq<Option<i64>>,
        distances: Seq<Option<i64>>,
        steps: nat,
    )
        requires
            h.wf(),
            entries.len() == h.nodes.len(),
            distances.len() == h.objects.len(),
            boxes_bound_hits(h, entries, distances),
            self.covers(h, distances),
        ensures
            self.run(h, entries, distances, steps).covers(h, distances),
        decreases steps,
    {
        if steps > 0 {
            match self.step {
                TraceStep::TestBox(n) => {
                    self.lemma_after_box_covers(h, entries, distances);
                },
                TraceStep::TestObjects(n) => {
                    self.lemma_after_objects_covers(h, distances);
                },
                TraceStep::Done => {},
            }
            self.advance(h, entries, distances).lemma_run_covers(
                h,
                entries,
                distances,
                (steps - 1) as nat,
            );
        }
    }
}

impl Walk {
    /// The work that the nodes of a stack still stand for: two steps for
    /// each node at or below them.
    spec fn stack_work(h: Hierarchy, stack: Seq<usize>) -> nat
        decreases stack.len(),
    {
        if stack.len() == 0 {
            0
        } else {
            Walk::stack_work(h, stack.drop_last()) + 2 * h.subtree_size(stack.last() as int)
        }
    }

    /// The number of steps within which the walk is over.
    spec fn work(self, h: Hierarchy) -> nat {
        Walk::stack_work(h, self.stack) + (match self.step {
            TraceStep::TestBox(n) => 2 * h.subtree_size(n as int),
            TraceStep::TestObjects(_) => 1,
            TraceStep::Done => 0,
        })
    }

    /// Going on with the top of the stack leaves the work as it is.
    proof fn lemma_next_work(h: Hierarchy, stack: Seq<usize>, best: Option<Hit>)
        ensures
            Walk::next(stack, best).work(h) == Walk::stack_work(h, stack),
    {
    }

    /// The children of a node stand for the work of the node but for the
    /// two steps of the node itself.
    proof fn lemma_children_work(self, h: Hierarchy, node: int)
        requires
            h.links_wf(),
            0 <= node < h.nodes.len(),
        ensures
            Walk::stack_work(h, self.with_children(h, node)) + 2 == Walk::stack_work(
                h,
                self.stack,
            ) + 2 * h.subtree_size(node),
    {
        let with_left = match h.nodes[node].left {
            Some(l) => self.stack.push(l),
            None => self.stack,
        };
        if h.nodes[node].left is Some {
            assert(h.is_child(node, h.nodes[node].left->0 as int));
            Walk::lemma_push_work(h, self.stack, h.nodes[node].left->0);
        }
        if h.nodes[node].right is Some {
            assert(h.is_child(node, h.nodes[node].right->0 as int));
            Walk::lemma_push_work(h, with_left, h.nodes[node].right->0);
        }
    }

    /// A node put on the stack adds its work.
    proof fn lemma_push_work(h: Hierarchy, stack: Seq<usize>, node: usize)
        ensures
            Walk::stack_work(h, stack.push(node)) == Walk::stack_work(h, stack) + 2
                * h.subtree_size(node as int),
    {
        assert(stack.push(node).drop_last() =~= stack);
    }

    /// A step of a walk that is not over takes from its work.
    proof fn lemma_advance_works(
        self,
        h: Hierarchy,
        entries: Seq<Option<i64>>,
        distances: Seq<Option<i64>>,
    )
        requires
            h.links_wf(),
            self.in_range(h),
            !(self.step is Done),
        ensures
            self.advance(h, entries, distances).work(h) < self.work(h),
            self.advance(h, entries, distances).in_range(h),
    {
        let after = self.advance(h, entries, distances);
        match self.step {
            TraceStep::TestBox(n) => {
                let grown = self.with_children(h, n as int);
                self.lemma_children_work(h, n as int);
                Walk::lemma_next_work(h, grown, self.best);
                Walk::lemma_next_work(h, self.stack, self.best);
                if h.nodes[n as int].left is Some {
                    assert(h.is_child(n as int, h.nodes[n as int].left->0 as int));
                }
                if h.nodes[n as int].right is Some {
                    assert(h.is_child(n as int, h.nodes[n as int].right->0 as int));
                }
                assert(forall|k: int|
                    0 <= k < grown.len() ==> (#[trigger] grown[k]) < h.nodes.len());
                assert(after.in_range(h));
            },
            TraceStep::TestObjects(n) => {
                Walk::lemma_next_work(h, self.stack, after.best);
                assert(after.in_range(h));
            },
            TraceStep::Done => {},
        }
    }

    /// A walk that is over stays over.
    proof fn lemma_done_stays(
        self,
        h: Hierarchy,
        entries: Seq<Option<i64>>,
        distances: Seq<Option<i64>>,
        steps: nat,
    )
        requires
            self.step is Done,
        ensures
            self.run(h, entries, distances, steps) == self,
        decreases steps,
    {
        if steps > 0 {
            self.lemma_done_stays(h, entries, distances, (steps - 1) as nat);
        }
    }

    /// A walk is over after as many steps as its work.
    proof fn lemma_run_ends(
        self,
        h: Hierarchy,
        entries: Seq<Option<i64>>,
        distances: Seq<Option<i64>>,
        steps: nat,
    )
        requires
            h.links_wf(),
            self.in_range(h),
            self.work(h) <= steps,
        ensures
            self.run(h, entries, distances, steps).step is Done,
        decreases steps,
    {
        if self.step is Done {
            self.lemma_done_stays(h, entries, distances, steps);
        } else {
            self.lemma_advance_works(h, entries, distances);
            self.advance(h, entries, distances).lemma_run_ends(
                h,
                entries,
                distances,
                (steps - 1) as nat,
            );
        }
    }
}

/// The walk comes to an end: it is over after two steps for each node at or
/// below the root, whatever the tests give.
pub proof fn lemma_walk_ends(
    h: Hierarchy,
    entries: Seq<Option<i64>>,
    distances: Seq<Option<i64>>,
    steps: nat,
)
    requires
        h.wf(),
        steps >= 2 * h.subtree_size(0),
    ensures
        Walk::start().run(h, entries, distances, steps).step is Done,
{
    assert(Walk::stack_work(h, Walk::start().stack) == 0);
    Walk::start().lemma_run_ends(h, entries, distances, steps);
}

/// Pruning loses no hit: for a ray whose boxes bound its hits, a walk that
/// has come to its end holds a nearest hit among all the objects, so it
/// agrees with the search that tests every object on whether anything is hit
/// and on the distance of the hit.
pub proof fn lemma_walk_finds_nearest(
    h: Hierarchy,
    entries: Seq<Option<i64>>,
    distances: Seq<Option<i64>>,
    steps: nat,
)
    requires
        h.wf(),
        entries.len() == h.nodes.len(),
        distances.len() == h.objects.len(),
        boxes_bound_hits(h, entries, distances),
        Walk::start().run(h, entries, distances, steps).step is Done,
    ensures
        is_nearest(Walk::start().run(h, entries, distances, steps).best, distances),
{
    let end = Walk::start().run(h, entries, distances, steps);
    Walk::lemma_start_covers(h, distances);
    Walk::start().lemma_run_covers(h, entries, distances, steps);
    assert forall|o: int|
        0 <= o < distances.len() && (#[trigger] distances[o]) is Some implies end.best is Some
        && end.best->0.distance <= distances[o]->0 by {
        assert(h.is_held(o));
        let (node, slot) = choose|node: int, slot: int| #[trigger] h.holds(node, slot, o);
        assert(h.holds(node, slot, o));
        assert(!end.awaits(h, node));
    }
}

} // verus!
