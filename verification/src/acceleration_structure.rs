//! The acceleration structure: a bounding-volume hierarchy over the boxes of
//! the objects of a scene, built node by node and walked for the nearest hit.

use vstd::prelude::*;
use crate::geometry::{
    hull,
    slab_entry,
    slab_hit,
    Aabb,
    BoxAxis,
    Crossings,
    Key3,
    ObjectBounds,
};
use crate::hierarchy::{
    goes_high,
    goes_low,
    high_side,
    leaf,
    lemma_sides,
    low_side,
    Hierarchy,
    Node,
    MIN_OBJECTS_PER_BOX,
};
use crate::walk::{offer_all, Hit, TraceStep, Walk};

verus! {

/// One node of the hierarchy: its box, its children, and the objects that it
/// holds itself.
#[derive(Debug)]
pub struct BoundingBox {
    pub bounds: Aabb,
    pub left: Option<usize>,
    pub right: Option<usize>,
    pub renderables: Vec<usize>,
}

impl View for BoundingBox {
    type V = Node;

    open spec fn view(&self) -> Node {
        Node {
            bounds: self.bounds,
            left: self.left,
            right: self.right,
            objects: self.renderables@,
        }
    }
}

impl BoundingBox {
    /// A node without children around the listed objects.
    pub fn new(renderables: Vec<usize>, objects: &Vec<ObjectBounds>) -> (node: Self)
        requires
            forall|i: int| 0 <= i < renderables.len() ==> renderables[i] < objects.len(),
        ensures
            node@ == leaf(renderables@, objects@),
    {
        let mut bounds = Aabb::empty();
        let mut i: usize = 0;
        while i < renderables.len()
            invariant
                i <= renderables.len(),
                forall|i: int| 0 <= i < renderables.len() ==> renderables[i] < objects.len(),
                bounds == hull(renderables@.take(i as int), objects@),
            decreases renderables.len() - i,
        {
            proof {
                assert(renderables@.take(i as int + 1).drop_last() =~= renderables@.take(i as int));
            }
            bounds = bounds.union(&objects[renderables[i]].bounds);
            i = i + 1;
        }
        proof {
            assert(renderables@.take(renderables.len() as int) =~= renderables@);
        }
        BoundingBox { bounds, left: None, right: None, renderables }
    }

    /// Where a ray enters the box of the node, if it hits it. A ray that
    /// starts in the box enters it at once, at the distance `zero`; for any
    /// other ray the slab rule decides, from the distances at which the ray
    /// crosses the planes through the lowest and the highest corner.
    pub fn trace(&self, ray_orig: Key3, lower: Crossings, upper: Crossings, zero: i64) -> (hit:
        Option<i64>)
        ensures
            hit == (if self.bounds.holds_point(ray_orig) {
                Some(zero)
            } else {
                slab_entry(lower, upper, zero)
            }),
    {
        if self.bounds.contains_point(ray_orig) {
            Some(zero)
        } else {
            slab_hit(lower, upper, zero)
        }
    }
}

/// The hierarchy over the objects of a scene. It is built by `new` and by
/// one call of `generate` for each node that `pending` names, and is not
/// changed after that.
pub struct AccelerationStructure {
    bounding_boxes: Vec<BoundingBox>,
    objects: Vec<ObjectBounds>,
    cursor: usize,
}

impl View for AccelerationStructure {
    type V = Hierarchy;

    closed spec fn view(&self) -> Hierarchy {
        Hierarchy {
            nodes: self.bounding_boxes@.map_values(|b: BoundingBox| b@),
            objects: self.objects@,
            cursor: self.cursor as int,
        }
    }
}

impl AccelerationStructure {
    /// The hierarchy is well formed, and the cursor stands on a node that has
    /// to be split or past the last node.
    pub open spec fn wf(&self) -> bool {
        &&& self@.wf()
        &&& self@.is_settled()
    }

    /// The hierarchy before any split: one root around every object. The
    /// root is pending where it holds more objects than a node may keep.
    pub fn new(objects: Vec<ObjectBounds>) -> (structure: Self)
        ensures
            structure.wf(),
            structure@ == Hierarchy::initial(objects@).settled(),
    {
        let mut all: Vec<usize> = Vec::new();
        let mut i: usize = 0;
        while i < objects.len()
            invariant
                i <= objects.len(),
                all.len() == i,
                forall|k: int| 0 <= k < i ==> all[k] == k,
            decreases objects.len() - i,
        {
            all.push(i);
            i = i + 1;
        }
        proof {
            assert(all@ =~= Seq::new(objects@.len(), |i: int| i as usize));
        }
        let root = BoundingBox::new(all, &objects);
        let mut bounding_boxes: Vec<BoundingBox> = Vec::new();
        bounding_boxes.push(root);
        let mut structure = AccelerationStructure { bounding_boxes, objects, cursor: 0 };
        proof {
            assert(structure@.nodes =~= Hierarchy::initial(objects@).nodes);
            Hierarchy::lemma_initial_wf(objects@);
        }
        structure.settle();
        structure
    }

    /// Moves the cursor on to the next node that has to be split.
    fn settle(&mut self)
        requires
            old(self)@.wf(),
        ensures
            final(self)@ == old(self)@.settled(),
            final(self).wf(),
    {
        proof {
            self@.lemma_settled_wf();
        }
        while self.cursor < self.bounding_boxes.len()
            && self.bounding_boxes[self.cursor].renderables.len() <= MIN_OBJECTS_PER_BOX
            invariant
                self.cursor <= self.bounding_boxes.len(),
                self.bounding_boxes == old(self).bounding_boxes,
                self.objects == old(self).objects,
                old(self).cursor <= self.cursor,
                old(self)@.next_large(old(self).cursor as int) == old(self)@.next_large(
                    self.cursor as int,
                ),
            decreases self.bounding_boxes.len() - self.cursor,
        {
            self.cursor = self.cursor + 1;
        }
    }

    /// The node that waits for the data of its split, if the build is not
    /// over.
    pub fn pending(&self) -> (node: Option<usize>)
        requires
            self.wf(),
        ensures
            node == (if self@.is_built() {
                None
            } else {
                Some(self@.cursor as usize)
            }),
            node matches Some(n) ==> n < self@.nodes.len() && self@.nodes[n as int].objects.len()
                > MIN_OBJECTS_PER_BOX,
    {
        if self.cursor < self.bounding_boxes.len() {
            Some(self.cursor)
        } else {
            None
        }
    }

    /// Number of nodes.
    pub fn node_count(&self) -> (n: usize)
        ensures
            n == self@.nodes.len(),
    {
        self.bounding_boxes.len()
    }

    /// Number of objects that the hierarchy was built over.
    pub fn object_count(&self) -> (n: usize)
        ensures
            n == self@.objects.len(),
    {
        self.objects.len()
    }

    /// The node of the given index.
    pub fn node(&self, index: usize) -> (node: &BoundingBox)
        requires
            index < self@.nodes.len(),
        ensures
            node@ == self@.nodes[index as int],
    {
        &self.bounding_boxes[index]
    }

    /// What the hierarchy reads of the object of the given index.
    pub fn object(&self, index: usize) -> (object: ObjectBounds)
        requires
            index < self@.objects.len(),
        ensures
            object == self@.objects[index as int],
    {
        self.objects[index]
    }
}

/// Sorts the objects of a list to the two sides of a split, taking them off
/// the end of the list.
fn partition(
    list: &Vec<usize>,
    objects: &Vec<ObjectBounds>,
    axis: BoxAxis,
    mean: Key3,
) -> (sides: (Vec<usize>, Vec<usize>))
    requires
        forall|i: int| 0 <= i < list.len() ==> list[i] < objects.len(),
    ensures
        sides.0@ == low_side(list@, objects@, axis, mean),
        sides.1@ == high_side(list@, objects@, axis, mean),
{
    let mut low: Vec<usize> = Vec::new();
    let mut high: Vec<usize> = Vec::new();
    let mut k: usize = list.len();
    proof {
        reveal(Seq::filter);
        assert(list@.skip(k as int).reverse() =~= Seq::<usize>::empty());
    }
    while k > 0
        invariant
            k <= list.len(),
            forall|i: int| 0 <= i < list.len() ==> list[i] < objects.len(),
            low@ == list@.skip(k as int).reverse().filter(goes_low(objects@, axis, mean)),
            high@ == list@.skip(k as int).reverse().filter(goes_high(objects@, axis, mean)),
        decreases k,
    {
        k = k - 1;
        let object = list[k];
        proof {
            let done = list@.skip(k as int + 1).reverse();
            assert(list@.skip(k as int).reverse() =~= done.push(object));
            done.lemma_filter_push(object, goes_low(objects@, axis, mean));
            done.lemma_filter_push(object, goes_high(objects@, axis, mean));
        }
        if axis.is_left(mean, objects[object].center) {
            low.push(object);
        } else {
            high.push(object);
        }
    }
    proof {
        assert(list@.skip(0) =~= list@);
    }
    (low, high)
}

impl AccelerationStructure {
    /// Splits the pending node and moves on to the next node that has to be
    /// split, which is returned. `spread` holds, for each axis, how far the
    /// centres of the node's objects lie apart; `mean` holds the mean of those
    /// centres. The node is split along the widest axis of `spread`, at
    /// `mean`. There has to be room to number two more nodes.
    pub fn generate(&mut self, spread: Key3, mean: Key3) -> (next: Option<usize>)
        requires
            old(self).wf(),
            !old(self)@.is_built(),
            old(self)@.nodes.len() + 2 <= usize::MAX,
        ensures
            final(self).wf(),
            final(self)@ == old(self)@.split_along(spread.widest_axis(), mean).settled(),
            next == (if final(self)@.is_built() {
                None
            } else {
                Some(final(self)@.cursor as usize)
            }),
    {
        let ghost before = self@;
        let index = self.cursor;
        let axis = BoxAxis::widest(spread);
        let base = self.bounding_boxes.len();
        let bounds = self.bounding_boxes[index].bounds;
        proof {
            let list = before.nodes[index as int].objects;
            assert(list == self.bounding_boxes[index as int].renderables@);
            assert forall|i: int| 0 <= i < list.len() implies list[i] < self.objects.len() by {
                assert(before.holds(index as int, i, list[i] as int));
            }
            lemma_sides(before.nodes[index as int].objects, before.objects, axis, mean);
        }
        let (low, high) = partition(
            &self.bounding_boxes[index].renderables,
            &self.objects,
            axis,
            mean,
        );
        let low_len = low.len();
        let high_len = high.len();
        let mut kept: Vec<usize> = Vec::new();
        let mut left: Option<usize> = None;
        let mut right: Option<usize> = None;
        if low_len >= 2 {
            left = Some(base);
        } else if low_len == 1 {
            kept.push(low[0]);
        }
        if high_len >= 2 {
            right = Some(if low_len >= 2 {
                base + 1
            } else {
                base
            });
        } else if high_len == 1 {
            kept.push(high[0]);
        }
        let parent = BoundingBox { bounds, left, right, renderables: kept };
        proof {
            assert(parent@.objects =~= before.split_parent(axis, mean).objects);
            assert(parent@ == before.split_parent(axis, mean));
        }
        self.bounding_boxes.set(index, parent);
        if low_len >= 2 {
            proof {
                assert forall|i: int| 0 <= i < low.len() implies low[i] < self.objects.len() by {
                    let k = choose|k: int|
                        0 <= k < before.nodes[index as int].objects.len()
                            && before.nodes[index as int].objects[k] == low[i];
                    assert(before.holds(index as int, k, low[i] as int));
                }
            }
            let child = BoundingBox::new(low, &self.objects);
            self.bounding_boxes.push(child);
        }
        if high_len >= 2 {
            proof {
                assert forall|i: int| 0 <= i < high.len() implies high[i] < self.objects.len() by {
                    let k = choose|k: int|
                        0 <= k < before.nodes[index as int].objects.len()
                            && before.nodes[index as int].objects[k] == high[i];
                    assert(before.holds(index as int, k, high[i] as int));
                }
            }
            let child = BoundingBox::new(high, &self.objects);
            self.bounding_boxes.push(child);
        }
        self.cursor = index + 1;
        proof {
            assert(self@.nodes =~= before.split_along(axis, mean).nodes);
            before.lemma_split_preserves_wf(axis, mean);
        }
        self.settle();
        self.pending()
    }
}

impl AccelerationStructure {
    /// Leaves the pending node whole, with all its objects, and moves on to
    /// the next node that has to be split, which is returned. This is for a
    /// node that no split would part, such as one whose objects all have the
    /// same centre.
    pub fn leave_whole(&mut self) -> (next: Option<usize>)
        requires
            old(self).wf(),
            !old(self)@.is_built(),
        ensures
            final(self).wf(),
            final(self)@ == old(self)@.passed_over().settled(),
            next == (if final(self)@.is_built() {
                None
            } else {
                Some(final(self)@.cursor as usize)
            }),
    {
        proof {
            assert(self@.nodes.len() == self.bounding_boxes.len());
            self@.lemma_cursor_moves(self.cursor + 1);
        }
        self.cursor = self.cursor + 1;
        self.settle();
        self.pending()
    }
}

/// A walk through the hierarchy for the nearest hit of one ray. The caller
/// tests the ray against what `step` names and hands the answer back.
pub struct Trace {
    stack: Vec<usize>,
    best: Option<Hit>,
    step: TraceStep,
}

impl View for Trace {
    type V = Walk;

    closed spec fn view(&self) -> Walk {
        Walk { stack: self.stack@, best: self.best, step: self.step }
    }
}

impl Trace {
    /// What the walk waits for.
    pub fn step(&self) -> (step: TraceStep)
        ensures
            step == self@.step,
    {
        self.step
    }

    /// The nearest hit so far. Once the walk is over it is the nearest hit
    /// of the ray.
    pub fn nearest(&self) -> (best: Option<Hit>)
        ensures
            best == self@.best,
    {
        self.best
    }

    /// Goes on with the node on top of the stack.
    fn advance(&mut self)
        ensures
            final(self)@ == Walk::next(old(self)@.stack, old(self)@.best),
    {
        match self.stack.pop() {
            Some(node) => {
                self.step = TraceStep::TestBox(node);
            },
            None => {
                self.step = TraceStep::Done;
            },
        }
        proof {
            assert(self@.stack =~= Walk::next(old(self)@.stack, old(self)@.best).stack);
        }
    }
}

impl AccelerationStructure {
    /// Begins the walk for one ray: the box of the root is to be tested.
    pub fn trace_structure(&self) -> (trace: Trace)
        requires
            self.wf(),
        ensures
            trace@ == Walk::start(),
            trace@.in_range(self@),
    {
        Trace { stack: Vec::new(), best: None, step: TraceStep::TestBox(0) }
    }

    /// Takes the answer of a box test. `entry` is the distance at which the
    /// ray enters the box, if it hits it: zero where the ray starts inside.
    /// The next thing to test is returned.
    pub fn box_tested(&self, trace: &mut Trace, entry: Option<i64>) -> (step: TraceStep)
        requires
            self.wf(),
            old(trace)@.in_range(self@),
            old(trace)@.step is TestBox,
        ensures
            final(trace)@ == old(trace)@.after_box(self@, entry),
            final(trace)@.in_range(self@),
            step == final(trace)@.step,
    {
        let node = match trace.step {
            TraceStep::TestBox(n) => n,
            _ => 0,
        };
        let entered = match entry {
            Some(e) => match trace.best {
                Some(hit) => e < hit.distance,
                None => true,
            },
            None => false,
        };
        if entered {
            let bounding_box = &self.bounding_boxes[node];
            proof {
                if bounding_box.left is Some {
                    assert(self@.is_child(node as int, bounding_box.left->0 as int));
                }
                if bounding_box.right is Some {
                    assert(self@.is_child(node as int, bounding_box.right->0 as int));
                }
            }
            if let Some(left) = bounding_box.left {
                trace.stack.push(left);
            }
            if let Some(right) = bounding_box.right {
                trace.stack.push(right);
            }
            proof {
                assert(trace.stack@ =~= old(trace)@.with_children(self@, node as int));
            }
            if bounding_box.renderables.len() > 0 {
                trace.step = TraceStep::TestObjects(node);
            } else {
                trace.advance();
            }
        } else {
            trace.advance();
        }
        trace.step
    }

    /// Takes the answers of the object tests of a node: for each object of
    /// the node in turn, the distance at which the ray hits it, if it does.
    /// An object replaces the nearest hit so far only where it is strictly
    /// nearer. The next thing to test is returned.
    pub fn objects_tested(&self, trace: &mut Trace, distances: &Vec<Option<i64>>) -> (step:
        TraceStep)
        requires
            self.wf(),
            old(trace)@.in_range(self@),
            old(trace)@.step matches TraceStep::TestObjects(n) && distances.len()
                == self@.nodes[n as int].objects.len(),
        ensures
            final(trace)@ == old(trace)@.after_objects(self@, distances@),
            final(trace)@.in_range(self@),
            step == final(trace)@.step,
    {
        let node = match trace.step {
            TraceStep::TestObjects(n) => n,
            _ => 0,
        };
        let renderables = &self.bounding_boxes[node].renderables;
        let mut i: usize = 0;
        while i < renderables.len()
            invariant
                i <= renderables.len(),
                distances.len() == renderables.len(),
                trace.stack == old(trace).stack,
                trace.step == old(trace).step,
                trace.best == offer_all(old(trace).best, renderables@, distances@, i as int),
            decreases renderables.len() - i,
        {
            if let Some(distance) = distances[i] {
                let nearer = match trace.best {
                    Some(hit) => distance < hit.distance,
                    None => true,
                };
                if nearer {
                    trace.best = Some(Hit { object: renderables[i], distance });
                }
            }
            i = i + 1;
        }
        trace.advance();
        trace.step
    }
}

} // verus!
