//! The mathematical model of a bounding-volume hierarchy: its nodes, what
//! makes it well formed, and how one split changes it.

use vstd::prelude::*;
use crate::geometry::{
    hull,
    lemma_hull_holds_member,
    lemma_hull_is_least,
    Aabb,
    BoxAxis,
    Key3,
    ObjectBounds,
};

verus! {

/// A node that holds more objects than this is split.
pub const MIN_OBJECTS_PER_BOX: usize = 2;

/// One node of the hierarchy.
#[verifier::ext_equal]
pub struct Node {
    /// The box around every object below the node.
    pub bounds: Aabb,
    /// The child for the low side, if there is one.
    pub left: Option<usize>,
    /// The child for the high side, if there is one.
    pub right: Option<usize>,
    /// The objects held by the node itself.
    pub objects: Seq<usize>,
}

/// A node without children that holds the listed objects.
pub open spec fn leaf(list: Seq<usize>, objects: Seq<ObjectBounds>) -> Node {
    Node { bounds: hull(list, objects), left: None, right: None, objects: list }
}

/// The test by which an object goes to the low side of a split: along the
/// axis, the centre of its box is not above the mean.
pub open spec fn goes_low(objects: Seq<ObjectBounds>, axis: BoxAxis, mean: Key3) -> spec_fn(
    usize,
) -> bool {
    |o: usize| axis.of(objects[o as int].center) <= axis.of(mean)
}

/// The test by which an object goes to the high side of a split.
pub open spec fn goes_high(objects: Seq<ObjectBounds>, axis: BoxAxis, mean: Key3) -> spec_fn(
    usize,
) -> bool {
    |o: usize| axis.of(objects[o as int].center) > axis.of(mean)
}

/// The objects of `list` that go to the low side. A split takes the objects
/// off the end of the list, so they come out last first.
pub open spec fn low_side(
    list: Seq<usize>,
    objects: Seq<ObjectBounds>,
    axis: BoxAxis,
    mean: Key3,
) -> Seq<usize> {
    list.reverse().filter(goes_low(objects, axis, mean))
}

/// The objects of `list` that go to the high side, last first.
pub open spec fn high_side(
    list: Seq<usize>,
    objects: Seq<ObjectBounds>,
    axis: BoxAxis,
    mean: Key3,
) -> Seq<usize> {
    list.reverse().filter(goes_high(objects, axis, mean))
}

/// The whole hierarchy: the nodes in the order of their creation, the root
/// first; the objects it was built over; and the node that the build has
/// come to.
#[verifier::ext_equal]
pub struct Hierarchy {
    pub nodes: Seq<Node>,
    pub objects: Seq<ObjectBounds>,
    pub cursor: int,
}

impl Hierarchy {
    /// The hierarchy before any split: one root that holds every object.
    pub open spec fn initial(objects: Seq<ObjectBounds>) -> Hierarchy {
        let all = Seq::new(objects.len(), |i: int| i as usize);
        Hierarchy { nodes: seq![leaf(all, objects)], objects, cursor: 0 }
    }

    /// Whether `object` stands at place `slot` of the list of `node`.
    pub open spec fn holds(self, node: int, slot: int, object: int) -> bool {
        &&& 0 <= node < self.nodes.len()
        &&& 0 <= slot < self.nodes[node].objects.len()
        &&& self.nodes[node].objects[slot] == object
    }

    /// Whether `child` is the left or the right child of `parent`.
    pub open spec fn is_child(self, parent: int, child: int) -> bool {
        &&& 0 <= parent < self.nodes.len()
        &&& (self.nodes[parent].left matches Some(l) && l == child) || (
        self.nodes[parent].right matches Some(r) && r == child)
    }

    /// Whether some node has `child` as a child.
    pub open spec fn has_parent(self, child: int) -> bool {
        exists|p: int| #[trigger] self.is_child(p, child)
    }

    /// Whether `object` stands in some place of some node.
    pub open spec fn is_held(self, object: int) -> bool {
        exists|n: int, i: int| #[trigger] self.holds(n, i, object)
    }

    /// The nodes form a tree below the root: children come after their
    /// parent, every node but the root has one parent, and the nodes that
    /// the build has not come to have no children.
    pub open spec fn links_wf(self) -> bool {
        &&& self.nodes.len() >= 1
        &&& 0 <= self.cursor <= self.nodes.len()
        &&& forall|p: int, c: int| #[trigger] self.is_child(p, c) ==> p < c < self.nodes.len()
        &&& forall|p: int|
            0 <= p < self.nodes.len() && (#[trigger] self.nodes[p]).left is Some
                && self.nodes[p].right is Some ==> self.nodes[p].left != self.nodes[p].right
        &&& forall|p: int|
            self.cursor <= p < self.nodes.len() ==> (#[trigger] self.nodes[p]).left is None
                && self.nodes[p].right is None
        &&& forall|c: int| 0 < c < self.nodes.len() ==> #[trigger] self.has_parent(c)
        &&& forall|p: int, q: int, c: int|
            #[trigger] self.is_child(p, c) && #[trigger] self.is_child(q, c) ==> p == q
    }

    /// Every object stands in exactly one place of one node.
    pub open spec fn objects_wf(self) -> bool {
        &&& forall|n: int, i: int, o: int| #[trigger]
            self.holds(n, i, o) ==> 0 <= o < self.objects.len()
        &&& forall|n: int, i: int, m: int, j: int, o: int|
            #[trigger] self.holds(n, i, o) && #[trigger] self.holds(m, j, o) ==> n == m && i == j
        &&& forall|o: int| 0 <= o < self.objects.len() ==> #[trigger] self.is_held(o)
    }

    /// The box of a node holds the box of each object of the node and the box
    /// of each child.
    pub open spec fn boxes_wf(self) -> bool {
        &&& forall|n: int, i: int, o: int| #[trigger]
            self.holds(n, i, o) ==> self.objects[o].bounds.within(self.nodes[n].bounds)
        &&& forall|p: int, c: int| #[trigger]
            self.is_child(p, c) ==> self.nodes[c].bounds.within(self.nodes[p].bounds)
    }

    /// The hierarchy is well formed.
    pub open spec fn wf(self) -> bool {
        &&& self.links_wf()
        &&& self.objects_wf()
        &&& self.boxes_wf()
    }

    /// The node under the cursor after its split along `axis` at `mean`:
    /// the same box, the new children, and the objects it keeps.
    pub open spec fn split_parent(self, axis: BoxAxis, mean: Key3) -> Node {
        let node = self.nodes[self.cursor];
        let low = low_side(node.objects, self.objects, axis, mean);
        let high = high_side(node.objects, self.objects, axis, mean);
        let base = self.nodes.len();
        Node {
            bounds: node.bounds,
            left: if low.len() >= 2 {
                Some(base as usize)
            } else {
                None
            },
            right: if high.len() >= 2 {
                Some((if low.len() >= 2 {
                    base + 1
                } else {
                    base
                }) as usize)
            } else {
                None
            },
            objects: (if low.len() == 1 {
                low
            } else {
                Seq::empty()
            }) + (if high.len() == 1 {
                high
            } else {
                Seq::empty()
            }),
        }
    }

    /// The hierarchy after the node under the cursor has been split along
    /// `axis` at `mean`. A side with two or more objects becomes a new child,
    /// the low side first; the one object of a side with one stays in the
    /// node; an empty side leaves nothing. The cursor moves on by one.
    pub open spec fn split_along(self, axis: BoxAxis, mean: Key3) -> Hierarchy {
        let node = self.nodes[self.cursor];
        let low = low_side(node.objects, self.objects, axis, mean);
        let high = high_side(node.objects, self.objects, axis, mean);
        let with_parent = self.nodes.update(self.cursor, self.split_parent(axis, mean));
        let with_left = if low.len() >= 2 {
            with_parent.push(leaf(low, self.objects))
        } else {
            with_parent
        };
        let with_right = if high.len() >= 2 {
            with_left.push(leaf(high, self.objects))
        } else {
            with_left
        };
        Hierarchy { nodes: with_right, objects: self.objects, cursor: self.cursor + 1 }
    }
}

/// Filtering a list in which nothing occurs twice leaves such a list.
proof fn lemma_filter_keeps_distinct<A>(s: Seq<A>, pred: spec_fn(A) -> bool)
    requires
        s.no_duplicates(),
    ensures
        s.filter(pred).no_duplicates(),
    decreases s.len(),
{
    reveal(Seq::filter);
    if s.len() > 0 {
        let rest = s.drop_last();
        let last = s.last();
        assert(s =~= rest.push(last));
        lemma_filter_keeps_distinct(rest, pred);
        rest.lemma_filter_push(last, pred);
        if pred(last) && rest.filter(pred).contains(last) {
            rest.lemma_filter_contains_rev(pred, last);
            let k = choose|k: int| 0 <= k < rest.len() && rest[k] == last;
            assert(s[k] == s[s.len() - 1]);
        }
    }
}

/// What the two sides of a split hold: each object of the list is on the
/// side that its test names, and on no other; nothing else is on a side; and
/// where nothing occurs twice in the list, nothing occurs twice on a side.
pub proof fn lemma_sides(list: Seq<usize>, objects: Seq<ObjectBounds>, axis: BoxAxis, mean: Key3)
    ensures
        forall|i: int|
            0 <= i < low_side(list, objects, axis, mean).len() ==> {
                &&& list.contains(#[trigger] low_side(list, objects, axis, mean)[i])
                &&& goes_low(objects, axis, mean)(low_side(list, objects, axis, mean)[i])
            },
        forall|i: int|
            0 <= i < high_side(list, objects, axis, mean).len() ==> {
                &&& list.contains(#[trigger] high_side(list, objects, axis, mean)[i])
                &&& goes_high(objects, axis, mean)(high_side(list, objects, axis, mean)[i])
            },
        forall|k: int|
            0 <= k < list.len() ==> if goes_low(objects, axis, mean)(#[trigger] list[k]) {
                low_side(list, objects, axis, mean).contains(list[k])
            } else {
                high_side(list, objects, axis, mean).contains(list[k])
            },
        list.no_duplicates() ==> low_side(list, objects, axis, mean).no_duplicates() && high_side(
            list,
            objects,
            axis,
            mean,
        ).no_duplicates(),
{
    let rev = list.reverse();
    let low = low_side(list, objects, axis, mean);
    let high = high_side(list, objects, axis, mean);
    let is_low = goes_low(objects, axis, mean);
    let is_high = goes_high(objects, axis, mean);
    assert forall|i: int| 0 <= i < low.len() implies list.contains(#[trigger] low[i]) && is_low(
        low[i],
    ) by {
        rev.lemma_filter_pred(is_low, i);
        assert(low.contains(low[i]));
        rev.lemma_filter_contains_rev(is_low, low[i]);
        let k = choose|k: int| 0 <= k < rev.len() && rev[k] == low[i];
        assert(list[list.len() - 1 - k] == low[i]);
    }
    assert forall|i: int| 0 <= i < high.len() implies list.contains(#[trigger] high[i]) && is_high(
        high[i],
    ) by {
        rev.lemma_filter_pred(is_high, i);
        assert(high.contains(high[i]));
        rev.lemma_filter_contains_rev(is_high, high[i]);
        let k = choose|k: int| 0 <= k < rev.len() && rev[k] == high[i];
        assert(list[list.len() - 1 - k] == high[i]);
    }
    assert forall|k: int| 0 <= k < list.len() implies if is_low(#[trigger] list[k]) {
        low.contains(list[k])
    } else {
        high.contains(list[k])
    } by {
        let r = list.len() - 1 - k;
        assert(rev[r] == list[k]);
        if is_low(list[k]) {
            rev.lemma_filter_contains(is_low, r);
        } else {
            rev.lemma_filter_contains(is_high, r);
        }
    }
    if list.no_duplicates() {
        assert(rev.no_duplicates());
        lemma_filter_keeps_distinct(rev, is_low);
        lemma_filter_keeps_distinct(rev, is_high);
    }
}

impl Hierarchy {
    /// Whether the node under the cursor can be split: there is such a node,
    /// and the new nodes can still be numbered.
    pub open spec fn can_split(self) -> bool {
        &&& 0 <= self.cursor < self.nodes.len()
        &&& self.nodes.len() + 2 <= usize::MAX
    }

    /// Index of the child that a split gives to the high side, if it gives one.
    pub open spec fn right_index(self, axis: BoxAxis, mean: Key3) -> int {
        if low_side(self.nodes[self.cursor].objects, self.objects, axis, mean).len() >= 2 {
            self.nodes.len() as int + 1
        } else {
            self.nodes.len() as int
        }
    }

    /// The nodes of a split hierarchy, one by one.
    proof fn lemma_split_shape(self, axis: BoxAxis, mean: Key3)
        requires
            self.can_split(),
        ensures
            ({
                let low = low_side(self.nodes[self.cursor].objects, self.objects, axis, mean);
                let high = high_side(self.nodes[self.cursor].objects, self.objects, axis, mean);
                let after = self.split_along(axis, mean);
                let base = self.nodes.len() as int;
                let ri = self.right_index(axis, mean);
                &&& after.objects == self.objects
                &&& after.cursor == self.cursor + 1
                &&& after.nodes.len() == base + (if low.len() >= 2 {
                    1int
                } else {
                    0
                }) + (if high.len() >= 2 {
                    1int
                } else {
                    0
                })
                &&& forall|n: int|
                    0 <= n < base && n != self.cursor ==> #[trigger] after.nodes[n] == self.nodes[n]
                &&& after.nodes[self.cursor] == self.split_parent(axis, mean)
                &&& low.len() >= 2 ==> after.nodes[base] == leaf(low, self.objects)
                &&& high.len() >= 2 ==> after.nodes[ri] == leaf(high, self.objects)
                &&& after.nodes[self.cursor].left == (if low.len() >= 2 {
                    Some(base as usize)
                } else {
                    None
                })
                &&& after.nodes[self.cursor].right == (if high.len() >= 2 {
                    Some(ri as usize)
                } else {
                    None
                })
                &&& base as usize == base
                &&& ri as usize == ri
            }),
    {
    }

    /// A split keeps the tree a tree.
    proof fn lemma_split_links(self, axis: BoxAxis, mean: Key3)
        requires
            self.wf(),
            self.can_split(),
        ensures
            self.split_along(axis, mean).links_wf(),
    {
        let after = self.split_along(axis, mean);
        let base = self.nodes.len() as int;
        let ind = self.cursor;
        self.lemma_split_shape(axis, mean);
        assert(self.nodes[ind].left is None && self.nodes[ind].right is None);
        assert forall|p: int, c: int| #[trigger] after.is_child(p, c) implies p < c
            < after.nodes.len() by {
            if p != ind && p < base {
                assert(self.is_child(p, c));
            }
        }
        assert forall|c: int| 0 < c < after.nodes.len() implies #[trigger] after.has_parent(c) by {
            if c < base {
                assert(self.has_parent(c));
                let p = choose|p: int| self.is_child(p, c);
                assert(after.is_child(p, c));
            } else {
                assert(after.is_child(ind, c));
            }
        }
        assert forall|p: int, q: int, c: int| #[trigger]
            after.is_child(p, c) && #[trigger] after.is_child(q, c) implies p == q by {
            if p != ind && p < base {
                assert(self.is_child(p, c));
            }
            if q != ind && q < base {
                assert(self.is_child(q, c));
            }
        }
    }
}

impl Hierarchy {
    /// Nothing occurs twice in the list of a node.
    proof fn lemma_node_list_distinct(self, node: int)
        requires
            self.objects_wf(),
            0 <= node < self.nodes.len(),
        ensures
            self.nodes[node].objects.no_duplicates(),
    {
        let list = self.nodes[node].objects;
        assert forall|i: int, j: int|
            0 <= i < list.len() && 0 <= j < list.len() && i != j implies list[i] != list[j] by {
            assert(self.holds(node, i, list[i] as int));
            assert(self.holds(node, j, list[j] as int));
        }
    }

    /// Where an object of a split hierarchy comes from: its place is one that
    /// the split left alone, or the object stood in the node that was split.
    proof fn lemma_split_origin(self, axis: BoxAxis, mean: Key3, n: int, i: int, o: int)
        requires
            self.wf(),
            self.can_split(),
            self.split_along(axis, mean).holds(n, i, o),
        ensures
            (n != self.cursor && self.holds(n, i, o)) || ({
                &&& n == self.cursor || n >= self.nodes.len()
                &&& exists|k: int| #[trigger] self.holds(self.cursor, k, o)
            }),
            n != self.cursor && n < self.nodes.len() ==> self.holds(n, i, o),
            n == self.nodes.len() && low_side(
                self.nodes[self.cursor].objects,
                self.objects,
                axis,
                mean,
            ).len() >= 2 ==> goes_low(self.objects, axis, mean)(o as usize),
            n == self.right_index(axis, mean) ==> goes_high(self.objects, axis, mean)(o as usize),
            n == self.cursor ==> {
                ||| (goes_low(self.objects, axis, mean)(o as usize) && low_side(
                    self.nodes[self.cursor].objects,
                    self.objects,
                    axis,
                    mean,
                ).len() == 1)
                ||| (goes_high(self.objects, axis, mean)(o as usize) && high_side(
                    self.nodes[self.cursor].objects,
                    self.objects,
                    axis,
                    mean,
                ).len() == 1)
            },
            0 <= o <= usize::MAX,
    {
        let list = self.nodes[self.cursor].objects;
        let low = low_side(list, self.objects, axis, mean);
        let high = high_side(list, self.objects, axis, mean);
        let base = self.nodes.len() as int;
        self.lemma_split_shape(axis, mean);
        lemma_sides(list, self.objects, axis, mean);
        if n != self.cursor && n < base {
            assert(self.holds(n, i, o));
        } else {
            let x = self.split_along(axis, mean).nodes[n].objects[i];
            assert(x == o);
            if n == self.cursor {
                if low.len() == 1 && i == 0 {
                    assert(x == low[0]);
                } else {
                    assert(high.len() == 1);
                    assert(x == high[0]);
                }
            } else if n == base && low.len() >= 2 {
                assert(x == low[i]);
            } else {
                assert(x == high[i]);
            }
            assert(list.contains(x));
            let k = choose|k: int| 0 <= k < list.len() && list[k] == x;
            assert(self.holds(self.cursor, k, o));
        }
    }

    /// A split keeps every object in exactly one place.
    proof fn lemma_split_objects(self, axis: BoxAxis, mean: Key3)
        requires
            self.wf(),
            self.can_split(),
        ensures
            self.split_along(axis, mean).objects_wf(),
    {
        let after = self.split_along(axis, mean);
        let ind = self.cursor;
        let list = self.nodes[ind].objects;
        let low = low_side(list, self.objects, axis, mean);
        let high = high_side(list, self.objects, axis, mean);
        let base = self.nodes.len() as int;
        let ri = self.right_index(axis, mean);
        self.lemma_split_shape(axis, mean);
        lemma_sides(list, self.objects, axis, mean);
        self.lemma_node_list_distinct(ind);
        assert forall|n: int, i: int, o: int| #[trigger] after.holds(n, i, o) implies 0 <= o
            < after.objects.len() by {
            self.lemma_split_origin(axis, mean, n, i, o);
        }
        assert forall|n: int, i: int, m: int, j: int, o: int| #[trigger]
            after.holds(n, i, o) && #[trigger] after.holds(m, j, o) implies n == m && i == j by {
            self.lemma_split_origin(axis, mean, n, i, o);
            self.lemma_split_origin(axis, mean, m, j, o);
            if n != ind && n < base {
                if m != ind && m < base {
                } else {
                    let k = choose|k: int| #[trigger] self.holds(ind, k, o);
                    assert(self.holds(n, i, o) && self.holds(ind, k, o));
                }
            } else if m != ind && m < base {
                let k = choose|k: int| #[trigger] self.holds(ind, k, o);
                assert(self.holds(m, j, o) && self.holds(ind, k, o));
            } else {
                // Both places were made by the split: the side decides the
                // node, and nothing occurs twice on a side.
                if goes_low(self.objects, axis, mean)(o as usize) {
                    if low.len() >= 2 {
                        assert(n == base && m == base);
                        assert(low[i] == low[j]);
                    } else {
                        assert(n == ind && m == ind);
                        assert(i == 0 && j == 0);
                    }
                } else {
                    if high.len() >= 2 {
                        assert(n == ri && m == ri);
                        assert(high[i] == high[j]);
                    } else {
                        assert(n == ind && m == ind);
                    }
                }
            }
        }
        assert forall|o: int| 0 <= o < after.objects.len() implies #[trigger] after.is_held(o) by {
            assert(self.is_held(o));
            let (n, i) = choose|n: int, i: int| #[trigger] self.holds(n, i, o);
            if n != ind {
                assert(after.holds(n, i, o));
            } else {
                assert(list[i] == o);
                if goes_low(self.objects, axis, mean)(list[i]) {
                    assert(low.contains(list[i]));
                    let k = choose|k: int| 0 <= k < low.len() && low[k] == list[i];
                    if low.len() >= 2 {
                        assert(after.holds(base, k, o));
                    } else {
                        assert(after.nodes[ind].objects[0] == low[0]);
                        assert(after.holds(ind, 0, o));
                    }
                } else {
                    assert(high.contains(list[i]));
                    let k = choose|k: int| 0 <= k < high.len() && high[k] == list[i];
                    if high.len() >= 2 {
                        assert(after.holds(ri, k, o));
                    } else {
                        let at = if low.len() == 1 {
                            1int
                        } else {
                            0int
                        };
                        assert(after.nodes[ind].objects[at] == high[0]);
                        assert(after.holds(ind, at, o));
                    }
                }
            }
        }
    }

    /// A split keeps every box around what is below it.
    proof fn lemma_split_boxes(self, axis: BoxAxis, mean: Key3)
        requires
            self.wf(),
            self.can_split(),
        ensures
            self.split_along(axis, mean).boxes_wf(),
    {
        let after = self.split_along(axis, mean);
        let ind = self.cursor;
        let list = self.nodes[ind].objects;
        let low = low_side(list, self.objects, axis, mean);
        let high = high_side(list, self.objects, axis, mean);
        let base = self.nodes.len() as int;
        let ri = self.right_index(axis, mean);
        self.lemma_split_shape(axis, mean);
        lemma_sides(list, self.objects, axis, mean);
        assert(self.nodes[ind].left is None && self.nodes[ind].right is None);
        assert forall|n: int, i: int, o: int| #[trigger]
            after.holds(n, i, o) implies after.objects[o].bounds.within(after.nodes[n].bounds) by {
            self.lemma_split_origin(axis, mean, n, i, o);
            if n != ind && n < base {
            } else if n == ind {
                let k = choose|k: int| #[trigger] self.holds(ind, k, o);
                assert(self.holds(ind, k, o));
            } else {
                lemma_hull_holds_member(after.nodes[n].objects, self.objects, i);
            }
        }
        assert forall|p: int, c: int| #[trigger]
            after.is_child(p, c) implies after.nodes[c].bounds.within(after.nodes[p].bounds) by {
            if p != ind && p < base {
                assert(self.is_child(p, c));
            } else if p == ind {
                let side = after.nodes[c].objects;
                let outer = self.nodes[ind].bounds;
                assert forall|i: int|
                    0 <= i < side.len() implies (#[trigger] self.objects[side[i] as int])
                    .bounds.within(outer) by {
                    assert(list.contains(side[i]));
                    let k = choose|k: int| 0 <= k < list.len() && list[k] == side[i];
                    assert(self.holds(ind, k, side[i] as int));
                }
                lemma_hull_is_least(side, self.objects, outer);
            }
        }
    }

    /// A split of a well-formed hierarchy gives a well-formed hierarchy.
    pub proof fn lemma_split_preserves_wf(self, axis: BoxAxis, mean: Key3)
        requires
            self.wf(),
            self.can_split(),
        ensures
            self.split_along(axis, mean).wf(),
    {
        self.lemma_split_links(axis, mean);
        self.lemma_split_objects(axis, mean);
        self.lemma_split_boxes(axis, mean);
    }
}

impl Hierarchy {
    /// Whether `node` is `top` or lies below it.
    pub open spec fn in_subtree(self, top: int, node: int) -> bool
        decreases self.nodes.len() - top,
    {
        if 0 <= top < self.nodes.len() {
            ||| top == node
            ||| (self.nodes[top].left matches Some(l) && top < l < self.nodes.len()
                && self.in_subtree(l as int, node))
            ||| (self.nodes[top].right matches Some(r) && top < r < self.nodes.len()
                && self.in_subtree(r as int, node))
        } else {
            false
        }
    }

    /// Number of nodes at and below `top`.
    pub open spec fn subtree_size(self, top: int) -> nat
        decreases self.nodes.len() - top,
    {
        if 0 <= top < self.nodes.len() {
            1 + (match self.nodes[top].left {
                Some(l) => if top < l < self.nodes.len() {
                    self.subtree_size(l as int)
                } else {
                    0
                },
                None => 0,
            }) + (match self.nodes[top].right {
                Some(r) => if top < r < self.nodes.len() {
                    self.subtree_size(r as int)
                } else {
                    0
                },
                None => 0,
            })
        } else {
            0
        }
    }

    /// The hierarchy before any split is well formed.
    pub proof fn lemma_initial_wf(objects: Seq<ObjectBounds>)
        requires
            objects.len() <= usize::MAX,
        ensures
            Hierarchy::initial(objects).wf(),
    {
        let h = Hierarchy::initial(objects);
        let all = Seq::new(objects.len(), |i: int| i as usize);
        assert(h.nodes[0].objects == all);
        assert forall|o: int| 0 <= o < h.objects.len() implies #[trigger] h.is_held(o) by {
            assert(h.holds(0, o, o));
        }
        assert forall|n: int, i: int, o: int| #[trigger]
            h.holds(n, i, o) implies h.objects[o].bounds.within(h.nodes[n].bounds) by {
            lemma_hull_holds_member(all, objects, i);
        }
    }

    /// What lies below a child lies below its parent.
    proof fn lemma_subtree_grows(self, top: int, child: int, node: int)
        requires
            self.links_wf(),
            self.is_child(top, child),
            self.in_subtree(child, node),
        ensures
            self.in_subtree(top, node),
    {
    }

    /// What lies below a node of a subtree lies in the subtree.
    proof fn lemma_subtree_transitive(self, top: int, mid: int, node: int)
        requires
            self.links_wf(),
            self.in_subtree(top, mid),
            self.in_subtree(mid, node),
        ensures
            self.in_subtree(top, node),
        decreases self.nodes.len() - top,
    {
        if top != mid {
            if self.nodes[top].left matches Some(l) && top < l < self.nodes.len()
                && self.in_subtree(l as int, mid) {
                self.lemma_subtree_transitive(self.nodes[top].left->0 as int, mid, node);
            } else {
                let r = self.nodes[top].right->0;
                self.lemma_subtree_transitive(r as int, mid, node);
            }
        }
    }

    /// Every node lies below the root.
    pub proof fn lemma_root_reaches(self, node: int)
        requires
            self.links_wf(),
            0 <= node < self.nodes.len(),
        ensures
            self.in_subtree(0, node),
        decreases node,
    {
        if node > 0 {
            assert(self.has_parent(node));
            let p = choose|p: int| self.is_child(p, node);
            self.lemma_root_reaches(p);
            assert(self.in_subtree(node, node));
            self.lemma_subtree_grows(p, node, node);
            self.lemma_subtree_transitive(0, p, node);
        }
    }

    /// Containment: the box of a node holds the box of every object that a
    /// node below it holds.
    pub proof fn lemma_box_holds_descendants(self, top: int, node: int, slot: int)
        requires
            self.wf(),
            self.in_subtree(top, node),
            0 <= slot < self.nodes[node].objects.len(),
        ensures
            self.objects[self.nodes[node].objects[slot] as int].bounds.within(
                self.nodes[top].bounds,
            ),
        decreases self.nodes.len() - top,
    {
        let o = self.nodes[node].objects[slot] as int;
        if top == node {
            assert(self.holds(node, slot, o));
        } else {
            let next = if self.nodes[top].left matches Some(l) && top < l < self.nodes.len()
                && self.in_subtree(l as int, node) {
                self.nodes[top].left->0 as int
            } else {
                self.nodes[top].right->0 as int
            };
            assert(self.is_child(top, next));
            self.lemma_box_holds_descendants(next, node, slot);
        }
    }

    /// Completeness: every object that the hierarchy was built over stands in
    /// one place of one node, and in no other.
    pub proof fn lemma_object_held_once(self, object: int) -> (place: (int, int))
        requires
            self.wf(),
            0 <= object < self.objects.len(),
        ensures
            self.holds(place.0, place.1, object),
            forall|n: int, i: int| #[trigger]
                self.holds(n, i, object) ==> n == place.0 && i == place.1,
    {
        assert(self.is_held(object));
        choose|n: int, i: int| #[trigger] self.holds(n, i, object)
    }

    /// Nothing but the objects that the hierarchy was built over stands in a
    /// node.
    pub proof fn lemma_held_is_object(self, node: int, slot: int)
        requires
            self.wf(),
            0 <= node < self.nodes.len(),
            0 <= slot < self.nodes[node].objects.len(),
        ensures
            0 <= self.nodes[node].objects[slot] < self.objects.len(),
    {
        assert(self.holds(node, slot, self.nodes[node].objects[slot] as int));
    }
}

impl Hierarchy {
    /// The first node at or after `from` that holds more objects than a node
    /// may keep, or the number of nodes where there is none.
    pub open spec fn next_large(self, from: int) -> int
        decreases self.nodes.len() - from,
    {
        if 0 <= from < self.nodes.len() && self.nodes[from].objects.len() <= MIN_OBJECTS_PER_BOX {
            self.next_large(from + 1)
        } else {
            from
        }
    }

    /// The hierarchy with the cursor moved on to the next node that has to be
    /// split.
    pub open spec fn settled(self) -> Hierarchy {
        Hierarchy { nodes: self.nodes, objects: self.objects, cursor: self.next_large(self.cursor) }
    }

    /// The hierarchy with the node under the cursor left as it is, and the
    /// cursor moved on by one.
    pub open spec fn passed_over(self) -> Hierarchy {
        Hierarchy { nodes: self.nodes, objects: self.objects, cursor: self.cursor + 1 }
    }

    /// Whether the build is over: no node is left to split.
    pub open spec fn is_built(self) -> bool {
        self.cursor >= self.nodes.len()
    }

    /// Whether the cursor stands on a node that has to be split, or past the
    /// last node.
    pub open spec fn is_settled(self) -> bool {
        self.is_built() || self.nodes[self.cursor].objects.len() > MIN_OBJECTS_PER_BOX
    }

    /// Where the cursor comes to rest.
    pub proof fn lemma_next_large(self, from: int)
        requires
            0 <= from <= self.nodes.len(),
        ensures
            from <= self.next_large(from) <= self.nodes.len(),
            forall|n: int|
                from <= n < self.next_large(from) ==> (#[trigger] self.nodes[n]).objects.len()
                    <= MIN_OBJECTS_PER_BOX,
            self.next_large(from) < self.nodes.len() ==> self.nodes[self.next_large(
                from,
            )].objects.len() > MIN_OBJECTS_PER_BOX,
        decreases self.nodes.len() - from,
    {
        if from < self.nodes.len() && self.nodes[from].objects.len() <= MIN_OBJECTS_PER_BOX {
            self.lemma_next_large(from + 1);
        }
    }

    /// Moving the cursor on keeps a well-formed hierarchy well formed.
    pub proof fn lemma_settled_wf(self)
        requires
            self.wf(),
        ensures
            self.settled().wf(),
            self.settled().is_settled(),
    {
        self.lemma_next_large(self.cursor);
        self.lemma_cursor_moves(self.next_large(self.cursor));
    }

    /// A well-formed hierarchy stays well formed when its cursor moves on.
    pub proof fn lemma_cursor_moves(self, to: int)
        requires
            self.wf(),
            self.cursor <= to <= self.nodes.len(),
        ensures
            (Hierarchy { nodes: self.nodes, objects: self.objects, cursor: to }).wf(),
    {
        let after = Hierarchy { nodes: self.nodes, objects: self.objects, cursor: to };
        assert forall|p: int, c: int| #[trigger] after.is_child(p, c) implies p < c
            < after.nodes.len() by {
            assert(self.is_child(p, c));
        }
        assert forall|c: int| 0 < c < after.nodes.len() implies #[trigger] after.has_parent(c) by {
            assert(self.has_parent(c));
            let p = choose|p: int| self.is_child(p, c);
            assert(after.is_child(p, c));
        }
        assert forall|p: int, q: int, c: int| #[trigger]
            after.is_child(p, c) && #[trigger] after.is_child(q, c) implies p == q by {
            assert(self.is_child(p, c) && self.is_child(q, c));
        }
        assert forall|n: int, i: int, o: int| #[trigger] after.holds(n, i, o) implies self.holds(
            n,
            i,
            o,
        ) by {}
        assert forall|o: int| 0 <= o < after.objects.len() implies #[trigger] after.is_held(o) by {
            assert(self.is_held(o));
            let (n, i) = choose|n: int, i: int| #[trigger] self.holds(n, i, o);
            assert(after.holds(n, i, o));
        }
        assert forall|p: int, c: int| #[trigger]
            after.is_child(p, c) implies after.nodes[c].bounds.within(after.nodes[p].bounds) by {
            assert(self.is_child(p, c));
        }
    }
}

} // verus!
