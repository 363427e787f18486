//! Keys, axes and axis-aligned boxes.
//!
//! A key is an `i64` that stands for one scalar of the caller: a coordinate or
//! a length. The caller's map from scalars to keys is strictly increasing, so
//! the order of two keys is the order of the two scalars.

use vstd::prelude::*;

verus! {

/// Three keys, one for each axis.
#[derive(Debug, Copy, Clone, PartialEq, Eq)]
pub struct Key3 {
    pub x: i64,
    pub y: i64,
    pub z: i64,
}

impl Key3 {
    /// The axis along which the keys are largest; among equals the later
    /// axis.
    pub open spec fn widest_axis(self) -> BoxAxis {
        if self.y < self.x && self.z < self.x {
            BoxAxis::X
        } else if self.z < self.y {
            BoxAxis::Y
        } else {
            BoxAxis::Z
        }
    }
}

/// One of the three axes, in the order x, y, z.
#[derive(Debug, Copy, Clone, PartialEq, Eq)]
pub enum BoxAxis {
    X,
    Y,
    Z,
}

impl BoxAxis {
    /// The key of `p` along the axis.
    pub open spec fn of(self, p: Key3) -> i64 {
        match self {
            BoxAxis::X => p.x,
            BoxAxis::Y => p.y,
            BoxAxis::Z => p.z,
        }
    }

    /// Whether the axis is the widest of `spread`: no axis is wider, and
    /// every later axis is narrower.
    pub open spec fn is_widest(self, spread: Key3) -> bool {
        match self {
            BoxAxis::X => spread.y < spread.x && spread.z < spread.x,
            BoxAxis::Y => spread.x <= spread.y && spread.z < spread.y,
            BoxAxis::Z => spread.x <= spread.z && spread.y <= spread.z,
        }
    }

    /// The key of `p` along the axis.
    pub fn pick(&self, p: Key3) -> (key: i64)
        ensures
            key == self.of(p),
    {
        match self {
            BoxAxis::X => p.x,
            BoxAxis::Y => p.y,
            BoxAxis::Z => p.z,
        }
    }

    /// The axis along which `spread` is largest. Among equals the later axis
    /// wins.
    pub fn widest(spread: Key3) -> (axis: BoxAxis)
        ensures
            axis.is_widest(spread),
            axis == spread.widest_axis(),
    {
        if spread.x > spread.z && spread.x > spread.y {
            BoxAxis::X
        } else if spread.y > spread.z {
            BoxAxis::Y
        } else {
            BoxAxis::Z
        }
    }

    /// Whether `pos` falls on the low side of `center` along the axis: its
    /// key is not above that of `center`.
    pub fn is_left(&self, center: Key3, pos: Key3) -> (low: bool)
        ensures
            low == (self.of(pos) <= self.of(center)),
    {
        match self {
            BoxAxis::X => pos.x <= center.x,
            BoxAxis::Y => pos.y <= center.y,
            BoxAxis::Z => pos.z <= center.z,
        }
    }
}

/// The axis that `widest_axis` names is the widest.
pub proof fn lemma_widest_axis(spread: Key3)
    ensures
        spread.widest_axis().is_widest(spread),
{
}

/// Only one axis is the widest.
pub proof fn lemma_widest_is_unique(a: BoxAxis, b: BoxAxis, spread: Key3)
    requires
        a.is_widest(spread),
        b.is_widest(spread),
    ensures
        a == b,
{
}

/// The widest axis is no narrower than any axis.
pub proof fn lemma_widest_is_largest(a: BoxAxis, b: BoxAxis, spread: Key3)
    requires
        a.is_widest(spread),
    ensures
        b.of(spread) <= a.of(spread),
{
}

/// An axis-aligned box, given by its lowest and its highest corner.
#[derive(Debug, Copy, Clone, PartialEq, Eq)]
pub struct Aabb {
    pub lo: Key3,
    pub hi: Key3,
}

/// The smaller of two keys.
pub open spec fn min_key(a: i64, b: i64) -> i64 {
    if a <= b {
        a
    } else {
        b
    }
}

/// The larger of two keys.
pub open spec fn max_key(a: i64, b: i64) -> i64 {
    if a >= b {
        a
    } else {
        b
    }
}

fn lower(a: i64, b: i64) -> (m: i64)
    ensures
        m == min_key(a, b),
{
    if a <= b {
        a
    } else {
        b
    }
}

fn upper(a: i64, b: i64) -> (m: i64)
    ensures
        m == max_key(a, b),
{
    if a >= b {
        a
    } else {
        b
    }
}

impl Aabb {
    /// The box that holds nothing: the start of every hull.
    pub open spec fn nothing() -> Aabb {
        Aabb {
            lo: Key3 { x: i64::MAX, y: i64::MAX, z: i64::MAX },
            hi: Key3 { x: i64::MIN, y: i64::MIN, z: i64::MIN },
        }
    }

    /// Whether the box lies within `outer`.
    pub open spec fn within(self, outer: Aabb) -> bool {
        &&& outer.lo.x <= self.lo.x && self.hi.x <= outer.hi.x
        &&& outer.lo.y <= self.lo.y && self.hi.y <= outer.hi.y
        &&& outer.lo.z <= self.lo.z && self.hi.z <= outer.hi.z
    }

    /// The smallest box that holds both boxes.
    pub open spec fn join(self, other: Aabb) -> Aabb {
        Aabb {
            lo: Key3 {
                x: min_key(self.lo.x, other.lo.x),
                y: min_key(self.lo.y, other.lo.y),
                z: min_key(self.lo.z, other.lo.z),
            },
            hi: Key3 {
                x: max_key(self.hi.x, other.hi.x),
                y: max_key(self.hi.y, other.hi.y),
                z: max_key(self.hi.z, other.hi.z),
            },
        }
    }

    /// Whether the point lies in the box, its faces included.
    pub open spec fn holds_point(self, p: Key3) -> bool {
        &&& self.lo.x <= p.x <= self.hi.x
        &&& self.lo.y <= p.y <= self.hi.y
        &&& self.lo.z <= p.z <= self.hi.z
    }

    /// Whether the point lies inside the box and on none of its faces.
    pub open spec fn holds_point_inside(self, p: Key3) -> bool {
        &&& self.lo.x < p.x < self.hi.x
        &&& self.lo.y < p.y < self.hi.y
        &&& self.lo.z < p.z < self.hi.z
    }

    /// Whether the point lies in the box, its faces included.
    pub fn contains_point(&self, p: Key3) -> (inside: bool)
        ensures
            inside == self.holds_point(p),
    {
        p.x >= self.lo.x && p.y >= self.lo.y && p.z >= self.lo.z && p.x <= self.hi.x && p.y
            <= self.hi.y && p.z <= self.hi.z
    }

    /// Whether the point lies inside the box and on none of its faces.
    pub fn contains_point_inside(&self, p: Key3) -> (inside: bool)
        ensures
            inside == self.holds_point_inside(p),
    {
        p.x > self.lo.x && p.y > self.lo.y && p.z > self.lo.z && p.x < self.hi.x && p.y
            < self.hi.y && p.z < self.hi.z
    }

    /// The box that holds nothing.
    pub fn empty() -> (b: Aabb)
        ensures
            b == Aabb::nothing(),
    {
        Aabb {
            lo: Key3 { x: i64::MAX, y: i64::MAX, z: i64::MAX },
            hi: Key3 { x: i64::MIN, y: i64::MIN, z: i64::MIN },
        }
    }

    /// The smallest box that holds both boxes.
    pub fn union(&self, other: &Aabb) -> (b: Aabb)
        ensures
            b == self.join(*other),
    {
        Aabb {
            lo: Key3 {
                x: lower(self.lo.x, other.lo.x),
                y: lower(self.lo.y, other.lo.y),
                z: lower(self.lo.z, other.lo.z),
            },
            hi: Key3 {
                x: upper(self.hi.x, other.hi.x),
                y: upper(self.hi.y, other.hi.y),
                z: upper(self.hi.z, other.hi.z),
            },
        }
    }
}

/// What the hierarchy reads of one object: the centre of its box, by which
/// it is sorted to a side, and the box itself.
#[derive(Debug, Copy, Clone, PartialEq, Eq)]
pub struct ObjectBounds {
    pub center: Key3,
    pub bounds: Aabb,
}

/// The smallest box around the boxes of the listed objects.
pub open spec fn hull(list: Seq<usize>, objects: Seq<ObjectBounds>) -> Aabb
    decreases list.len(),
{
    if list.len() == 0 {
        Aabb::nothing()
    } else {
        hull(list.drop_last(), objects).join(objects[list.last() as int].bounds)
    }
}

/// The hull of a list holds the box of each listed object.
pub proof fn lemma_hull_holds_member(list: Seq<usize>, objects: Seq<ObjectBounds>, i: int)
    requires
        0 <= i < list.len(),
    ensures
        objects[list[i] as int].bounds.within(hull(list, objects)),
    decreases list.len(),
{
    if i < list.len() - 1 {
        lemma_hull_holds_member(list.drop_last(), objects, i);
    }
}

/// A box that holds the box of each listed object holds their hull.
pub proof fn lemma_hull_is_least(list: Seq<usize>, objects: Seq<ObjectBounds>, outer: Aabb)
    requires
        forall|i: int|
            0 <= i < list.len() ==> (#[trigger] objects[list[i] as int]).bounds.within(outer),
    ensures
        hull(list, objects).within(outer),
    decreases list.len(),
{
    if list.len() > 0 {
        let rest = list.drop_last();
        assert forall|i: int| 0 <= i < rest.len() implies (#[trigger] objects[rest[i] as int])
            .bounds.within(outer) by {
            assert(rest[i] == list[i]);
        }
        lemma_hull_is_least(rest, objects, outer);
        assert(objects[list[list.len() - 1] as int].bounds.within(outer));
    }
}

/// The distances along a ray at which it crosses three planes, one across
/// each axis. A distance is missing where it is no number, as for a ray that
/// runs within the plane.
#[derive(Debug, Copy, Clone, PartialEq, Eq)]
pub struct Crossings {
    pub x: Option<i64>,
    pub y: Option<i64>,
    pub z: Option<i64>,
}

/// The smaller of two distances. A missing distance gives way to the other.
pub open spec fn lesser(a: Option<i64>, b: Option<i64>) -> Option<i64> {
    match (a, b) {
        (Some(p), Some(q)) => Some(min_key(p, q)),
        (Some(_), None) => a,
        _ => b,
    }
}

/// The larger of two distances. A missing distance gives way to the other.
pub open spec fn greater(a: Option<i64>, b: Option<i64>) -> Option<i64> {
    match (a, b) {
        (Some(p), Some(q)) => Some(max_key(p, q)),
        (Some(_), None) => a,
        _ => b,
    }
}

/// The distance at which a ray has come between the two planes of every
/// axis: the largest, over the axes, of the smaller crossing of the axis.
/// `lower` holds the crossings of the planes through the lowest corner of a
/// box, `upper` those of the planes through its highest corner.
pub open spec fn slab_near(lower: Crossings, upper: Crossings) -> Option<i64> {
    greater(
        lesser(lower.x, upper.x),
        greater(lesser(lower.y, upper.y), lesser(lower.z, upper.z)),
    )
}

/// The distance at which a ray first leaves the two planes of some axis: the
/// smallest, over the axes, of the larger crossing of the axis.
pub open spec fn slab_far(lower: Crossings, upper: Crossings) -> Option<i64> {
    lesser(
        greater(lower.x, upper.x),
        lesser(greater(lower.y, upper.y), greater(lower.z, upper.z)),
    )
}

/// Where a ray enters a box, by the slab rule: the ray hits the box where it
/// leaves the slabs after it has come between them all, and comes between
/// them in front of its origin, whose distance is `zero`.
pub open spec fn slab_entry(lower: Crossings, upper: Crossings, zero: i64) -> Option<i64> {
    match (slab_near(lower, upper), slab_far(lower, upper)) {
        (Some(near), Some(far)) => if far > near && near > zero {
            Some(near)
        } else {
            None
        },
        _ => None,
    }
}

fn lesser_of(a: Option<i64>, b: Option<i64>) -> (m: Option<i64>)
    ensures
        m == lesser(a, b),
{
    match (a, b) {
        (Some(p), Some(q)) => Some(lower(p, q)),
        (Some(_), None) => a,
        _ => b,
    }
}

fn greater_of(a: Option<i64>, b: Option<i64>) -> (m: Option<i64>)
    ensures
        m == greater(a, b),
{
    match (a, b) {
        (Some(p), Some(q)) => Some(upper(p, q)),
        (Some(_), None) => a,
        _ => b,
    }
}

/// Where a ray enters a box, by the slab rule.
pub fn slab_hit(lower: Crossings, upper: Crossings, zero: i64) -> (hit: Option<i64>)
    ensures
        hit == slab_entry(lower, upper, zero),
{
    let near = greater_of(
        lesser_of(lower.x, upper.x),
        greater_of(lesser_of(lower.y, upper.y), lesser_of(lower.z, upper.z)),
    );
    let far = lesser_of(
        greater_of(lower.x, upper.x),
        lesser_of(greater_of(lower.y, upper.y), greater_of(lower.z, upper.z)),
    );
    match (near, far) {
        (Some(n), Some(f)) => {
            if f > n && n > zero {
                Some(n)
            } else {
                None
            }
        },
        _ => None,
    }
}

} // verus!
