//! The box shape: which face a ray enters it by.

use vstd::prelude::*;
use crate::geometry::{slab_entry, slab_hit, Aabb, Crossings, Key3};

verus! {

/// A face of an axis-aligned box, named by the direction of its normal.
#[derive(Debug, Copy, Clone, PartialEq, Eq)]
pub enum BoxFace {
    NegX,
    PosX,
    NegY,
    PosY,
    NegZ,
    PosZ,
}

impl BoxFace {
    /// Place of the face in the order in which the faces are tried: by axis
    /// x, y, z, and on an axis the lower face first.
    pub open spec fn rank(self) -> int {
        match self {
            BoxFace::NegX => 0,
            BoxFace::PosX => 1,
            BoxFace::NegY => 2,
            BoxFace::PosY => 3,
            BoxFace::NegZ => 4,
            BoxFace::PosZ => 5,
        }
    }

    /// The distance at which a ray crosses the plane of the face. `lower`
    /// holds the crossings of the planes of the three lower faces, `upper`
    /// those of the planes of the three upper faces.
    pub open spec fn plane_distance(self, lower: Crossings, upper: Crossings) -> Option<i64> {
        match self {
            BoxFace::NegX => lower.x,
            BoxFace::PosX => upper.x,
            BoxFace::NegY => lower.y,
            BoxFace::PosY => upper.y,
            BoxFace::NegZ => lower.z,
            BoxFace::PosZ => upper.z,
        }
    }

    /// Whether the face is the one that a ray entering at `entry` comes in
    /// by: the first face in the order whose plane the ray crosses at
    /// `entry`, and the last face where there is none.
    pub open spec fn is_entry_face(self, entry: i64, lower: Crossings, upper: Crossings) -> bool {
        &&& self != BoxFace::PosZ ==> self.plane_distance(lower, upper) == Some(entry)
        &&& forall|f: BoxFace| #[trigger]
            f.rank() < self.rank() ==> f.plane_distance(lower, upper) != Some(entry)
    }

    /// The face that a ray entering at `entry` comes in by.
    pub fn of_entry(entry: i64, lower: Crossings, upper: Crossings) -> (face: BoxFace)
        ensures
            face.is_entry_face(entry, lower, upper),
    {
        let face = if crosses_at(lower.x, entry) {
            BoxFace::NegX
        } else if crosses_at(upper.x, entry) {
            BoxFace::PosX
        } else if crosses_at(lower.y, entry) {
            BoxFace::NegY
        } else if crosses_at(upper.y, entry) {
            BoxFace::PosY
        } else if crosses_at(lower.z, entry) {
            BoxFace::NegZ
        } else {
            BoxFace::PosZ
        };
        assert forall|f: BoxFace| #[trigger] f.rank() < face.rank() implies f.plane_distance(
            lower,
            upper,
        ) != Some(entry) by {
            match f {
                BoxFace::NegX => {},
                BoxFace::PosX => {},
                BoxFace::NegY => {},
                BoxFace::PosY => {},
                BoxFace::NegZ => {},
                BoxFace::PosZ => {},
            }
        }
        face
    }
}

/// Whether a crossing lies at the given distance.
fn crosses_at(crossing: Option<i64>, distance: i64) -> (same: bool)
    ensures
        same == (crossing == Some(distance)),
{
    match crossing {
        Some(at) => at == distance,
        None => false,
    }
}

/// Only one face is the entry face.
pub proof fn lemma_entry_face_unique(
    a: BoxFace,
    b: BoxFace,
    entry: i64,
    lower: Crossings,
    upper: Crossings,
)
    requires
        a.is_entry_face(entry, lower, upper),
        b.is_entry_face(entry, lower, upper),
    ensures
        a == b,
{
    if a.rank() < b.rank() {
        assert(a.plane_distance(lower, upper) != Some(entry));
    }
    if b.rank() < a.rank() {
        assert(b.plane_distance(lower, upper) != Some(entry));
    }
}

/// Where and by which face a ray enters a box shape, if it hits it. A ray
/// that starts inside the box does not hit it. For any other ray the slab
/// rule decides, from the distances at which the ray crosses the planes of
/// the lower and of the upper faces; `zero` is the distance of the ray's
/// origin.
pub fn trace_box(
    bounds: Aabb,
    ray_orig: Key3,
    lower: Crossings,
    upper: Crossings,
    zero: i64,
) -> (hit: Option<(i64, BoxFace)>)
    ensures
        hit is Some <==> !bounds.holds_point_inside(ray_orig) && slab_entry(lower, upper, zero)
            is Some,
        hit matches Some(found) ==> slab_entry(lower, upper, zero) == Some(found.0)
            && found.1.is_entry_face(found.0, lower, upper),
{
    if bounds.contains_point_inside(ray_orig) {
        return None;
    }
    match slab_hit(lower, upper, zero) {
        Some(distance) => Some((distance, BoxFace::of_entry(distance, lower, upper))),
        None => None,
    }
}

} // verus!
