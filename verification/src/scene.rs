//! The scene: a camera, an environment, and the objects to render, each
//! known by the index it was given when it was added.

use vstd::prelude::*;
use crate::walk::{is_nearest, Hit};

verus! {

/// A scene over a camera of type `C`, an environment of type `E` and objects
/// of type `R`. Objects are only ever added, so an index stays good for as
/// long as the scene lives.
pub struct Scene<C, E, R> {
    pub camera: C,
    pub sky: E,
    objects: Vec<R>,
}

impl<C, E, R> View for Scene<C, E, R> {
    type V = Seq<R>;

    /// The objects, in the order in which they were added.
    closed spec fn view(&self) -> Seq<R> {
        self.objects@
    }
}

/// Whether `best` is the hit that a search through all objects finds: a
/// nearest hit, and among the objects hit at that distance the first.
pub open spec fn is_first_nearest(best: Option<Hit>, distances: Seq<Option<i64>>) -> bool {
    &&& is_nearest(best, distances)
    &&& best matches Some(hit) ==> forall|o: int|
        0 <= o < hit.object && (#[trigger] distances[o]) is Some ==> hit.distance < distances[o]->0
}

/// Only one hit is the first nearest.
pub proof fn lemma_first_nearest_unique(
    a: Option<Hit>,
    b: Option<Hit>,
    distances: Seq<Option<i64>>,
)
    requires
        is_first_nearest(a, distances),
        is_first_nearest(b, distances),
    ensures
        a == b,
{
    if a is Some {
        assert(distances[a->0.object as int] is Some);
    }
    if b is Some {
        assert(distances[b->0.object as int] is Some);
    }
}

impl<C, E, R> Scene<C, E, R> {
    /// The camera of the scene.
    pub closed spec fn spec_camera(&self) -> C {
        self.camera
    }

    /// The environment of the scene.
    pub closed spec fn spec_sky(&self) -> E {
        self.sky
    }

    /// A scene without objects.
    pub fn new(camera: C, sky: E) -> (scene: Self)
        ensures
            scene@ == Seq::<R>::empty(),
            scene.spec_camera() == camera,
            scene.spec_sky() == sky,
    {
        Scene { camera, sky, objects: Vec::new() }
    }

    /// Adds an object and returns its index: the number of objects that
    /// were there before it.
    pub fn add_object(&mut self, object: R) -> (index: usize)
        ensures
            index == old(self)@.len(),
            final(self)@ == old(self)@.push(object),
            final(self).spec_camera() == old(self).spec_camera(),
            final(self).spec_sky() == old(self).spec_sky(),
    {
        let index = self.objects.len();
        self.objects.push(object);
        index
    }

    /// Number of objects.
    pub fn get_object_count(&self) -> (count: usize)
        ensures
            count == self@.len(),
    {
        self.objects.len()
    }

    /// The object of the given index.
    pub fn get_object(&self, index: usize) -> (object: &R)
        requires
            index < self@.len(),
        ensures
            *object == self@[index as int],
    {
        &self.objects[index]
    }

    /// The nearest hit of a ray found by testing every object.
    /// `distances` holds, for each object in turn, the distance at which the
    /// ray hits it, if it does. An object replaces the nearest hit so far
    /// only where it is strictly nearer.
    pub fn trace_scene(&self, distances: &Vec<Option<i64>>) -> (best: Option<Hit>)
        requires
            distances.len() == self@.len(),
        ensures
            is_first_nearest(best, distances@),
    {
        let mut best: Option<Hit> = None;
        let mut i: usize = 0;
        while i < distances.len()
            invariant
                i <= distances.len(),
                is_first_nearest(best, distances@.take(i as int)),
            decreases distances.len() - i,
        {
            let ghost seen = distances@.take(i as int);
            let ghost more = distances@.take(i as int + 1);
            let ghost before = best;
            if let Some(distance) = distances[i] {
                let nearer = match best {
                    Some(hit) => distance < hit.distance,
                    None => true,
                };
                if nearer {
                    best = Some(Hit { object: i, distance });
                }
            }
            proof {
                assert forall|o: int| 0 <= o < i implies more[o] == #[trigger] seen[o] by {}
                assert forall|o: int| 0 <= o < i implies seen[o] == #[trigger] more[o] by {}
                if before is Some {
                    assert(seen[before->0.object as int] is Some);
                }
            }
            i = i + 1;
        }
        proof {
            assert(distances@.take(i as int) =~= distances@);
        }
        best
    }
}

} // verus!
