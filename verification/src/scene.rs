//! The scene: the hierarchy over all primitives, and the lights among them.

use crate::bvh::{bounds_of, built, positions, BVHNode};
use crate::hittable::{Hit, Hittable};
use crate::random::choose_one;
use vstd::prelude::*;

verus! {

/// The positions of the primitives of `objects` that give off light, in
/// ascending order.
pub open spec fn lights_of<P: Hittable>(objects: Seq<P>) -> Seq<usize>
    decreases objects.len(),
{
    if objects.len() == 0 {
        Seq::empty()
    } else if objects.last().emits() {
        lights_of(objects.drop_last()).push((objects.len() - 1) as usize)
    } else {
        lights_of(objects.drop_last())
    }
}

/// The lights are exactly the positions of the primitives that give off
/// light, each once.
pub proof fn lemma_lights_are_the_emitters<P: Hittable>(objects: Seq<P>)
    requires
        objects.len() <= usize::MAX,
    ensures
        forall|k: int|
            0 <= k < lights_of(objects).len() ==> (#[trigger] lights_of(objects)[k])
                < objects.len() && objects[lights_of(objects)[k] as int].emits(),
        forall|i: int|
            0 <= i < objects.len() && (#[trigger] objects[i]).emits() ==> lights_of(
                objects,
            ).contains(i as usize),
        forall|a: int, b: int|
            0 <= a < b < lights_of(objects).len() ==> (#[trigger] lights_of(objects)[a]) < (
            #[trigger] lights_of(objects)[b]),
    decreases objects.len(),
{
    if objects.len() > 0 {
        let front = objects.drop_last();
        let rest = lights_of(front);
        let all = lights_of(objects);
        lemma_lights_are_the_emitters(front);
        assert forall|k: int| 0 <= k < all.len() implies (#[trigger] all[k]) < objects.len()
            && objects[all[k] as int].emits() by {
            if k < rest.len() {
                assert(all[k] == rest[k]);
                assert(front[rest[k] as int] == objects[rest[k] as int]);
            }
        }
        assert forall|i: int| 0 <= i < objects.len() && (#[trigger] objects[i]).emits() implies all.contains(
            i as usize,
        ) by {
            if i < front.len() {
                assert(front[i] == objects[i]);
                assert(rest.contains(i as usize));
                let k = choose|k: int| 0 <= k < rest.len() && rest[k] == i as usize;
                assert(all[k] == i as usize);
            } else {
                assert(all[all.len() - 1] == i as usize);
            }
        }
        assert forall|a: int, b: int| 0 <= a < b < all.len() implies (#[trigger] all[a]) < (
        #[trigger] all[b]) by {
            if b < rest.len() {
                assert(all[a] == rest[a] && all[b] == rest[b]);
            } else {
                assert(all[a] == rest[a]);
            }
        }
    }
}

/// A background, the hierarchy over all primitives, and the positions of
/// the primitives that give off light.
pub struct Scene<P: Hittable, C> {
    background: C,
    bvh: BVHNode<P>,
    lights: Vec<usize>,
}

impl<P: Hittable, C> Scene<P, C> {
    #[verifier::type_invariant]
    pub closed spec fn inv(&self) -> bool {
        self.lights@ == lights_of(self.bvh.members())
    }

    /// What a ray sees that leaves the scene.
    pub closed spec fn backdrop(&self) -> C {
        self.background
    }

    /// The primitives of the scene, in the order in which they were given.
    pub closed spec fn members(&self) -> Seq<P> {
        self.bvh.members()
    }

    /// The hierarchy over the primitives.
    pub closed spec fn index(&self) -> BVHNode<P> {
        self.bvh
    }

    /// The positions of the lights among the primitives.
    pub closed spec fn emitters(&self) -> Seq<usize> {
        self.lights@
    }

    /// Assembles a scene from its primitives, of which there must be at
    /// least one.
    pub fn from_objects(background: C, objects: Vec<P>) -> (scene: Scene<P, C>)
        requires
            objects@.len() > 0,
        ensures
            scene.backdrop() == background,
            scene.members() == objects@,
            scene.emitters() == lights_of(objects@),
            scene.index().members() == objects@,
            scene.index().tree() == built(bounds_of(objects@), positions(objects@.len()), 0),
            scene.index().tree().wf(bounds_of(objects@)),
            scene.index().inv(),
    {
        let mut lights: Vec<usize> = Vec::new();
        let mut i: usize = 0;
        while i < objects.len()
            invariant
                i <= objects@.len(),
                lights@ == lights_of(objects@.take(i as int)),
            decreases objects@.len() - i,
        {
            proof {
                let upto = objects@.take(i + 1);
                assert(upto.drop_last() == objects@.take(i as int));
                assert(upto.last() == objects@[i as int]);
            }
            if objects[i].is_light() {
                lights.push(i);
            }
            i = i + 1;
        }
        proof {
            assert(objects@.take(i as int) == objects@);
        }
        let bvh = BVHNode::from_hittables(objects);
        Scene { background, bvh, lights }
    }

    /// The nearest hit of `ray` between `start` and `end`, found through
    /// the hierarchy.
    pub fn hit(&self, ray: &P::Ray, start: i64, end: i64) -> (h: Option<Hit<P::Detail>>)
        ensures
            h == self.index().crossing(ray, start, end),
    {
        self.bvh.hit(ray, start, end)
    }

    /// What a ray sees that leaves the scene.
    pub fn background(&self) -> (c: &C)
        ensures
            *c == self.backdrop(),
    {
        &self.background
    }

    /// The primitives of the scene.
    pub fn objects(&self) -> (objects: &Vec<P>)
        ensures
            objects@ == self.members(),
    {
        self.bvh.objects()
    }

    /// The positions of the lights among the primitives.
    pub fn lights(&self) -> (lights: &Vec<usize>)
        ensures
            lights@ == self.emitters(),
            lights@ == lights_of(self.members()),
    {
        proof {
            use_type_invariant(self);
        }
        &self.lights
    }

    /// Whether the scene has any light.
    pub fn has_lights(&self) -> (b: bool)
        ensures
            b == (self.emitters().len() > 0),
    {
        self.lights.len() > 0
    }

    /// Draws one of the lights, each with the same chance: nothing in a
    /// scene without lights, else the position of a primitive that gives
    /// off light.
    pub fn random_light(&self) -> (chosen: Option<usize>)
        ensures
            chosen is None <==> self.emitters().len() == 0,
            chosen matches Some(i) ==> self.emitters().contains(i) && i < self.members().len()
                && self.members()[i as int].emits(),
    {
        proof {
            use_type_invariant(self);
            use_type_invariant(&self.bvh);
        }
        let chosen = match choose_one(&self.lights) {
            Some(i) => Some(*i),
            None => None,
        };
        let count = self.bvh.objects().len();
        proof {
            assert(count == self.bvh.members().len());
            lemma_lights_are_the_emitters(self.bvh.members());
            if let Some(i) = chosen {
                let k = choose|k: int| 0 <= k < self.lights@.len() && self.lights@[k] == i;
                assert(lights_of(self.bvh.members())[k] == i);
            }
        }
        chosen
    }
}

} // verus!
