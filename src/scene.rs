//! Scenes: an ordered list of shapes, each with its material.

use vstd::prelude::*;
use crate::hittable::{
    HitRecord, Shape, shape_hit, lemma_shape_hit_narrowed, lemma_shape_hit_widened,
};
use crate::material::Material;
use crate::ray::Ray;

verus! {

/// A shape and the material it is made of.
#[derive(Clone, Copy, Debug, PartialEq, Eq, Structural)]
pub struct Object {
    pub shape: Shape,
    pub material: Material,
}

/// The upper bound a search in `(t_min, t_max]` narrows to once `found` is in
/// hand.
pub open spec fn narrowed(found: Option<(HitRecord, Material)>, t_max: i64) -> i64 {
    match found {
        Some((h, _)) => h.t,
        None => t_max,
    }
}

/// The nearest hit of `r` among `objs` in `(t_min, t_max]`: one pass in order,
/// each object searched up to the nearest hit found before it; a later object
/// replaces the hit only with one of its own.
pub open spec fn scene_hit(objs: Seq<Object>, r: Ray, t_min: i64, t_max: i64) -> Option<
    (HitRecord, Material),
>
    decreases objs.len(),
{
    if objs.len() == 0 {
        None
    } else {
        let prev = scene_hit(objs.drop_last(), r, t_min, t_max);
        let last = objs.last();
        match shape_hit(last.shape, r, t_min, narrowed(prev, t_max)) {
            Some(h) => Some((h, last.material)),
            None => prev,
        }
    }
}

impl Object {
    /// The object of the given shape and material.
    pub fn new(shape: Shape, material: Material) -> (o: Object)
        ensures
            o == (Object { shape, material }),
    {
        Object { shape, material }
    }

    /// The shape.
    pub fn shape(&self) -> (r: &Shape)
        ensures
            *r == self.shape,
    {
        &self.shape
    }

    /// The material.
    pub fn material(&self) -> (r: &Material)
        ensures
            *r == self.material,
    {
        &self.material
    }
}

/// The objects to render, in the order they were added.
pub struct Scene {
    objects: Vec<Object>,
}

impl Scene {
    /// The objects, in order.
    pub closed spec fn objects(&self) -> Seq<Object> {
        self.objects@
    }

    /// The empty scene.
    pub fn new() -> (s: Scene)
        ensures
            s.objects() == Seq::<Object>::empty(),
    {
        Scene { objects: Vec::new() }
    }

    /// Appends an object of the given shape and material.
    pub fn add(&mut self, shape: Shape, material: Material)
        ensures
            final(self).objects() == old(self).objects().push(Object { shape, material }),
    {
        self.objects.push(Object::new(shape, material));
    }

    /// Removes every object.
    pub fn clear(&mut self)
        ensures
            final(self).objects() == Seq::<Object>::empty(),
    {
        self.objects.clear();
    }

    /// The number of objects.
    pub fn len(&self) -> (n: usize)
        ensures
            n == self.objects().len(),
    {
        self.objects.len()
    }

    /// The nearest hit of `r` in `(t_min, t_max]`, with the material of the
    /// object hit.
    pub fn hit(&self, r: &Ray, t_min: i64, t_max: i64) -> (res: Option<(HitRecord, Material)>)
        ensures
            res == scene_hit(self.objects(), *r, t_min, t_max),
    {
        let mut result: Option<(HitRecord, Material)> = None;
        let mut closest_so_far = t_max;
        let mut i: usize = 0;
        while i < self.objects.len()
            invariant
                0 <= i <= self.objects@.len(),
                result == scene_hit(self.objects@.take(i as int), *r, t_min, t_max),
                closest_so_far == narrowed(result, t_max),
            decreases self.objects@.len() - i,
        {
            let object = &self.objects[i];
            proof {
                assert(self.objects@.take(i + 1).drop_last() == self.objects@.take(i as int));
                assert(self.objects@.take(i + 1).last() == self.objects@[i as int]);
            }
            if let Some(rec) = object.shape().hit(r, t_min, closest_so_far) {
                closest_so_far = rec.t();
                result = Some((rec, *object.material()));
            }
            i = i + 1;
        }
        assert(self.objects@.take(i as int) == self.objects@);
        result
    }
}

impl Default for Scene {
    fn default() -> (s: Scene)
        ensures
            s.objects() == Seq::<Object>::empty(),
    {
        Scene::new()
    }
}

#[verifier::rlimit(50)]
/// The scene's search finds the nearest hit: when it reports one, some
/// object reports that same hit over all of `(t_min, t_max]` and no object
/// reports a nearer one; when it reports none, no object is hit.
pub proof fn lemma_scene_hit_nearest(objs: Seq<Object>, r: Ray, t_min: i64, t_max: i64)
    ensures
        scene_hit(objs, r, t_min, t_max) matches Some((h, m)) ==> {
            &&& t_min < h.t <= t_max
            &&& exists|i: int|
                0 <= i < objs.len() && #[trigger] shape_hit(objs[i].shape, r, t_min, t_max) == Some(h)
                    && objs[i].material == m
            &&& forall|j: int|
                0 <= j < objs.len() && (#[trigger] shape_hit(objs[j].shape, r, t_min, t_max)) is Some
                    ==> h.t <= shape_hit(objs[j].shape, r, t_min, t_max)->Some_0.t
        },
        scene_hit(objs, r, t_min, t_max) is None ==> forall|j: int|
            0 <= j < objs.len() ==> (#[trigger] shape_hit(objs[j].shape, r, t_min, t_max)) is None,
    decreases objs.len(),
{
    if objs.len() > 0 {
        let init = objs.drop_last();
        let last = objs.last();
        let n = objs.len() - 1;
        lemma_scene_hit_nearest(init, r, t_min, t_max);
        let prev = scene_hit(init, r, t_min, t_max);
        let bound = narrowed(prev, t_max);
        assert(bound <= t_max);
        assert(forall|j: int| 0 <= j < n ==> objs[j] == init[j]);
        match shape_hit(last.shape, r, t_min, bound) {
            Some(h) => {
                lemma_shape_hit_widened(last.shape, r, t_min, t_max, bound);
                assert(shape_hit(objs[n].shape, r, t_min, t_max) == Some(h));
                assert forall|j: int|
                    0 <= j < objs.len() && (#[trigger] shape_hit(objs[j].shape, r, t_min, t_max)) is Some
                    implies h.t <= shape_hit(objs[j].shape, r, t_min, t_max)->Some_0.t by {
                    if j < n {
                        assert(shape_hit(init[j].shape, r, t_min, t_max) is Some);
                    }
                }
            },
            None => {
                let wide = shape_hit(last.shape, r, t_min, t_max);
                if wide is Some && wide->Some_0.t <= bound {
                    lemma_shape_hit_narrowed(last.shape, r, t_min, t_max, bound);
                }
                match prev {
                    Some((h, m)) => {
                        let i = choose|i: int|
                            0 <= i < init.len() && #[trigger] shape_hit(init[i].shape, r, t_min, t_max) == Some(h)
                                && init[i].material == m;
                        assert(objs[i] == init[i]);
                        assert forall|j: int|
                            0 <= j < objs.len() && (#[trigger] shape_hit(objs[j].shape, r, t_min, t_max)) is Some
                            implies h.t <= shape_hit(objs[j].shape, r, t_min, t_max)->Some_0.t by {
                            if j < n {
                                assert(shape_hit(init[j].shape, r, t_min, t_max) is Some);
                            }
                        }
                    },
                    None => {
                        assert forall|j: int| 0 <= j < objs.len()
                            implies (#[trigger] shape_hit(objs[j].shape, r, t_min, t_max)) is None by {
                            if j < n {
                                assert(shape_hit(init[j].shape, r, t_min, t_max) is None);
                            }
                        }
                    },
                }
            },
        }
    }
}

} // verus!
