//! The scene aggregate: a list of spheres, reduced to the closest valid
//! hit across all members.

use vstd::prelude::*;

verus! {

use crate::vec3::{in_range, near_zero_s, lemma_some_square_pos};
use crate::ray::Ray;
use crate::hittable::{HitRecord, COORD_MAX};
use crate::sphere::{
    Sphere, wf_sphere, sph_a, sphere_hit_t, is_sphere_record, lemma_sphere_hit_window,
};
use crate::rtweekend::INFINITY;

/// The smaller of two optional parameters (`None` counts as farther than
/// everything).
pub open spec fn opt_min(x: Option<int>, y: Option<int>) -> Option<int> {
    match x {
        Option::None => y,
        Option::Some(xv) => match y {
            Option::None => x,
            Option::Some(yv) => if xv <= yv {
                x
            } else {
                y
            },
        },
    }
}

/// The closest hit parameter over a sequence of spheres: the minimum of
/// the members' own hit parameters inside the window.
pub open spec fn scene_hit_t(objs: Seq<Sphere>, r: Ray, t_min: int, t_max: int) -> Option<int>
    decreases objs.len(),
{
    if objs.len() == 0 {
        Option::None
    } else {
        opt_min(
            scene_hit_t(objs.drop_last(), r, t_min, t_max),
            sphere_hit_t(objs.last(), r, t_min, t_max),
        )
    }
}

/// All members of the list are well-formed spheres.
pub open spec fn wf_list(l: HittableList) -> bool {
    forall|i: int| 0 <= i < l.objects@.len() ==> wf_sphere(#[trigger] l.objects@[i])
}

/// The scene parameter is the global minimum: some member reports it, no
/// member reports anything smaller, and it is absent only when every
/// member reports nothing.
pub proof fn lemma_scene_hit_minimal(objs: Seq<Sphere>, r: Ray, t_min: int, t_max: int)
    ensures
        scene_hit_t(objs, r, t_min, t_max) matches Option::Some(t) ==> (exists|i: int|
            0 <= i < objs.len() && #[trigger] sphere_hit_t(objs[i], r, t_min, t_max)
                == Option::Some(t)) && (forall|i: int|
            0 <= i < objs.len() ==> (#[trigger] sphere_hit_t(objs[i], r, t_min, t_max) matches
            Option::Some(ti) ==> t <= ti)),
        scene_hit_t(objs, r, t_min, t_max).is_none() ==> forall|i: int|
            0 <= i < objs.len() ==> (#[trigger] sphere_hit_t(objs[i], r, t_min, t_max)).is_none(),
    decreases objs.len(),
{
    if objs.len() > 0 {
        lemma_scene_hit_minimal(objs.drop_last(), r, t_min, t_max);
        assert(objs.last() == objs[objs.len() - 1]);
        assert(forall|i: int| 0 <= i < objs.len() - 1 ==> objs.drop_last()[i] == objs[i]);
    }
}

/// Appending one sphere reduces to taking the minimum with its own hit.
pub proof fn lemma_scene_hit_push(objs: Seq<Sphere>, s: Sphere, r: Ray, t_min: int, t_max: int)
    ensures
        scene_hit_t(objs.push(s), r, t_min, t_max) == opt_min(
            scene_hit_t(objs, r, t_min, t_max),
            sphere_hit_t(s, r, t_min, t_max),
        ),
{
    assert(objs.push(s).drop_last() =~= objs);
    assert(objs.push(s).last() == s);
}

/// Adding a sphere that hits no closer than the scene's current closest
/// hit never changes the result.
pub proof fn lemma_add_farther(objs: Seq<Sphere>, s: Sphere, r: Ray, t_min: int, t_max: int)
    requires
        scene_hit_t(objs, r, t_min, t_max) matches Option::Some(t),
        sphere_hit_t(s, r, t_min, t_max).is_none() || sphere_hit_t(s, r, t_min, t_max)->Some_0
            >= scene_hit_t(objs, r, t_min, t_max)->Some_0,
    ensures
        scene_hit_t(objs.push(s), r, t_min, t_max) == scene_hit_t(objs, r, t_min, t_max),
{
    lemma_scene_hit_push(objs, s, r, t_min, t_max);
}

/// Adding a sphere that hits strictly closer than the scene's current
/// closest hit always takes over the result.
pub proof fn lemma_add_closer(objs: Seq<Sphere>, s: Sphere, r: Ray, t_min: int, t_max: int)
    requires
        sphere_hit_t(s, r, t_min, t_max) matches Option::Some(ts),
        scene_hit_t(objs, r, t_min, t_max).is_none() || scene_hit_t(objs, r, t_min, t_max)->Some_0
            > sphere_hit_t(s, r, t_min, t_max)->Some_0,
    ensures
        scene_hit_t(objs.push(s), r, t_min, t_max) == sphere_hit_t(s, r, t_min, t_max),
{
    lemma_scene_hit_push(objs, s, r, t_min, t_max);
}

/// An ordered collection of spheres.
pub struct HittableList {
    pub objects: Vec<Sphere>,
}

impl HittableList {
    pub fn new() -> (r: Self)
        ensures
            r.objects@.len() == 0,
    {
        HittableList { objects: Vec::new() }
    }

    /// Remove every member.
    pub fn clear(&mut self)
        ensures
            final(self).objects@.len() == 0,
    {
        self.objects.clear();
    }

    /// Append one sphere to the scene.
    pub fn add(&mut self, object: Sphere)
        ensures
            final(self).objects@ == old(self).objects@.push(object),
    {
        self.objects.push(object);
    }

    /// The closest hit across all members with parameter strictly inside
    /// `(t_min, t_max)`: its parameter is the minimum of the members' own
    /// hit parameters, and its record comes from a member reporting that
    /// parameter.
    pub fn hit(&self, r: &Ray, t_min: i128, t_max: i128) -> (res: Option<HitRecord>)
        requires
            wf_list(*self),
            in_range(r.orig@, COORD_MAX as int),
            in_range(r.dir@, COORD_MAX as int),
            !near_zero_s(r.dir@),
            -INFINITY <= t_min <= INFINITY,
            -INFINITY <= t_max <= INFINITY,
        ensures
            res.is_some() == scene_hit_t(self.objects@, *r, t_min as int, t_max as int).is_some(),
            res matches Some(rec) ==> {
                &&& scene_hit_t(self.objects@, *r, t_min as int, t_max as int) == Option::Some(
                    rec.t as int,
                )
                &&& t_min < rec.t < t_max
                &&& exists|j: int|
                    0 <= j < self.objects@.len() && #[trigger] sphere_hit_t(
                        self.objects@[j],
                        *r,
                        t_min as int,
                        t_max as int,
                    ) == Option::Some(rec.t as int) && is_sphere_record(self.objects@[j], *r, rec)
            },
    {
        let n: usize = self.objects.len();
        let mut i: usize = 0;
        let mut best: Option<HitRecord> = None;
        let mut closest: i128 = t_max;
        proof {
            lemma_some_square_pos(r.dir@);
        }
        while i < n
            invariant
                i <= n,
                n == self.objects@.len(),
                wf_list(*self),
                in_range(r.orig@, COORD_MAX as int),
                in_range(r.dir@, COORD_MAX as int),
                !near_zero_s(r.dir@),
                sph_a(*r) >= 1,
                -INFINITY <= t_min <= INFINITY,
                -INFINITY <= t_max <= INFINITY,
                match best {
                    Option::None => closest == t_max && scene_hit_t(
                        self.objects@.take(i as int),
                        *r,
                        t_min as int,
                        t_max as int,
                    ).is_none(),
                    Option::Some(rec) => {
                        &&& closest == rec.t
                        &&& t_min < rec.t < t_max
                        &&& scene_hit_t(self.objects@.take(i as int), *r, t_min as int, t_max as int)
                            == Option::Some(rec.t as int)
                        &&& exists|j: int|
                            0 <= j < i && #[trigger] sphere_hit_t(
                                self.objects@[j],
                                *r,
                                t_min as int,
                                t_max as int,
                            ) == Option::Some(rec.t as int) && is_sphere_record(
                                self.objects@[j],
                                *r,
                                rec,
                            )
                    },
                },
            decreases n - i,
        {
            let obj: &Sphere = &self.objects[i];
            let sub_res: Option<HitRecord> = obj.hit(r, t_min, closest);
            proof {
                lemma_sphere_hit_window(
                    self.objects@[i as int],
                    *r,
                    t_min as int,
                    closest as int,
                    t_max as int,
                );
                assert(self.objects@.take(i as int + 1).drop_last() =~= self.objects@.take(
                    i as int,
                ));
                assert(self.objects@.take(i as int + 1).last() == self.objects@[i as int]);
            }
            match sub_res {
                Some(rec) => {
                    proof {
                        assert(sphere_hit_t(self.objects@[i as int], *r, t_min as int, t_max as int)
                            == Option::Some(rec.t as int));
                    }
                    best = Some(rec);
                    closest = rec.t;
                },
                None => {
                },
            }
            i = i + 1;
        }
        proof {
            assert(self.objects@.take(n as int) =~= self.objects@);
        }
        best
    }
}

} // verus!
