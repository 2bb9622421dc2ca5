//! A scene: the things that a ray may hit, in the order in which they were
//! added.

use vstd::prelude::*;
use crate::hittable::{no_farther, HitRecord, Hittable};
use crate::ray::Ray;
use crate::number::scalar::Scalar;

verus! {

/// A scene of things of one kind.
pub struct World<H: Hittable> {
    pub entities: Vec<H>,
}

/// What is left of the search for the nearest hit when the things in
/// `entities` are still to be asked: each is asked for a hit from `t_min` to
/// the parameter `closest` of the nearest hit so far, and a hit that it
/// reports takes the place of `best`.
pub open spec fn scan<H: Hittable>(
    entities: Seq<H>,
    ray: Ray,
    t_min: Scalar,
    closest: Scalar,
    best: Option<HitRecord>,
) -> Option<HitRecord>
    decreases entities.len(),
{
    if entities.len() == 0 {
        best
    } else {
        match entities[0].hit_spec(ray, t_min, closest) {
            Some(rec) => scan(entities.drop_first(), ray, t_min, rec.t, Some(rec)),
            None => scan(entities.drop_first(), ray, t_min, closest, best),
        }
    }
}

/// The search reports a hit between `t_min` and `t_max` where the hit so far
/// lies between them and `closest` is the parameter of the hit so far, or
/// `t_max` where there is none.
pub proof fn lemma_scan_in_range<H: Hittable>(
    entities: Seq<H>,
    ray: Ray,
    t_min: Scalar,
    t_max: Scalar,
    closest: Scalar,
    best: Option<HitRecord>,
)
    requires
        match best {
            Some(b) => closest == b.t && t_min@.le(b.t@) && b.t@.le(t_max@),
            None => closest == t_max,
        },
    ensures
        scan(entities, ray, t_min, closest, best) matches Some(rec) ==> t_min@.le(rec.t@)
            && rec.t@.le(t_max@),
    decreases entities.len(),
{
    if entities.len() > 0 {
        entities[0].lemma_hit_in_range(ray, t_min, closest);
        match entities[0].hit_spec(ray, t_min, closest) {
            Some(rec) => {
                lemma_scan_in_range(entities.drop_first(), ray, t_min, t_max, rec.t, Some(rec));
            },
            None => {
                lemma_scan_in_range(entities.drop_first(), ray, t_min, t_max, closest, best);
            },
        }
    }
}

/// The search that starts with no hit finds none if and only if none of the
/// things reports a hit between `t_min` and `t_max`.
pub proof fn lemma_scan_misses<H: Hittable>(entities: Seq<H>, ray: Ray, t_min: Scalar, t_max: Scalar)
    ensures
        scan(entities, ray, t_min, t_max, None) is None <==> forall|i: int|
            0 <= i < entities.len() ==> (#[trigger] entities[i]).hit_spec(ray, t_min, t_max) is None,
    decreases entities.len(),
{
    if entities.len() > 0 {
        let rest = entities.drop_first();
        match entities[0].hit_spec(ray, t_min, t_max) {
            Some(rec) => {
                lemma_scan_keeps(rest, ray, t_min, rec.t, rec);
            },
            None => {
                lemma_scan_misses(rest, ray, t_min, t_max);
                assert forall|i: int| 0 <= i < rest.len() implies rest[i] == entities[i + 1] by {}
                if scan(rest, ray, t_min, t_max, None) is None {
                    assert forall|i: int| 0 <= i < entities.len() implies (
                    #[trigger] entities[i]).hit_spec(ray, t_min, t_max) is None by {
                        if i > 0 {
                            assert(entities[i] == rest[i - 1]);
                        }
                    }
                } else {
                    let j = choose|j: int|
                        0 <= j < rest.len() && !((#[trigger] rest[j]).hit_spec(ray, t_min, t_max)
                            is None);
                    assert(entities[j + 1] == rest[j]);
                }
            },
        }
    }
}

/// Once there is a hit, the search ends with a hit.
pub proof fn lemma_scan_keeps<H: Hittable>(
    entities: Seq<H>,
    ray: Ray,
    t_min: Scalar,
    closest: Scalar,
    best: HitRecord,
)
    ensures
        scan(entities, ray, t_min, closest, Some(best)) is Some,
    decreases entities.len(),
{
    if entities.len() > 0 {
        match entities[0].hit_spec(ray, t_min, closest) {
            Some(rec) => lemma_scan_keeps(entities.drop_first(), ray, t_min, rec.t, rec),
            None => lemma_scan_keeps(entities.drop_first(), ray, t_min, closest, best),
        }
    }
}

impl<H: Hittable> View for World<H> {
    type V = Seq<H>;

    /// The things of the scene, in the order in which they were added.
    open spec fn view(&self) -> Seq<H> {
        self.entities@
    }
}

impl<H: Hittable> World<H> {
    /// The empty scene.
    pub fn new() -> (r: World<H>)
        ensures
            r@ == Seq::<H>::empty(),
    {
        World { entities: Vec::new() }
    }

    /// Adds a thing to the scene, behind those that are in it.
    pub fn add(&mut self, object: H)
        ensures
            final(self)@ == old(self)@.push(object),
    {
        self.entities.push(object);
    }

    /// Takes everything out of the scene.
    pub fn clear(&mut self)
        ensures
            final(self)@ == Seq::<H>::empty(),
    {
        self.entities.clear();
    }

    /// How many things are in the scene.
    pub fn len(&self) -> (r: usize)
        ensures
            r == self@.len(),
    {
        self.entities.len()
    }
}

impl<H: Hittable> Hittable for World<H> {
    /// The hit that the search through the scene ends with: the things are
    /// asked in their order, each for a hit no farther than the nearest so
    /// far.
    open spec fn hit_spec(&self, ray: Ray, t_min: Scalar, t_max: Scalar) -> Option<HitRecord> {
        scan(self@, ray, t_min, t_max, None)
    }

    fn hit(&self, ray: &Ray, t_min: Scalar, t_max: Scalar) -> (r: Option<HitRecord>) {
        let mut closest_so_far = t_max;
        let mut res: Option<HitRecord> = None;
        let mut i: usize = 0;
        assert(self@.skip(0) =~= self@);
        while i < self.entities.len()
            invariant
                i <= self.entities.len(),
                scan(self@, *ray, t_min, t_max, None) == scan(
                    self@.skip(i as int),
                    *ray,
                    t_min,
                    closest_so_far,
                    res,
                ),
            decreases self.entities.len() - i,
        {
            let ghost rest = self@.skip(i as int);
            assert(rest[0] == self@[i as int]);
            assert(rest.drop_first() == self@.skip(i + 1));
            if let Some(record) = self.entities[i].hit(ray, t_min, closest_so_far) {
                closest_so_far = record.t;
                res = Some(record);
            }
            i = i + 1;
        }
        assert(self@.skip(i as int).len() == 0);
        res
    }

    proof fn lemma_hit_in_range(&self, ray: Ray, t_min: Scalar, t_max: Scalar) {
        lemma_scan_in_range(self@, ray, t_min, t_max, t_max, None);
    }

    proof fn lemma_hit_shrinks(&self, ray: Ray, t_min: Scalar, t_max: Scalar, t_new: Scalar) {
        lemma_scan_shrinks(self@, ray, t_min, t_new, t_max, None, t_new, None);
    }
}

/// How the state of a search up to a lesser bound `t_new` stands to the state
/// of the search up to the greater: it has the same hit where that lies
/// below `t_new`, and none else.
pub open spec fn shrunk(
    t_min: Scalar,
    t_new: Scalar,
    closest: Scalar,
    best: Option<HitRecord>,
    closest_new: Scalar,
    best_new: Option<HitRecord>,
) -> bool {
    match best {
        Some(b) => closest == b.t && t_min@.le(b.t@) && if b.t@.le(t_new@) {
            best_new == best && closest_new == b.t
        } else {
            best_new is None && closest_new == t_new && t_new@.le(closest@)
        },
        None => best_new is None && closest_new == t_new && t_new@.le(closest@),
    }
}

/// The search up to a lesser bound ends with the hit of the search up to the
/// greater where that lies below the lesser bound, and with none else.
pub proof fn lemma_scan_shrinks<H: Hittable>(
    entities: Seq<H>,
    ray: Ray,
    t_min: Scalar,
    t_new: Scalar,
    closest: Scalar,
    best: Option<HitRecord>,
    closest_new: Scalar,
    best_new: Option<HitRecord>,
)
    requires
        shrunk(t_min, t_new, closest, best, closest_new, best_new),
    ensures
        scan(entities, ray, t_min, closest_new, best_new) == no_farther(
            scan(entities, ray, t_min, closest, best),
            t_new,
        ),
    decreases entities.len(),
{
    if entities.len() > 0 {
        let rest = entities.drop_first();
        let e = entities[0];
        e.lemma_hit_in_range(ray, t_min, closest);
        if closest_new == closest && best_new == best {
            match e.hit_spec(ray, t_min, closest) {
                Some(rec) => lemma_scan_shrinks(rest, ray, t_min, t_new, rec.t, Some(rec), rec.t, Some(rec)),
                None => lemma_scan_shrinks(rest, ray, t_min, t_new, closest, best, closest, best),
            }
        } else {
            e.lemma_hit_shrinks(ray, t_min, closest, t_new);
            match e.hit_spec(ray, t_min, closest) {
                Some(rec) => {
                    if rec.t@.le(t_new@) {
                        lemma_scan_shrinks(rest, ray, t_min, t_new, rec.t, Some(rec), rec.t, Some(rec));
                    } else {
                        lemma_scan_shrinks(rest, ray, t_min, t_new, rec.t, Some(rec), t_new, None);
                    }
                },
                None => {
                    lemma_scan_shrinks(rest, ray, t_min, t_new, closest, best, closest_new, best_new);
                },
            }
        }
    }
}

/// The search finds a hit that is no farther than the hit so far, and no
/// farther than the hit of any of the things between `t_min` and `t_max`.
pub proof fn lemma_scan_nearest<H: Hittable>(
    entities: Seq<H>,
    ray: Ray,
    t_min: Scalar,
    t_max: Scalar,
    closest: Scalar,
    best: Option<HitRecord>,
)
    requires
        match best {
            Some(b) => closest == b.t && t_min@.le(b.t@) && b.t@.le(t_max@),
            None => closest == t_max,
        },
    ensures
        best matches Some(b) ==> scan(entities, ray, t_min, closest, best) matches Some(x)
            && x.t@.le(b.t@),
        forall|i: int|
            0 <= i < entities.len() ==> ((#[trigger] entities[i]).hit_spec(ray, t_min, t_max)
                matches Some(h) ==> scan(entities, ray, t_min, closest, best) matches Some(x)
                && x.t@.le(h.t@)),
    decreases entities.len(),
{
    if entities.len() > 0 {
        let rest = entities.drop_first();
        let e = entities[0];
        e.lemma_hit_in_range(ray, t_min, closest);
        e.lemma_hit_in_range(ray, t_min, t_max);
        if e.hit_spec(ray, t_min, t_max) is Some {
            e.lemma_hit_shrinks(ray, t_min, t_max, closest);
        }
        let (c2, b2) = match e.hit_spec(ray, t_min, closest) {
            Some(rec) => (rec.t, Some(rec)),
            None => (closest, best),
        };
        lemma_scan_nearest(rest, ray, t_min, t_max, c2, b2);
        assert forall|i: int| 0 <= i < entities.len() implies ((#[trigger] entities[i]).hit_spec(
            ray,
            t_min,
            t_max,
        ) matches Some(h) ==> scan(entities, ray, t_min, closest, best) matches Some(x) && x.t@.le(
            h.t@,
        )) by {
            if i > 0 {
                assert(entities[i] == rest[i - 1]);
            }
        }
    }
}

/// The hit that the search ends with is the hit so far or the hit of one of
/// the things between `t_min` and `t_max`.
pub proof fn lemma_scan_member<H: Hittable>(
    entities: Seq<H>,
    ray: Ray,
    t_min: Scalar,
    t_max: Scalar,
    closest: Scalar,
    best: Option<HitRecord>,
)
    requires
        match best {
            Some(b) => closest == b.t && t_min@.le(b.t@) && b.t@.le(t_max@),
            None => closest == t_max,
        },
    ensures
        scan(entities, ray, t_min, closest, best) == best || exists|i: int|
            0 <= i < entities.len() && scan(entities, ray, t_min, closest, best) == (
            #[trigger] entities[i]).hit_spec(ray, t_min, t_max),
    decreases entities.len(),
{
    if entities.len() > 0 {
        let rest = entities.drop_first();
        let e = entities[0];
        e.lemma_hit_in_range(ray, t_min, closest);
        let r = scan(entities, ray, t_min, closest, best);
        match e.hit_spec(ray, t_min, closest) {
            Some(rec) => {
                // the bound is a number, so that the hit is that of the whole interval
                if best is None {
                    assert(e.hit_spec(ray, t_min, t_max) == Some(rec));
                } else {
                    e.lemma_hit_shrinks(ray, t_min, t_max, closest);
                    e.lemma_hit_in_range(ray, t_min, t_max);
                    lemma_shrunk_hit(e, ray, t_min, t_max, closest, rec);
                }
                lemma_scan_member(rest, ray, t_min, t_max, rec.t, Some(rec));
                if r == Some(rec) {
                    assert(r == entities[0].hit_spec(ray, t_min, t_max));
                } else {
                    let i = choose|i: int|
                        0 <= i < rest.len() && r == (#[trigger] rest[i]).hit_spec(ray, t_min, t_max);
                    assert(entities[i + 1] == rest[i]);
                }
            },
            None => {
                lemma_scan_member(rest, ray, t_min, t_max, closest, best);
                if r != best {
                    let i = choose|i: int|
                        0 <= i < rest.len() && r == (#[trigger] rest[i]).hit_spec(ray, t_min, t_max);
                    assert(entities[i + 1] == rest[i]);
                }
            },
        }
    }
}

/// A hit up to a lesser bound is the hit of the whole interval.
proof fn lemma_shrunk_hit<H: Hittable>(
    e: H,
    ray: Ray,
    t_min: Scalar,
    t_max: Scalar,
    closest: Scalar,
    rec: HitRecord,
)
    requires
        closest@.le(t_max@),
        e.hit_spec(ray, t_min, closest) == Some(rec),
    ensures
        e.hit_spec(ray, t_min, t_max) == Some(rec),
{
    e.lemma_hit_shrinks(ray, t_min, t_max, closest);
}

impl<H: Hittable> World<H> {
    /// The scene is hit if and only if one of its things is. The hit of the
    /// scene is then the hit of one of them, and none of them has a hit that
    /// is nearer.
    pub proof fn lemma_hit_nearest(&self, ray: Ray, t_min: Scalar, t_max: Scalar)
        ensures
            self.hit_spec(ray, t_min, t_max) is None <==> forall|i: int|
                0 <= i < self@.len() ==> (#[trigger] self@[i]).hit_spec(ray, t_min, t_max) is None,
            self.hit_spec(ray, t_min, t_max) is Some ==> exists|i: int|
                0 <= i < self@.len() && self.hit_spec(ray, t_min, t_max) == (
                #[trigger] self@[i]).hit_spec(ray, t_min, t_max),
            forall|i: int|
                0 <= i < self@.len() ==> ((#[trigger] self@[i]).hit_spec(ray, t_min, t_max)
                    matches Some(h) ==> self.hit_spec(ray, t_min, t_max) matches Some(x)
                    && x.t@.le(h.t@)),
    {
        lemma_scan_misses(self@, ray, t_min, t_max);
        lemma_scan_member(self@, ray, t_min, t_max, t_max, None);
        lemma_scan_nearest(self@, ray, t_min, t_max, t_max, None);
    }
}

} // verus!
