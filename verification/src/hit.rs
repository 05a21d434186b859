//! The hittable abstraction: what a geometric primitive promises about the
//! intersections it reports, and the scene aggregate that returns the
//! nearest intersection among its members.

use vstd::prelude::*;

verus! {

use crate::interval::INFINITY_T;
use crate::interval::Interval;
use crate::fixed::SCALE;
use crate::material::Material;
use crate::ray::Ray;
use crate::vec3::COORD_LIMIT;
use crate::vec3::Vec3;
use crate::vec3::WORLD_LIMIT;
use crate::vec3::spec_dot;
use crate::vec3::spec_len2;
use crate::vec3::spec_neg;

/// Everything recorded about one ray-surface intersection.
#[derive(Clone, Copy, Debug, PartialEq, Eq, Structural)]
pub struct HitRecord {
    pub p: Vec3,
    pub normal: Vec3,
    pub mat: Material,
    pub t: i64,
    pub front_face: bool,
}

impl HitRecord {
    /// A record fit for shading: the point within the world bound, a
    /// nonzero normal of at most a couple of units, a well-formed material,
    /// and a representable parameter.
    pub open spec fn wf(self) -> bool {
        self.p.bounded(WORLD_LIMIT as int) && self.normal.bounded(2 * SCALE as int) && spec_len2(
            self.normal,
        ) >= 1 && self.mat.wf() && -INFINITY_T <= self.t <= INFINITY_T
    }

    /// Record construction: the stored normal faces against the incoming
    /// ray, and `front_face` remembers whether the outward normal already
    /// did.
    pub open spec fn make(ray: Ray, p: Vec3, outward: Vec3, t: int, mat: Material) -> HitRecord {
        let ff = spec_dot(ray.direction, outward) < 0;
        HitRecord {
            p,
            normal: if ff {
                outward
            } else {
                spec_neg(outward)
            },
            mat,
            t: t as i64,
            front_face: ff,
        }
    }

    pub fn new(ray: &Ray, p: Vec3, normal: Vec3, t: i64, mat: Material) -> (r: HitRecord)
        requires
            ray.direction.bounded(COORD_LIMIT as int),
            normal.bounded(COORD_LIMIT as int),
        ensures
            r == HitRecord::make(*ray, p, normal, t as int, mat),
    {
        let front_face = ray.direction().dot(&normal) < 0;
        let mut normal = normal;
        if !front_face {
            normal = normal.neg();
        }
        HitRecord { p, normal, mat, t, front_face }
    }
}

/// Anything a ray can intersect.  Beyond the executable `hit`, an
/// implementation supplies its mathematical hit function and three facts
/// about it that the scene aggregation rests on.
pub trait Hittable: Sized {
    /// Geometry well-formedness needed for tracing.
    spec fn wf(&self) -> bool;

    /// The mathematical result of `hit`.
    spec fn spec_hit(&self, ray: Ray, ray_t: Interval) -> Option<HitRecord>;

    /// A reported hit is well formed and lies strictly inside the window.
    proof fn lemma_hit_props(&self, ray: Ray, ray_t: Interval)
        requires
            self.wf(),
            ray.wf(),
            ray_t.wf(),
        ensures
            match self.spec_hit(ray, ray_t) {
                Option::Some(h) => h.wf() && ray_t.min < h.t < ray_t.max,
                Option::None => true,
            },
    ;

    /// Raising the upper end of the window above a reported hit does not
    /// change the report.
    proof fn lemma_hit_widen(&self, ray: Ray, t1: Interval, t2: Interval)
        requires
            self.wf(),
            ray.wf(),
            t1.wf(),
            t2.wf(),
            t1.min == t2.min,
            t1.max <= t2.max,
            self.spec_hit(ray, t1) is Some,
        ensures
            self.spec_hit(ray, t2) == self.spec_hit(ray, t1),
    ;

    /// Lowering the upper end of the window keeps a report that stays
    /// inside it, and cannot create a report where there was none.
    proof fn lemma_hit_tighten(&self, ray: Ray, t1: Interval, t2: Interval)
        requires
            self.wf(),
            ray.wf(),
            t1.wf(),
            t2.wf(),
            t1.min == t2.min,
            t2.max <= t1.max,
        ensures
            match self.spec_hit(ray, t1) {
                Option::Some(h) => h.t < t2.max ==> self.spec_hit(ray, t2) == self.spec_hit(
                    ray,
                    t1,
                ),
                Option::None => self.spec_hit(ray, t2) is None,
            },
    ;

    /// The nearest intersection of the ray with this object strictly inside
    /// the window, if any.
    fn hit(&self, ray: &Ray, ray_t: &Interval) -> (r: Option<HitRecord>)
        requires
            self.wf(),
            ray.wf(),
            ray_t.wf(),
        ensures
            r == self.spec_hit(*ray, *ray_t),
    ;
}

/// An ordered collection of hittable primitives, itself hittable: it
/// reports the nearest intersection among its members.
pub struct HitList<T: Hittable> {
    pub objects: Vec<T>,
}

impl<T: Hittable> HitList<T> {
    pub fn new() -> (r: HitList<T>)
        ensures
            r.objects@.len() == 0,
    {
        HitList { objects: Vec::new() }
    }

    pub fn push(&mut self, object: T)
        ensures
            final (self).objects@ == old(self).objects@.push(object),
    {
        self.objects.push(object);
    }

    pub fn len(&self) -> (n: usize)
        ensures
            n == self.objects@.len(),
    {
        self.objects.len()
    }

    /// What scanning the first `n` members computes: the running best hit,
    /// each member queried with the window tightened to the best parameter
    /// so far.
    pub open spec fn spec_hit_upto(&self, ray: Ray, ray_t: Interval, n: int) -> Option<HitRecord>
        decreases n,
    {
        if n <= 0 {
            Option::<HitRecord>::None
        } else {
            let prev = self.spec_hit_upto(ray, ray_t, n - 1);
            let cur_max = match prev {
                Option::Some(h) => h.t,
                Option::None => ray_t.max,
            };
            let w = Interval { min: ray_t.min, max: cur_max };
            match self.objects@[n - 1].spec_hit(ray, w) {
                Option::Some(h) => Option::Some(h),
                Option::None => prev,
            }
        }
    }
}

/// The scan over the first `n` members finds the nearest member hit over
/// the whole window: a reported hit is some member's hit and no member
/// hits nearer; no report means no member hits at all.
proof fn lemma_upto_characterizes<T: Hittable>(
    list: &HitList<T>,
    ray: Ray,
    ray_t: Interval,
    n: int,
)
    requires
        list.wf(),
        ray.wf(),
        ray_t.wf(),
        0 <= n <= list.objects@.len(),
    ensures
        match list.spec_hit_upto(ray, ray_t, n) {
            Option::Some(h) => {
                &&& h.wf()
                &&& ray_t.min < h.t < ray_t.max
                &&& exists|i: int|
                    0 <= i < n && #[trigger] list.objects@[i].spec_hit(ray, ray_t)
                        == Option::Some(h)
                &&& forall|j: int|
                    0 <= j < n ==> match #[trigger] list.objects@[j].spec_hit(ray, ray_t) {
                        Option::Some(hj) => h.t <= hj.t,
                        Option::None => true,
                    }
            },
            Option::None => forall|j: int|
                0 <= j < n ==> (#[trigger] list.objects@[j].spec_hit(ray, ray_t)) is None,
        },
    decreases n,
{
    if n > 0 {
        lemma_upto_characterizes(list, ray, ray_t, n - 1);
        let prev = list.spec_hit_upto(ray, ray_t, n - 1);
        let m = list.objects@[n - 1];
        match prev {
            Option::None => {
                let w = Interval { min: ray_t.min, max: ray_t.max };
                assert(w == ray_t);
                m.lemma_hit_props(ray, ray_t);
            },
            Option::Some(hp) => {
                let w = Interval { min: ray_t.min, max: hp.t };
                assert(w.wf());
                m.lemma_hit_props(ray, w);
                match m.spec_hit(ray, w) {
                    Option::Some(h) => {
                        // The member's hit inside the tightened window is
                        // its hit over the whole window as well.
                        m.lemma_hit_widen(ray, w, ray_t);
                        assert(list.spec_hit_upto(ray, ray_t, n) == Option::Some(h));
                        assert(m.spec_hit(ray, ray_t) == Option::Some(h));
                    },
                    Option::None => {
                        // The member has no hit nearer than the running
                        // best: one would have survived the tightening.
                        m.lemma_hit_tighten(ray, ray_t, w);
                        assert(match m.spec_hit(ray, ray_t) {
                            Option::Some(hm) => hp.t <= hm.t,
                            Option::None => true,
                        });
                    },
                }
            },
        }
    }
}

impl<T: Hittable> Hittable for HitList<T> {
    /// Every member is well formed.
    open spec fn wf(&self) -> bool {
        forall|j: int| 0 <= j < self.objects@.len() ==> (#[trigger] self.objects@[j]).wf()
    }

    open spec fn spec_hit(&self, ray: Ray, ray_t: Interval) -> Option<HitRecord> {
        self.spec_hit_upto(ray, ray_t, self.objects@.len() as int)
    }

    proof fn lemma_hit_props(&self, ray: Ray, ray_t: Interval) {
        lemma_upto_characterizes(self, ray, ray_t, self.objects@.len() as int);
    }

    proof fn lemma_hit_widen(&self, ray: Ray, t1: Interval, t2: Interval) {
        lemma_upto_widen(self, ray, t1, t2, self.objects@.len() as int);
    }

    proof fn lemma_hit_tighten(&self, ray: Ray, t1: Interval, t2: Interval) {
        lemma_upto_tighten(self, ray, t1, t2, self.objects@.len() as int);
    }

    /// Linear scan, shrinking the window's upper end to the best parameter
    /// found so far.
    fn hit(&self, ray: &Ray, ray_t: &Interval) -> (r: Option<HitRecord>) {
        let mut closest: i64 = ray_t.max;
        let mut record: Option<HitRecord> = None;
        let mut i: usize = 0;
        let n = self.objects.len();
        while i < n
            invariant
                self.wf(),
                ray.wf(),
                ray_t.wf(),
                n == self.objects@.len(),
                0 <= i <= n,
                record == self.spec_hit_upto(*ray, *ray_t, i as int),
                match record {
                    Option::Some(h) => closest == h.t && ray_t.min < h.t < ray_t.max,
                    Option::None => closest == ray_t.max,
                },
            decreases n - i,
        {
            let w = Interval::new(ray_t.min, closest);
            let res = self.objects[i].hit(ray, &w);
            proof {
                self.objects@[i as int].lemma_hit_props(*ray, w);
            }
            match res {
                Option::Some(h) => {
                    closest = h.t;
                    record = Some(h);
                },
                Option::None => {},
            }
            i = i + 1;
        }
        record
    }
}

proof fn lemma_upto_widen<T: Hittable>(
    list: &HitList<T>,
    ray: Ray,
    t1: Interval,
    t2: Interval,
    n: int,
)
    requires
        list.wf(),
        ray.wf(),
        t1.wf(),
        t2.wf(),
        t1.min == t2.min,
        t1.max <= t2.max,
        0 <= n <= list.objects@.len(),
        list.spec_hit_upto(ray, t1, n) is Some,
    ensures
        list.spec_hit_upto(ray, t2, n) == list.spec_hit_upto(ray, t1, n),
    decreases n,
{
    if n > 0 {
        let prev1 = list.spec_hit_upto(ray, t1, n - 1);
        let prev2 = list.spec_hit_upto(ray, t2, n - 1);
        lemma_upto_characterizes(list, ray, t1, n - 1);
        lemma_upto_characterizes(list, ray, t2, n - 1);
        let m = list.objects@[n - 1];
        match prev1 {
            Option::Some(hp) => {
                lemma_upto_widen(list, ray, t1, t2, n - 1);
                assert(prev2 == prev1);
            },
            Option::None => {
                let w1 = Interval { min: t1.min, max: t1.max };
                assert(w1 == t1);
                // The scan result at step n is the member's own report.
                let r1 = m.spec_hit(ray, t1);
                assert(list.spec_hit_upto(ray, t1, n) == r1);
                assert(r1 is Some);
                match prev2 {
                    Option::None => {
                        let w2 = Interval { min: t2.min, max: t2.max };
                        assert(w2 == t2);
                        m.lemma_hit_widen(ray, t1, t2);
                    },
                    Option::Some(hq) => {
                        // A prefix hit in the wider window lies beyond the
                        // narrow window's end, else the narrow scan would
                        // have found it.
                        if hq.t < t1.max {
                            let i = choose|i: int|
                                0 <= i < n - 1 && #[trigger] list.objects@[i].spec_hit(ray, t2)
                                    == Option::Some(hq);
                            list.objects@[i].lemma_hit_tighten(ray, t2, t1);
                            assert(list.objects@[i].spec_hit(ray, t1) == Option::Some(hq));
                            assert(false);
                        }
                        let w2 = Interval { min: t2.min, max: hq.t };
                        assert(w2.wf());
                        m.lemma_hit_widen(ray, t1, w2);
                    },
                }
            },
        }
    }
}

proof fn lemma_upto_tighten<T: Hittable>(
    list: &HitList<T>,
    ray: Ray,
    t1: Interval,
    t2: Interval,
    n: int,
)
    requires
        list.wf(),
        ray.wf(),
        t1.wf(),
        t2.wf(),
        t1.min == t2.min,
        t2.max <= t1.max,
        0 <= n <= list.objects@.len(),
    ensures
        match list.spec_hit_upto(ray, t1, n) {
            Option::Some(h) => h.t < t2.max ==> list.spec_hit_upto(ray, t2, n)
                == list.spec_hit_upto(ray, t1, n),
            Option::None => list.spec_hit_upto(ray, t2, n) is None,
        },
    decreases n,
{
    if n > 0 {
        let prev1 = list.spec_hit_upto(ray, t1, n - 1);
        let prev2 = list.spec_hit_upto(ray, t2, n - 1);
        lemma_upto_characterizes(list, ray, t1, n - 1);
        lemma_upto_characterizes(list, ray, t2, n - 1);
        lemma_upto_tighten(list, ray, t1, t2, n - 1);
        let m = list.objects@[n - 1];
        match prev1 {
            Option::None => {
                assert(prev2 is None);
                let w1 = Interval { min: t1.min, max: t1.max };
                let w2 = Interval { min: t2.min, max: t2.max };
                assert(w1 == t1 && w2 == t2);
                m.lemma_hit_tighten(ray, t1, t2);
            },
            Option::Some(hp) => {
                if hp.t < t2.max {
                    assert(prev2 == prev1);
                    // Equal running bests give equal windows, so the final
                    // reports agree.
                } else {
                    // The wider prefix's best lies beyond the narrow
                    // window; the narrow prefix found nothing, else its
                    // hit would also stand in the wider window, nearer
                    // than that best.
                    match prev2 {
                        Option::Some(hq) => {
                            let i = choose|i: int|
                                0 <= i < n - 1 && #[trigger] list.objects@[i].spec_hit(ray, t2)
                                    == Option::Some(hq);
                            list.objects@[i].lemma_hit_widen(ray, t2, t1);
                            assert(list.objects@[i].spec_hit(ray, t1) == Option::Some(hq));
                            assert(hp.t <= hq.t);
                            assert(false);
                        },
                        Option::None => {},
                    }
                    let w1 = Interval { min: t1.min, max: hp.t };
                    let w2 = Interval { min: t2.min, max: t2.max };
                    assert(w2 == t2);
                    assert(w1.wf());
                    match list.spec_hit_upto(ray, t1, n) {
                        Option::Some(h1) => {
                            if h1.t < t2.max {
                                // h1 came from the last member inside w1.
                                assert(m.spec_hit(ray, w1) == Option::Some(h1) || h1 == hp);
                                assert(m.spec_hit(ray, w1) == Option::Some(h1));
                                m.lemma_hit_tighten(ray, w1, w2);
                            }
                        },
                        Option::None => {
                            assert(false);
                        },
                    }
                }
            },
        }
    }
}

/// Nearest-wins scene aggregation: a hit reported by the list is the hit of
/// one of its members over the same window, and no member's hit has a
/// smaller parameter; when the list reports no hit, no member hits.
pub proof fn lemma_nearest_hit<T: Hittable>(list: &HitList<T>, ray: Ray, ray_t: Interval)
    requires
        list.wf(),
        ray.wf(),
        ray_t.wf(),
    ensures
        match list.spec_hit(ray, ray_t) {
            Option::Some(h) => {
                &&& exists|i: int|
                    0 <= i < list.objects@.len() && #[trigger] list.objects@[i].spec_hit(
                        ray,
                        ray_t,
                    ) == Option::Some(h)
                &&& forall|j: int|
                    0 <= j < list.objects@.len() ==> match #[trigger] list.objects@[j].spec_hit(
                        ray,
                        ray_t,
                    ) {
                        Option::Some(hj) => h.t <= hj.t,
                        Option::None => true,
                    }
            },
            Option::None => forall|j: int|
                0 <= j < list.objects@.len() ==> (#[trigger] list.objects@[j].spec_hit(
                    ray,
                    ray_t,
                )) is None,
        },
{
    lemma_upto_characterizes(list, ray, ray_t, list.objects@.len() as int);
}

} // verus!
