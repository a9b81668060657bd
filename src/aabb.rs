use vstd::prelude::*;
use crate::arith::{lemma_le_trans, Frac};
use crate::vec3::{Ray, Vec3};

verus! {

/// An axis-aligned bounding box, given by its minimum and maximum corners.
#[derive(Clone, Copy, Debug, PartialEq, Eq, Structural)]
pub struct Aabb {
    pub min: Vec3,
    pub max: Vec3,
}

impl Aabb {
    /// Corners in range and `min <= max` on every axis.
    pub open spec fn wf(self) -> bool {
        &&& self.min.in_range()
        &&& self.max.in_range()
        &&& self.min.x <= self.max.x
        &&& self.min.y <= self.max.y
        &&& self.min.z <= self.max.z
    }

    /// The box holds coordinate `v` on axis `a`.
    pub open spec fn holds(self, a: int, v: int) -> bool {
        self.min.comp(a) <= v <= self.max.comp(a)
    }

    pub open spec fn contains(self, p: Vec3) -> bool {
        self.holds(0, p.x as int) && self.holds(1, p.y as int) && self.holds(2, p.z as int)
    }

    /// On axis `a`, the point of `ray` at `t` lies between the two planes.
    pub open spec fn holds_at(self, ray: Ray, a: int, t: Frac) -> bool {
        self.min.comp(a) * t.den <= ray.at_scaled(a, t) <= self.max.comp(a) * t.den
    }

    /// The point of `ray` at parameter `t` lies in the box.
    pub open spec fn contains_at(self, ray: Ray, t: Frac) -> bool {
        self.holds_at(ray, 0, t) && self.holds_at(ray, 1, t) && self.holds_at(ray, 2, t)
    }

    /// Some fraction in `[t_min, t_max]` puts the ray's point in the box.
    pub open spec fn meets(self, ray: Ray, t_min: Frac, t_max: Frac) -> bool {
        exists|t: Frac| t.wf() && t_min.le(t) && t.le(t_max) && #[trigger] self.contains_at(ray, t)
    }

    /// `self` lies inside `other`.
    pub open spec fn inside(self, other: Aabb) -> bool {
        other.contains(self.min) && other.contains(self.max)
    }

    pub open spec fn merged(self, other: Aabb) -> Aabb {
        Aabb {
            min: Vec3 {
                x: if self.min.x <= other.min.x { self.min.x } else { other.min.x },
                y: if self.min.y <= other.min.y { self.min.y } else { other.min.y },
                z: if self.min.z <= other.min.z { self.min.z } else { other.min.z },
            },
            max: Vec3 {
                x: if self.max.x >= other.max.x { self.max.x } else { other.max.x },
                y: if self.max.y >= other.max.y { self.max.y } else { other.max.y },
                z: if self.max.z >= other.max.z { self.max.z } else { other.max.z },
            },
        }
    }

    /// On axis `a` the slab can be met at all: the ray moves along the axis,
    /// or its origin already lies between the two planes.
    pub open spec fn axis_open(self, ray: Ray, a: int) -> bool {
        ray.direction.comp(a) != 0 || self.holds(a, ray.origin.comp(a))
    }

    /// Where a ray moving along axis `a` crosses the near plane.
    pub open spec fn axis_lo(self, ray: Ray, a: int) -> Frac {
        let o = ray.origin.comp(a);
        let d = ray.direction.comp(a);
        if d > 0 {
            Frac { num: (self.min.comp(a) - o) as i64, den: d as i64 }
        } else {
            Frac { num: (o - self.max.comp(a)) as i64, den: (-d) as i64 }
        }
    }

    /// Where a ray moving along axis `a` crosses the far plane.
    pub open spec fn axis_hi(self, ray: Ray, a: int) -> Frac {
        let o = ray.origin.comp(a);
        let d = ray.direction.comp(a);
        if d > 0 {
            Frac { num: (self.max.comp(a) - o) as i64, den: d as i64 }
        } else {
            Frac { num: (o - self.min.comp(a)) as i64, den: (-d) as i64 }
        }
    }

    /// Raises the entry to the near plane of axis `a` when that is not
    /// earlier, and records the axis.
    pub open spec fn step_lo(self, ray: Ray, st: (Frac, int), a: int) -> (Frac, int) {
        if ray.direction.comp(a) != 0 && st.0.le(self.axis_lo(ray, a)) {
            (self.axis_lo(ray, a), a)
        } else {
            st
        }
    }

    /// Lowers the exit to the far plane of axis `a` when that is not later,
    /// and records the axis.
    pub open spec fn step_hi(self, ray: Ray, st: (Frac, int), a: int) -> (Frac, int) {
        if ray.direction.comp(a) != 0 && self.axis_hi(ray, a).le(st.0) {
            (self.axis_hi(ray, a), a)
        } else {
            st
        }
    }

    /// The entry parameter: the latest of `t_min` and the near-plane
    /// crossings; with the axis of the last plane that set it (3 for none).
    pub open spec fn entry(self, ray: Ray, t_min: Frac) -> (Frac, int) {
        self.step_lo(ray, self.step_lo(ray, self.step_lo(ray, (t_min, 3), 0), 1), 2)
    }

    /// The exit parameter: the earliest of `t_max` and the far-plane
    /// crossings; with the axis of the last plane that set it (3 for none).
    pub open spec fn exit(self, ray: Ray, t_max: Frac) -> (Frac, int) {
        self.step_hi(ray, self.step_hi(ray, self.step_hi(ray, (t_max, 3), 0), 1), 2)
    }

    /// The slab test: every slab can be met and the intersection of the three
    /// real parameter intervals with `[t_min, t_max]` is not empty.
    pub open spec fn slab(self, ray: Ray, t_min: Frac, t_max: Frac) -> bool {
        &&& self.axis_open(ray, 0)
        &&& self.axis_open(ray, 1)
        &&& self.axis_open(ray, 2)
        &&& self.entry(ray, t_min).0.le(self.exit(ray, t_max).0)
    }

    pub fn new(min: Vec3, max: Vec3) -> (r: Aabb)
        ensures
            r == (Aabb { min, max }),
    {
        Aabb { min, max }
    }

    /// The smallest box that holds both `self` and `other`.
    pub fn merge(&self, other: &Aabb) -> (r: Aabb)
        ensures
            r == self.merged(*other),
    {
        Aabb {
            min: Vec3 {
                x: if self.min.x <= other.min.x { self.min.x } else { other.min.x },
                y: if self.min.y <= other.min.y { self.min.y } else { other.min.y },
                z: if self.min.z <= other.min.z { self.min.z } else { other.min.z },
            },
            max: Vec3 {
                x: if self.max.x >= other.max.x { self.max.x } else { other.max.x },
                y: if self.max.y >= other.max.y { self.max.y } else { other.max.y },
                z: if self.max.z >= other.max.z { self.max.z } else { other.max.z },
            },
        }
    }

    /// The slab of axis `a`: whether it can be met, and where the ray
    /// crosses its near and far planes.
    pub fn axis_range(&self, ray: &Ray, a: usize) -> (r: (bool, Frac, Frac))
        requires
            self.wf(),
            ray.wf(),
        ensures
            r.0 == self.axis_open(*ray, a as int),
            ray.direction.comp(a as int) != 0 ==> r.1 == self.axis_lo(*ray, a as int) && r.2
                == self.axis_hi(*ray, a as int),
            r.1.wf() && r.2.wf(),
            -0x200_0000 <= r.1.num <= 0x200_0000 && r.1.den <= 0x100_0000,
            -0x200_0000 <= r.2.num <= 0x200_0000 && r.2.den <= 0x100_0000,
    {
        let o = ray.origin.get(a);
        let d = ray.direction.get(a);
        let mn = self.min.get(a);
        let mx = self.max.get(a);
        if d > 0 {
            (true, Frac { num: mn - o, den: d }, Frac { num: mx - o, den: d })
        } else if d < 0 {
            (true, Frac { num: o - mx, den: -d }, Frac { num: o - mn, den: -d })
        } else {
            (mn <= o && o <= mx, Frac { num: 0, den: 1 }, Frac { num: 0, den: 1 })
        }
    }

    /// The entry and exit parameters with the axes that set them, and
    /// whether every slab can be met.
    pub fn entry_exit(&self, ray: &Ray, t_min: Frac, t_max: Frac) -> (r: (bool, Frac, usize, Frac, usize))
        requires
            self.wf(),
            ray.wf(),
        ensures
            r.0 == (self.axis_open(*ray, 0) && self.axis_open(*ray, 1) && self.axis_open(*ray, 2)),
            (r.1, r.2 as int) == self.entry(*ray, t_min),
            (r.3, r.4 as int) == self.exit(*ray, t_max),
            r.2 < 3 ==> -0x200_0000 <= r.1.num <= 0x200_0000 && 0 < r.1.den <= 0x100_0000,
            r.4 < 3 ==> -0x200_0000 <= r.3.num <= 0x200_0000 && 0 < r.3.den <= 0x100_0000,
            r.2 <= 3 && r.4 <= 3,
    {
        let mut open = true;
        let mut lo = t_min;
        let mut lo_axis: usize = 3;
        let mut hi = t_max;
        let mut hi_axis: usize = 3;
        let (o0, l0, h0) = self.axis_range(ray, 0);
        if ray.direction.x != 0 && lo.at_most(&l0) { lo = l0; lo_axis = 0; }
        if ray.direction.x != 0 && h0.at_most(&hi) { hi = h0; hi_axis = 0; }
        let (o1, l1, h1) = self.axis_range(ray, 1);
        if ray.direction.y != 0 && lo.at_most(&l1) { lo = l1; lo_axis = 1; }
        if ray.direction.y != 0 && h1.at_most(&hi) { hi = h1; hi_axis = 1; }
        let (o2, l2, h2) = self.axis_range(ray, 2);
        if ray.direction.z != 0 && lo.at_most(&l2) { lo = l2; lo_axis = 2; }
        if ray.direction.z != 0 && h2.at_most(&hi) { hi = h2; hi_axis = 2; }
        (o0 && o1 && o2, lo, lo_axis, hi, hi_axis)
    }

    /// The slab test of the ray against the box over `[t_min, t_max]`.
    pub fn hit(&self, ray: &Ray, t_min: Frac, t_max: Frac) -> (r: bool)
        requires
            self.wf(),
            ray.wf(),
            t_min.wf(),
            t_max.wf(),
        ensures
            r == self.slab(*ray, t_min, t_max),
            r == self.meets(*ray, t_min, t_max),
    {
        proof {
            self.lemma_slab_meets(*ray, t_min, t_max);
        }
        let (open, lo, _, hi, _) = self.entry_exit(ray, t_min, t_max);
        open && lo.at_most(&hi)
    }

    /// For a ray moving along axis `a`, a parameter lies between the two
    /// plane crossings exactly when the point there lies between the planes.
    pub proof fn lemma_axis(self, ray: Ray, a: int, t: Frac)
        requires
            self.wf(),
            ray.wf(),
            t.wf(),
            0 <= a < 3,
        ensures
            ray.direction.comp(a) != 0 ==> (self.axis_lo(ray, a).le(t) && t.le(self.axis_hi(ray, a)))
                == self.holds_at(ray, a, t),
            ray.direction.comp(a) == 0 ==> self.holds(a, ray.origin.comp(a)) == self.holds_at(ray, a, t),
    {
        let o = ray.origin.comp(a);
        let d = ray.direction.comp(a);
        let mn = self.min.comp(a);
        let mx = self.max.comp(a);
        let p = t.num as int;
        let q = t.den as int;
        if d > 0 {
            assert(((mn - o) * q <= p * d) == (mn * q <= o * q + p * d)) by (nonlinear_arith);
            assert((p * d <= (mx - o) * q) == (o * q + p * d <= mx * q)) by (nonlinear_arith);
        } else if d < 0 {
            assert(((o - mx) * q <= p * (-d)) == (o * q + p * d <= mx * q)) by (nonlinear_arith);
            assert((p * (-d) <= (o - mn) * q) == (mn * q <= o * q + p * d)) by (nonlinear_arith);
        } else {
            assert(p * d == 0) by (nonlinear_arith)
                requires d == 0;
            assert((mn * q <= o * q) == (mn <= o)) by (nonlinear_arith)
                requires q > 0;
            assert((o * q <= mx * q) == (o <= mx)) by (nonlinear_arith)
                requires q > 0;
        }
    }

    /// The entry is at least `t_min` and every near-plane crossing; the exit
    /// is at most `t_max` and every far-plane crossing; both are well formed.
    pub proof fn lemma_bounds(self, ray: Ray, t_min: Frac, t_max: Frac)
        requires
            self.wf(),
            ray.wf(),
            t_min.wf(),
            t_max.wf(),
        ensures
            self.entry(ray, t_min).0.wf(),
            self.exit(ray, t_max).0.wf(),
            t_min.le(self.entry(ray, t_min).0),
            self.exit(ray, t_max).0.le(t_max),
            forall|a: int| 0 <= a < 3 && ray.direction.comp(a) != 0 ==> (#[trigger] self.axis_lo(ray, a)).le(self.entry(ray, t_min).0),
            forall|a: int| 0 <= a < 3 && ray.direction.comp(a) != 0 ==> self.exit(ray, t_max).0.le(#[trigger] self.axis_hi(ray, a)),
    {
        let l0 = self.axis_lo(ray, 0);
        let l1 = self.axis_lo(ray, 1);
        let l2 = self.axis_lo(ray, 2);
        let s0 = self.step_lo(ray, (t_min, 3), 0).0;
        let s1 = self.step_lo(ray, self.step_lo(ray, (t_min, 3), 0), 1).0;
        let s2 = self.entry(ray, t_min).0;
        assert(t_min.le(s0) && s0.le(s1) && s1.le(s2));
        lemma_le_trans(t_min, s0, s1);
        lemma_le_trans(t_min, s1, s2);
        if ray.direction.x != 0 { assert(l0.le(s0)); lemma_le_trans(l0, s0, s1); lemma_le_trans(l0, s1, s2); }
        if ray.direction.y != 0 { assert(l1.le(s1)); lemma_le_trans(l1, s1, s2); }
        let h0 = self.axis_hi(ray, 0);
        let h1 = self.axis_hi(ray, 1);
        let u0 = self.step_hi(ray, (t_max, 3), 0).0;
        let u1 = self.step_hi(ray, self.step_hi(ray, (t_max, 3), 0), 1).0;
        let u2 = self.exit(ray, t_max).0;
        assert(u0.le(t_max) && u1.le(u0) && u2.le(u1));
        lemma_le_trans(u1, u0, t_max);
        lemma_le_trans(u2, u1, t_max);
        if ray.direction.x != 0 { assert(u0.le(h0)); lemma_le_trans(u1, u0, h0); lemma_le_trans(u2, u1, h0); }
        if ray.direction.y != 0 { assert(u1.le(h1)); lemma_le_trans(u2, u1, h1); }
    }

    /// When the slab test holds, the ray's point lies in the box at every
    /// parameter between entry and exit.
    pub proof fn lemma_between(self, ray: Ray, t_min: Frac, t_max: Frac, t: Frac)
        requires
            self.wf(),
            ray.wf(),
            t_min.wf(),
            t_max.wf(),
            t.wf(),
            self.slab(ray, t_min, t_max),
            self.entry(ray, t_min).0.le(t),
            t.le(self.exit(ray, t_max).0),
        ensures
            self.contains_at(ray, t),
            t_min.le(t),
            t.le(t_max),
    {
        self.lemma_bounds(ray, t_min, t_max);
        let e = self.entry(ray, t_min).0;
        let x = self.exit(ray, t_max).0;
        lemma_le_trans(t_min, e, t);
        lemma_le_trans(t, x, t_max);
        assert forall|a: int| 0 <= a < 3 implies self.holds_at(ray, a, t) by {
            self.lemma_axis(ray, a, t);
            if ray.direction.comp(a) != 0 {
                lemma_le_trans(self.axis_lo(ray, a), e, t);
                lemma_le_trans(t, x, self.axis_hi(ray, a));
            }
        }
    }

    /// The slab test holds exactly when some fraction in `[t_min, t_max]`
    /// puts the ray's point inside the box.
    pub proof fn lemma_slab_meets(self, ray: Ray, t_min: Frac, t_max: Frac)
        requires
            self.wf(),
            ray.wf(),
            t_min.wf(),
            t_max.wf(),
        ensures
            self.slab(ray, t_min, t_max) == self.meets(ray, t_min, t_max),
    {
        self.lemma_bounds(ray, t_min, t_max);
        let e = self.entry(ray, t_min).0;
        let x = self.exit(ray, t_max).0;
        if self.slab(ray, t_min, t_max) {
            self.lemma_between(ray, t_min, t_max, e);
        }
        if self.meets(ray, t_min, t_max) {
            let t = choose|t: Frac| t.wf() && t_min.le(t) && t.le(t_max) && #[trigger] self.contains_at(ray, t);
            self.lemma_axis(ray, 0, t);
            self.lemma_axis(ray, 1, t);
            self.lemma_axis(ray, 2, t);
            assert(e.le(t));
            assert(t.le(x));
            lemma_le_trans(e, t, x);
        }
    }
}

/// Merging boxes does not depend on the order of the two.
pub proof fn lemma_merge_commutative(a: Aabb, b: Aabb)
    ensures
        a.merged(b) == b.merged(a),
{
}

/// Merging boxes does not depend on how three boxes are grouped.
pub proof fn lemma_merge_associative(a: Aabb, b: Aabb, c: Aabb)
    ensures
        a.merged(b).merged(c) == a.merged(b.merged(c)),
{
}

/// A merge of well-formed boxes is well formed and holds both inputs, with
/// their corners.
pub proof fn lemma_merge_contains(a: Aabb, b: Aabb)
    requires
        a.wf(),
        b.wf(),
    ensures
        a.merged(b).wf(),
        a.merged(b).contains(a.min),
        a.merged(b).contains(a.max),
        a.merged(b).contains(b.min),
        a.merged(b).contains(b.max),
        a.inside(a.merged(b)),
        b.inside(a.merged(b)),
{
}

/// A point of a box inside another lies in the other.
pub proof fn lemma_inside_contains_at(inner: Aabb, outer: Aabb, ray: Ray, t: Frac)
    requires
        inner.wf(),
        t.wf(),
        inner.inside(outer),
        inner.contains_at(ray, t),
    ensures
        outer.contains_at(ray, t),
{
    let q = t.den as int;
    assert forall|a: int| 0 <= a < 3 implies outer.holds_at(ray, a, t) by {
        let (imn, imx, omn, omx) = (inner.min.comp(a), inner.max.comp(a), outer.min.comp(a), outer.max.comp(a));
        assert(omn * q <= imn * q) by (nonlinear_arith)
            requires omn <= imn, q > 0;
        assert(imx * q <= omx * q) by (nonlinear_arith)
            requires imx <= omx, q > 0;
    }
}

pub proof fn lemma_inside_trans(a: Aabb, b: Aabb, c: Aabb)
    requires
        a.wf(),
        b.wf(),
        a.inside(b),
        b.inside(c),
    ensures
        a.inside(c),
{
}

} // verus!
