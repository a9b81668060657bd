use vstd::prelude::*;
use crate::aabb::Aabb;
use crate::arith::{floor_div, lemma_floor_char, Frac};
use crate::material::Material;
use crate::vec3::{Ray, Vec3};

verus! {

/// What a successful intersection reports.
#[derive(Clone, Copy, Debug, PartialEq, Eq, Structural)]
pub struct Hit {
    /// The exact ray parameter of the hit.
    pub t: Frac,
    /// The lattice point at or below the hit point on every axis; it lies on
    /// the face that was hit.
    pub point: Vec3,
    /// The face normal, pointing against the incoming ray.
    pub normal: Vec3,
    pub material: Material,
}

/// The unit normal of a face across axis `a`, facing a ray whose component
/// there is `d`.
pub open spec fn facing_normal(a: int, d: int) -> Vec3 {
    let s: i64 = if d > 0 { -1i64 } else { 1i64 };
    if a == 0 {
        Vec3 { x: s, y: 0, z: 0 }
    } else if a == 1 {
        Vec3 { x: 0, y: s, z: 0 }
    } else {
        Vec3 { x: 0, y: 0, z: s }
    }
}

/// The hit of `ray` on the face across axis `a` at parameter `t`.
pub open spec fn face_hit(ray: Ray, t: Frac, a: int, m: Material) -> Hit {
    Hit {
        t,
        point: Vec3 {
            x: (ray.at_scaled(0, t) / (t.den as int)) as i64,
            y: (ray.at_scaled(1, t) / (t.den as int)) as i64,
            z: (ray.at_scaled(2, t) / (t.den as int)) as i64,
        },
        normal: facing_normal(a, ray.direction.comp(a)),
        material: m,
    }
}

proof fn lemma_floor_in(n: int, q: int, lo: int, hi: int)
    requires
        q > 0,
        lo * q <= n <= hi * q,
    ensures
        lo <= n / q <= hi,
{
    lemma_floor_char(n, q, lo);
    lemma_floor_char(n, q, hi + 1);
    assert((hi + 1) * q > hi * q) by (nonlinear_arith)
        requires q > 0;
}

/// A solid box in its own frame, moved into the world by a translation, with
/// the material attached to it.
#[derive(Clone, Copy, Debug, PartialEq, Eq, Structural)]
pub struct Sprite {
    pub shape: Aabb,
    pub offset: Vec3,
    pub material: Material,
}

impl Sprite {
    /// The box in world space: the shape moved by the offset.
    pub open spec fn world_box(self) -> Aabb {
        Aabb {
            min: Vec3 {
                x: (self.shape.min.x + self.offset.x) as i64,
                y: (self.shape.min.y + self.offset.y) as i64,
                z: (self.shape.min.z + self.offset.z) as i64,
            },
            max: Vec3 {
                x: (self.shape.max.x + self.offset.x) as i64,
                y: (self.shape.max.y + self.offset.y) as i64,
                z: (self.shape.max.z + self.offset.z) as i64,
            },
        }
    }

    pub open spec fn wf(self) -> bool {
        &&& self.shape.wf()
        &&& self.offset.in_range()
        &&& self.world_box().min.in_range()
        &&& self.world_box().max.in_range()
        &&& self.material.wf()
    }

    /// The hit of `ray` on the surface of the box in `[t_min, t_max]`:
    /// the face through which it enters; for a ray that starts inside, the
    /// face through which it leaves.
    pub open spec fn hit_spec(self, ray: Ray, t_min: Frac, t_max: Frac) -> Option<Hit> {
        let bx = self.world_box();
        let (e, ea) = bx.entry(ray, t_min);
        let (x, xa) = bx.exit(ray, t_max);
        if !bx.slab(ray, t_min, t_max) {
            None
        } else if ea < 3 {
            Some(face_hit(ray, e, ea, self.material))
        } else if xa < 3 {
            Some(face_hit(ray, x, xa, self.material))
        } else {
            None
        }
    }

    pub fn new(shape: Aabb, offset: Vec3, material: Material) -> (r: Sprite)
        ensures
            r == (Sprite { shape, offset, material }),
    {
        Sprite { shape, offset, material }
    }

    pub fn bounding_box(&self) -> (r: Aabb)
        requires
            self.wf(),
        ensures
            r == self.world_box(),
            r.wf(),
    {
        Aabb {
            min: Vec3 {
                x: self.shape.min.x + self.offset.x,
                y: self.shape.min.y + self.offset.y,
                z: self.shape.min.z + self.offset.z,
            },
            max: Vec3 {
                x: self.shape.max.x + self.offset.x,
                y: self.shape.max.y + self.offset.y,
                z: self.shape.max.z + self.offset.z,
            },
        }
    }

    /// Twice the box's center on axis `a`.
    pub fn centroid_key(&self, a: usize) -> (r: i128)
        ensures
            r == self.centroid_spec(a as int),
    {
        self.shape.min.get(a) as i128 + self.shape.max.get(a) as i128 + 2 * (
        self.offset.get(a) as i128)
    }

    pub open spec fn centroid_spec(self, a: int) -> int {
        self.shape.min.comp(a) + self.shape.max.comp(a) + 2 * self.offset.comp(a)
    }

    /// Intersects the ray with the sprite over `[t_min, t_max]`.
    pub fn hit(&self, ray: &Ray, t_min: Frac, t_max: Frac) -> (r: Option<Hit>)
        requires
            self.wf(),
            ray.wf(),
            t_min.wf(),
            t_max.wf(),
        ensures
            r == self.hit_spec(*ray, t_min, t_max),
    {
        let bx = self.bounding_box();
        let (open, lo, la, hi, ha) = bx.entry_exit(ray, t_min, t_max);
        if !(open && lo.at_most(&hi)) {
            return None;
        }
        let (t, a) = if la < 3 {
            (lo, la)
        } else if ha < 3 {
            (hi, ha)
        } else {
            return None;
        };
        proof {
            self.lemma_face(*ray, t_min, t_max);
        }
        let d = ray.direction;
        proof {
            let (m, b, c): (int, int, int) = (0x100_0000, 0x200_0000, 0x100_0000);
            assert(-m * c <= ray.origin.x * t.den <= m * c) by (nonlinear_arith)
                requires -m <= ray.origin.x <= m, 0 < t.den <= c;
            assert(-m * c <= ray.origin.y * t.den <= m * c) by (nonlinear_arith)
                requires -m <= ray.origin.y <= m, 0 < t.den <= c;
            assert(-m * c <= ray.origin.z * t.den <= m * c) by (nonlinear_arith)
                requires -m <= ray.origin.z <= m, 0 < t.den <= c;
            assert(-b * m <= t.num * d.x <= b * m) by (nonlinear_arith)
                requires -b <= t.num <= b, -m <= d.x <= m;
            assert(-b * m <= t.num * d.y <= b * m) by (nonlinear_arith)
                requires -b <= t.num <= b, -m <= d.y <= m;
            assert(-b * m <= t.num * d.z <= b * m) by (nonlinear_arith)
                requires -b <= t.num <= b, -m <= d.z <= m;
        }
        let point = Vec3 {
            x: floor_div(ray.origin.x * t.den + t.num * d.x, t.den),
            y: floor_div(ray.origin.y * t.den + t.num * d.y, t.den),
            z: floor_div(ray.origin.z * t.den + t.num * d.z, t.den),
        };
        let dz = d.get(a);
        let s: i64 = if dz > 0 { -1 } else { 1 };
        let normal = if a == 0 {
            Vec3 { x: s, y: 0, z: 0 }
        } else if a == 1 {
            Vec3 { x: 0, y: s, z: 0 }
        } else {
            Vec3 { x: 0, y: 0, z: s }
        };
        Some(Hit { t, point, normal, material: self.material })
    }

    /// The parameter of a hit is a plane crossing in range, where the
    /// ray's point lies in the box.
    proof fn lemma_face(self, ray: Ray, t_min: Frac, t_max: Frac)
        requires
            self.wf(),
            ray.wf(),
            t_min.wf(),
            t_max.wf(),
            self.world_box().slab(ray, t_min, t_max),
        ensures
            ({
                let bx = self.world_box();
                let (e, ea) = bx.entry(ray, t_min);
                let (x, xa) = bx.exit(ray, t_max);
                &&& ea < 3 ==> {
                    &&& ray.direction.comp(ea) != 0
                    &&& e == bx.axis_lo(ray, ea)
                    &&& bx.contains_at(ray, e)
                }
                &&& xa < 3 ==> {
                    &&& ray.direction.comp(xa) != 0
                    &&& x == bx.axis_hi(ray, xa)
                    &&& bx.contains_at(ray, x)
                }
                &&& 0 <= ea <= 3
                &&& 0 <= xa <= 3
            }),
    {
        let bx = self.world_box();
        let (e, ea) = bx.entry(ray, t_min);
        let (x, xa) = bx.exit(ray, t_max);
        bx.lemma_bounds(ray, t_min, t_max);
        bx.lemma_between(ray, t_min, t_max, e);
        bx.lemma_between(ray, t_min, t_max, x);
    }

    /// A hit has a well-formed parameter, a point in the world box, an axis
    /// normal and the sprite's material, and the ray meets the world box.
    pub proof fn lemma_hit_facts(self, ray: Ray, t_min: Frac, t_max: Frac)
        requires
            self.wf(),
            ray.wf(),
            t_min.wf(),
            t_max.wf(),
            self.hit_spec(ray, t_min, t_max) is Some,
        ensures
            ({
                let h = self.hit_spec(ray, t_min, t_max)->0;
                &&& h.t.wf()
                &&& self.world_box().contains(h.point)
                &&& h.point.in_range()
                &&& h.normal.is_axis_unit()
                &&& h.normal != Vec3 { x: 0, y: 0, z: 0 }
                &&& h.material == self.material
                &&& self.world_box().meets(ray, t_min, t_max)
            }),
    {
        let bx = self.world_box();
        self.lemma_face(ray, t_min, t_max);
        bx.lemma_slab_meets(ray, t_min, t_max);
        let (e, ea) = bx.entry(ray, t_min);
        let (x, xa) = bx.exit(ray, t_max);
        let t = if ea < 3 { e } else { x };
        assert(bx.contains_at(ray, t));
        assert(t.wf());
        lemma_floor_in(ray.at_scaled(0, t), t.den as int, bx.min.x as int, bx.max.x as int);
        lemma_floor_in(ray.at_scaled(1, t), t.den as int, bx.min.y as int, bx.max.y as int);
        lemma_floor_in(ray.at_scaled(2, t), t.den as int, bx.min.z as int, bx.max.z as int);
    }
}

} // verus!
