use vstd::prelude::*;
use rand::Rng;
use crate::arith::{lemma_floor_char, Frac};
use crate::bvh::{closest, Bvh};
use crate::material::{black, Color, Material, ALBEDO_ONE, EMIT_MAX};
use crate::sprite::Hit;
use crate::vec3::{COORD_MAX, Ray, Vec3};

verus! {

/// The integrator accepts ray parameters from `1 / EPSILON_DEN` on, so that
/// a scattered ray does not hit the surface it leaves at `t = 0`.
pub const EPSILON_DEN: i64 = 0x10_0000;

/// The fuzz of a metal that perturbs by up to the reflected ray's size.
pub const FUZZ_ONE: i64 = 256;

/// The least parameter the integrator accepts.
pub open spec fn near() -> Frac {
    Frac { num: 1, den: EPSILON_DEN }
}

/// A parameter beyond every box: the integrator's far end.
pub open spec fn far() -> Frac {
    Frac { num: i64::MAX, den: 1 }
}

/// A random scattering offset: not zero, and within the ball of radius
/// `SAMPLE_MAX`.
pub open spec fn is_offset(s: Vec3) -> bool {
    &&& s.bounded_by(SAMPLE_MAX as int)
    &&& 0 < s.dot(s) <= SAMPLE_MAX * SAMPLE_MAX
}

pub open spec fn abs_int(v: int) -> int {
    if v < 0 { -v } else { v }
}

/// The largest magnitude of a component.
pub open spec fn max_abs(v: Vec3) -> int {
    let (a, b, c) = (abs_int(v.x as int), abs_int(v.y as int), abs_int(v.z as int));
    if a >= b && a >= c { a } else if b >= c { b } else { c }
}

/// Division rounding toward zero.
pub open spec fn trunc_div(n: int, d: int) -> int {
    if n >= 0 { n / d } else { -((-n) / d) }
}

/// The offset of a metal's mirror direction, or of a diffuse bounce from the
/// normal, for the drawn components `x`, `y`, `z`: kept when the point lies
/// in the ball of radius `SAMPLE_MAX` and is not its center.
pub fn offset_from(x: i64, y: i64, z: i64) -> (r: Option<Vec3>)
    requires
        -SAMPLE_MAX <= x <= SAMPLE_MAX,
        -SAMPLE_MAX <= y <= SAMPLE_MAX,
        -SAMPLE_MAX <= z <= SAMPLE_MAX,
    ensures
        r == if 0 < x * x + y * y + z * z <= SAMPLE_MAX * SAMPLE_MAX {
            Some(Vec3 { x, y, z })
        } else {
            None::<Vec3>
        },
{
    proof {
        assert(0 <= x * x <= 1024 * 1024) by (nonlinear_arith)
            requires -1024 <= x <= 1024;
        assert(0 <= y * y <= 1024 * 1024) by (nonlinear_arith)
            requires -1024 <= y <= 1024;
        assert(0 <= z * z <= 1024 * 1024) by (nonlinear_arith)
            requires -1024 <= z <= 1024;
    }
    let n = x * x + y * y + z * z;
    if 0 < n && n <= SAMPLE_MAX * SAMPLE_MAX {
        Some(Vec3 { x, y, z })
    } else {
        None
    }
}

/// The fuzz offset on one axis: `fuzz / FUZZ_ONE` times the reflected ray's
/// size `m` times the offset component over `SAMPLE_MAX`.
pub open spec fn fuzz_part(fuzz: int, m: int, s: int) -> int {
    trunc_div(fuzz * m * s, FUZZ_ONE * SAMPLE_MAX)
}

/// The largest magnitude of a component of a random scattering offset; a
/// diffuse bounce adds an offset to the normal scaled by this much.
pub const SAMPLE_MAX: i64 = 1024;

/// The largest recursion depth the integrator accepts.
pub const MAX_DEPTH: usize = 0x10_0000;

pub open spec fn is_zero(v: Vec3) -> bool {
    v.x == 0 && v.y == 0 && v.z == 0
}

/// The mirror image of `d` about the plane with unit normal `n`.
pub open spec fn reflect(d: Vec3, n: Vec3) -> Vec3 {
    let k = d.dot(n);
    Vec3 {
        x: (d.x - 2 * k * n.x) as i64,
        y: (d.y - 2 * k * n.y) as i64,
        z: (d.z - 2 * k * n.z) as i64,
    }
}

/// What a material does with a ray that hit it, given a random offset `s`:
/// the attenuation and the scattered ray, or nothing when it absorbs it.
pub open spec fn scatter_spec(m: Material, ray_in: Ray, h: Hit, s: Vec3) -> Option<(Color, Ray)> {
    let n = h.normal;
    match m {
        Material::Lambertian { albedo } => {
            let d = Vec3 {
                x: (n.x * SAMPLE_MAX + s.x) as i64,
                y: (n.y * SAMPLE_MAX + s.y) as i64,
                z: (n.z * SAMPLE_MAX + s.z) as i64,
            };
            let dir = if is_zero(d) {
                Vec3 {
                    x: (n.x * SAMPLE_MAX) as i64,
                    y: (n.y * SAMPLE_MAX) as i64,
                    z: (n.z * SAMPLE_MAX) as i64,
                }
            } else {
                d
            };
            Some((albedo, Ray { origin: h.point, direction: dir }))
        },
        Material::Metal { albedo, fuzz } => {
            let r = reflect(ray_in.direction, n);
            let m = max_abs(r);
            let dx = r.x + fuzz_part(fuzz as int, m, s.x as int);
            let dy = r.y + fuzz_part(fuzz as int, m, s.y as int);
            let dz = r.z + fuzz_part(fuzz as int, m, s.z as int);
            let c = COORD_MAX as int;
            let fits = -c <= dx <= c && -c <= dy <= c && -c <= dz <= c;
            let dir = if fits {
                Vec3 { x: dx as i64, y: dy as i64, z: dz as i64 }
            } else {
                Vec3 { x: trunc_div(dx, 2) as i64, y: trunc_div(dy, 2) as i64, z: trunc_div(dz, 2) as i64 }
            };
            if dir.dot(n) > 0 {
                Some((albedo, Ray { origin: h.point, direction: dir }))
            } else {
                None
            }
        },
        Material::DiffuseLight { .. } => None,
        Material::Isotropic { albedo } => {
            let dir = if is_zero(s) { ray_in.direction } else { s };
            Some((albedo, Ray { origin: h.point, direction: dir }))
        },
    }
}

/// `emitted + attenuation * incoming`, componentwise, with the attenuation
/// counted in units of `1 / ALBEDO_ONE`.
pub open spec fn shade(e: Color, att: Color, c: Color) -> Color {
    Color {
        r: (e.r + att.r * c.r / (ALBEDO_ONE as int)) as u64,
        g: (e.g + att.g * c.g / (ALBEDO_ONE as int)) as u64,
        b: (e.b + att.b * c.b / (ALBEDO_ONE as int)) as u64,
    }
}

/// The radiance that `ray` brings back from `world` with `depth` bounces
/// left, taking the random offset of the bounce at depth `k` from
/// `samples[k - 1]`.
pub open spec fn color_spec(
    ray: Ray,
    world: Bvh,
    depth: nat,
    background: Color,
    samples: Seq<Vec3>,
) -> Color
    decreases depth,
{
    if depth == 0 {
        black()
    } else {
        match closest(world.prims(), ray, near(), far()) {
            None => background,
            Some(h) => {
                let e = h.material.emitted_spec();
                match scatter_spec(h.material, ray, h, samples[depth - 1]) {
                    None => e,
                    Some((att, next)) => shade(
                        e,
                        att,
                        color_spec(next, world, (depth - 1) as nat, background, samples),
                    ),
                }
            },
        }
    }
}

/// Mirroring about an axis plane keeps every component's magnitude.
proof fn lemma_reflect_in_range(d: Vec3, n: Vec3)
    requires
        d.in_range(),
        n.is_axis_unit(),
    ensures
        ({
            let k = d.x * n.x + d.y * n.y + d.z * n.z;
            &&& -COORD_MAX <= d.x - 2 * k * n.x <= COORD_MAX
            &&& -COORD_MAX <= d.y - 2 * k * n.y <= COORD_MAX
            &&& -COORD_MAX <= d.z - 2 * k * n.z <= COORD_MAX
        }),
{
    let (x, y, z, a, b, c) = (d.x as int, d.y as int, d.z as int, n.x as int, n.y as int, n.z as int);
    let m: int = 0x100_0000;
    if a != 0 {
        assert(b == 0 && c == 0 && (a == 1 || a == -1));
        assert(x * a * a == x && y * b == 0 && z * c == 0 && (x * a + y * b + z * c) * b == 0
            && (x * a + y * b + z * c) * c == 0) by (nonlinear_arith)
            requires b == 0, c == 0, a == 1 || a == -1;
        assert(2 * (x * a + y * b + z * c) * a == 2 * x) by (nonlinear_arith)
            requires b == 0, c == 0, a == 1 || a == -1;
        assert(2 * (x * a + y * b + z * c) * b == 0) by (nonlinear_arith)
            requires b == 0;
        assert(2 * (x * a + y * b + z * c) * c == 0) by (nonlinear_arith)
            requires c == 0;
    } else if b != 0 {
        assert(2 * (x * a + y * b + z * c) * b == 2 * y) by (nonlinear_arith)
            requires a == 0, c == 0, b == 1 || b == -1;
        assert(2 * (x * a + y * b + z * c) * a == 0) by (nonlinear_arith)
            requires a == 0;
        assert(2 * (x * a + y * b + z * c) * c == 0) by (nonlinear_arith)
            requires c == 0;
    } else {
        assert(2 * (x * a + y * b + z * c) * c == 2 * z * c * c) by (nonlinear_arith)
            requires a == 0, b == 0;
        assert(z * c * c == z || (c == 0 && z * c * c == 0)) by (nonlinear_arith)
            requires c == 1 || c == -1 || c == 0;
        assert(2 * (x * a + y * b + z * c) * a == 0) by (nonlinear_arith)
            requires a == 0;
        assert(2 * (x * a + y * b + z * c) * b == 0) by (nonlinear_arith)
            requires b == 0;
    }
}

/// Half of `v`, rounded toward zero.
fn half(v: i128) -> (r: i128)
    requires
        -0x200_0000 <= v <= 0x200_0000,
    ensures
        r == trunc_div(v as int, 2),
        -0x100_0000 <= r <= 0x100_0000,
{
    if v >= 0 {
        v / 2
    } else {
        -((-v) / 2)
    }
}

/// The fuzz offset on one axis, computed exactly.
fn fuzz_offset(fuzz: i64, m: i64, s: i64) -> (r: i128)
    requires
        0 <= fuzz <= FUZZ_ONE,
        0 <= m <= 0x800_0000,
        -SAMPLE_MAX <= s <= SAMPLE_MAX,
    ensures
        r == fuzz_part(fuzz as int, m as int, s as int),
        -m <= r <= m,
{
    proof {
        let d: int = 0x4_0000;
        let a: int = fuzz * m * s;
        assert(-(m * d) <= a <= m * d) by (nonlinear_arith)
            requires 0 <= fuzz <= 256, 0 <= m, -1024 <= s <= 1024, a == fuzz * m * s, d == 256 * 1024;
        assert((m + 1) * d > m * d) by (nonlinear_arith)
            requires d > 0;
        lemma_floor_char(a, d, m + 1);
        lemma_floor_char(-a, d, m + 1);
    }
    proof {
        let b: int = 0x8000_0000_0000_0000;
        assert(0 <= fuzz * m <= b * 0x800_0000) by (nonlinear_arith)
            requires 0 <= fuzz < b, 0 <= m <= 0x800_0000;
    }
    let fm: i128 = (fuzz as i128) * (m as i128);
    proof {
        let b: int = 0x8000_0000_0000_0000;
        assert(-(b * 0x800_0000 * 1024) <= fm * s <= b * 0x800_0000 * 1024) by (nonlinear_arith)
            requires 0 <= fm <= b * 0x800_0000, -1024 <= s <= 1024;
    }
    let p: i128 = fm * (s as i128);
    let d: i128 = 0x4_0000;
    assert(d == FUZZ_ONE * SAMPLE_MAX);
    if p >= 0 {
        p / d
    } else {
        -((-p) / d)
    }
}

impl Material {
    /// Scatters `ray_in` at the hit `h` with the random offset `s`.
    #[verifier::rlimit(60)]
    pub fn scatter(&self, ray_in: &Ray, h: &Hit, s: Vec3) -> (r: Option<(Color, Ray)>)
        requires
            ray_in.wf(),
            h.point.in_range(),
            h.normal.is_axis_unit(),
            s.bounded_by(SAMPLE_MAX as int),
            self.wf(),
        ensures
            r == scatter_spec(*self, *ray_in, *h, s),
            r matches Some((_, next)) ==> next.wf(),
    {
        let n = h.normal;
        match self {
            Material::Lambertian { albedo } => {
                let d = Vec3 {
                    x: n.x * SAMPLE_MAX + s.x,
                    y: n.y * SAMPLE_MAX + s.y,
                    z: n.z * SAMPLE_MAX + s.z,
                };
                let dir = if d.x == 0 && d.y == 0 && d.z == 0 {
                    Vec3 { x: n.x * SAMPLE_MAX, y: n.y * SAMPLE_MAX, z: n.z * SAMPLE_MAX }
                } else {
                    d
                };
                Some((*albedo, Ray { origin: h.point, direction: dir }))
            },
            Material::Metal { albedo, fuzz } => {
                let d = ray_in.direction;
                proof {
                    let m: int = 0x100_0000;
                    assert(-1 <= n.x <= 1 && -1 <= n.y <= 1 && -1 <= n.z <= 1);
                    assert(-m <= d.x * n.x <= m) by (nonlinear_arith)
                        requires -1 <= n.x <= 1, -m <= d.x <= m;
                    assert(-m <= d.y * n.y <= m) by (nonlinear_arith)
                        requires -1 <= n.y <= 1, -m <= d.y <= m;
                    assert(-m <= d.z * n.z <= m) by (nonlinear_arith)
                        requires -1 <= n.z <= 1, -m <= d.z <= m;
                    let kk = d.x * n.x + d.y * n.y + d.z * n.z;
                    assert(-3 * m <= kk <= 3 * m);
                    assert(-6 * m <= 2 * kk * n.x <= 6 * m) by (nonlinear_arith)
                        requires -1 <= n.x <= 1, -3 * m <= kk <= 3 * m;
                    assert(-6 * m <= 2 * kk * n.y <= 6 * m) by (nonlinear_arith)
                        requires -1 <= n.y <= 1, -3 * m <= kk <= 3 * m;
                    assert(-6 * m <= 2 * kk * n.z <= 6 * m) by (nonlinear_arith)
                        requires -1 <= n.z <= 1, -3 * m <= kk <= 3 * m;
                }
                let k = d.x * n.x + d.y * n.y + d.z * n.z;
                let rx = d.x - 2 * k * n.x;
                let ry = d.y - 2 * k * n.y;
                let rz = d.z - 2 * k * n.z;
                proof {
                    lemma_reflect_in_range(d, n);
                }
                let ax: i64 = if rx < 0 { -rx } else { rx };
                let ay: i64 = if ry < 0 { -ry } else { ry };
                let az: i64 = if rz < 0 { -rz } else { rz };
                let m: i64 = if ax >= ay && ax >= az { ax } else if ay >= az { ay } else { az };
                let f = *fuzz;
                let dx = rx as i128 + fuzz_offset(f, m, s.x);
                let dy = ry as i128 + fuzz_offset(f, m, s.y);
                let dz = rz as i128 + fuzz_offset(f, m, s.z);
                let c = COORD_MAX as i128;
                let fits = dx >= -c && dx <= c && dy >= -c && dy <= c && dz >= -c && dz <= c;
                let dir = if fits {
                    Vec3 { x: dx as i64, y: dy as i64, z: dz as i64 }
                } else {
                    Vec3 { x: half(dx) as i64, y: half(dy) as i64, z: half(dz) as i64 }
                };
                proof {
                    let m: int = 0x100_0000;
                    assert(-m <= dir.x * n.x <= m) by (nonlinear_arith)
                        requires -1 <= n.x <= 1, -m <= dir.x <= m;
                    assert(-m <= dir.y * n.y <= m) by (nonlinear_arith)
                        requires -1 <= n.y <= 1, -m <= dir.y <= m;
                    assert(-m <= dir.z * n.z <= m) by (nonlinear_arith)
                        requires -1 <= n.z <= 1, -m <= dir.z <= m;
                }
                if dir.x * n.x + dir.y * n.y + dir.z * n.z > 0 {
                    Some((*albedo, Ray { origin: h.point, direction: dir }))
                } else {
                    None
                }
            },
            Material::DiffuseLight { .. } => None,
            Material::Isotropic { albedo } => {
                let dir = if s.x == 0 && s.y == 0 && s.z == 0 {
                    ray_in.direction
                } else {
                    s
                };
                Some((*albedo, Ray { origin: h.point, direction: dir }))
            },
        }
    }
}

} // verus!

verus! {

/// With attenuation at most one, shading adds at most the emission.
proof fn lemma_shade_bound(e: Color, att: Color, c: Color, k: int)
    requires
        e.bounded_by(EMIT_MAX as int),
        att.bounded_by(ALBEDO_ONE as int),
        c.bounded_by(k),
        0 <= k,
    ensures
        shade(e, att, c).bounded_by(k + EMIT_MAX),
        att.r * c.r <= ALBEDO_ONE * k,
        att.g * c.g <= ALBEDO_ONE * k,
        att.b * c.b <= ALBEDO_ONE * k,
{
    assert(att.r * c.r <= 256 * k) by (nonlinear_arith)
        requires att.r <= 256, c.r <= k, 0 <= k;
    assert(att.g * c.g <= 256 * k) by (nonlinear_arith)
        requires att.g <= 256, c.g <= k, 0 <= k;
    assert(att.b * c.b <= 256 * k) by (nonlinear_arith)
        requires att.b <= 256, c.b <= k, 0 <= k;
}

/// The radiance grows by at most one emission per bounce.
pub proof fn lemma_color_bound(ray: Ray, world: Bvh, depth: nat, background: Color, samples: Seq<Vec3>)
    requires
        world.wf(),
        background.bounded_by(EMIT_MAX as int),
    ensures
        color_spec(ray, world, depth, background, samples).bounded_by(depth * EMIT_MAX),
    decreases depth,
{
    if depth > 0 {
        assert(depth * EMIT_MAX >= EMIT_MAX) by (nonlinear_arith)
            requires depth >= 1;
        match closest(world.prims(), ray, near(), far()) {
            None => {},
            Some(h) => {
                world.lemma_hit_material(ray, near(), far());
                match scatter_spec(h.material, ray, h, samples[depth - 1]) {
                    None => {},
                    Some((att, next)) => {
                        lemma_color_bound(next, world, (depth - 1) as nat, background, samples);
                        assert((depth - 1) * EMIT_MAX + EMIT_MAX == depth * EMIT_MAX) by (nonlinear_arith);
                        lemma_shade_bound(
                            h.material.emitted_spec(),
                            att,
                            color_spec(next, world, (depth - 1) as nat, background, samples),
                            (depth - 1) * EMIT_MAX,
                        );
                    },
                }
            },
        }
    }
}

/// The radiance that `ray` brings back from `world` with `depth` bounces
/// left: black once the budget is spent, the background where the ray meets
/// nothing, and otherwise what the hit surface emits plus what its scattered
/// ray brings back, attenuated. The bounce at depth `k` takes its random
/// offset from `samples[k - 1]`.
pub fn color(ray: &Ray, world: &Bvh, depth: usize, background: Color, samples: &Vec<Vec3>) -> (c: Color)
    requires
        world.wf(),
        ray.wf(),
        depth <= MAX_DEPTH,
        depth <= samples@.len(),
        forall|i: int| 0 <= i < samples@.len() ==> is_offset(#[trigger] samples@[i]),
        background.bounded_by(EMIT_MAX as int),
    ensures
        c == color_spec(*ray, *world, depth as nat, background, samples@),
    decreases depth,
{
    if depth == 0 {
        return Color::black();
    }
    match world.hit(ray, Frac::new(1, EPSILON_DEN), Frac::new(i64::MAX, 1)) {
        None => background,
        Some(h) => {
            proof {
                world.lemma_hit_facts(*ray, near(), far());
            }
            let e = h.material.emitted();
            match h.material.scatter(ray, &h, samples[depth - 1]) {
                None => e,
                Some((att, next)) => {
                    let c = color(&next, world, depth - 1, background, samples);
                    proof {
                        lemma_color_bound(next, *world, (depth - 1) as nat, background, samples@);
                        assert((depth - 1) * EMIT_MAX <= 0x10_0000 * 0x1_0000) by (nonlinear_arith)
                            requires depth <= 0x10_0000;
                        lemma_shade_bound(e, att, c, (depth - 1) * EMIT_MAX);
                    }
                    Color {
                        r: e.r + att.r * c.r / ALBEDO_ONE,
                        g: e.g + att.g * c.g / ALBEDO_ONE,
                        b: e.b + att.b * c.b / ALBEDO_ONE,
                    }
                },
            }
        },
    }
}

/// With no bounce left the radiance is black, whatever the ray and world.
pub proof fn lemma_color_depth_zero(ray: Ray, world: Bvh, background: Color, samples: Seq<Vec3>)
    ensures
        color_spec(ray, world, 0, background, samples) == black(),
{
}

/// A ray whose nearest hit is a light brings back exactly the light's
/// color, for every positive depth: the light does not scatter.
pub proof fn lemma_color_light(
    ray: Ray,
    world: Bvh,
    depth: nat,
    background: Color,
    samples: Seq<Vec3>,
    emit: Color,
)
    requires
        depth >= 1,
        closest(world.prims(), ray, near(), far()) matches Some(h) && h.material
            == (Material::DiffuseLight { emit }),
    ensures
        color_spec(ray, world, depth, background, samples) == emit,
{
}

/// A ray whose nearest hit is a metal without fuzz is mirrored exactly:
/// whatever the random offset, it goes on from the hit point along
/// `reflect(d, n)`, and brings back the albedo times what that ray brings.
pub proof fn lemma_metal_mirror(
    ray: Ray,
    world: Bvh,
    depth: nat,
    background: Color,
    samples: Seq<Vec3>,
    albedo: Color,
)
    requires
        depth >= 1,
        world.wf(),
        ray.wf(),
        closest(world.prims(), ray, near(), far()) matches Some(h) && h.material == (Material::Metal {
            albedo,
            fuzz: 0,
        }) && reflect(ray.direction, h.normal).dot(h.normal) > 0,
    ensures
        ({
            let h = closest(world.prims(), ray, near(), far())->0;
            let next = Ray { origin: h.point, direction: reflect(ray.direction, h.normal) };
            &&& scatter_spec(h.material, ray, h, samples[depth - 1]) == Some((albedo, next))
            &&& color_spec(ray, world, depth, background, samples) == shade(
                black(),
                albedo,
                color_spec(next, world, (depth - 1) as nat, background, samples),
            )
        }),
{
    world.lemma_hit_facts(ray, near(), far());
    let h = closest(world.prims(), ray, near(), far())->0;
    let s = samples[depth - 1];
    let r = reflect(ray.direction, h.normal);
    lemma_reflect_in_range(ray.direction, h.normal);
    let m = max_abs(r);
    assert(0 * m * s.x == 0 && 0 * m * s.y == 0 && 0 * m * s.z == 0) by (nonlinear_arith);
    assert(fuzz_part(0, m, s.x as int) == 0);
    assert(fuzz_part(0, m, s.y as int) == 0);
    assert(fuzz_part(0, m, s.z as int) == 0);
}

/// A ray that meets nothing brings back the background, for every positive
/// depth.
pub proof fn lemma_color_miss(ray: Ray, world: Bvh, depth: nat, background: Color, samples: Seq<Vec3>)
    requires
        depth >= 1,
        closest(world.prims(), ray, near(), far()) is None,
    ensures
        color_spec(ray, world, depth, background, samples) == background,
{
}

/// Relies on rand's `Rng::gen_range(low, high)` on the thread's generator:
/// a value in `[low, high)`; it panics only when `low >= high`.
#[verifier::external_body]
pub(crate) fn random_in(low: i64, high: i64) -> (r: i64)
    requires
        low < high,
    ensures
        low <= r < high,
{
    rand::thread_rng().gen_range(low, high)
}

/// A random scattering offset, drawn uniformly from the lattice points of
/// the ball of radius `SAMPLE_MAX` other than its center, by rejection from
/// the enclosing cube. After many rejections in a row, which has vanishing
/// probability, it gives the top of the ball.
pub fn random_offset() -> (s: Vec3)
    ensures
        is_offset(s),
{
    let mut tries: usize = 0;
    while tries < 256
        decreases 256 - tries,
    {
        let x = random_in(-SAMPLE_MAX, SAMPLE_MAX + 1);
        let y = random_in(-SAMPLE_MAX, SAMPLE_MAX + 1);
        let z = random_in(-SAMPLE_MAX, SAMPLE_MAX + 1);
        if let Some(s) = offset_from(x, y, z) {
            return s;
        }
        tries = tries + 1;
    }
    Vec3 { x: 0, y: 0, z: SAMPLE_MAX }
}

/// One radiance sample: draws a random offset for each bounce and runs the
/// integrator with them.
pub fn trace(ray: &Ray, world: &Bvh, depth: usize, background: Color) -> (c: Color)
    requires
        world.wf(),
        ray.wf(),
        depth <= MAX_DEPTH,
        background.bounded_by(EMIT_MAX as int),
    ensures
        exists|samples: Seq<Vec3>|
            {
                &&& samples.len() == depth
                &&& forall|i: int|
                    0 <= i < samples.len() ==> is_offset(#[trigger] samples[i])
                &&& c == color_spec(*ray, *world, depth as nat, background, samples)
            },
{
    let mut samples: Vec<Vec3> = Vec::new();
    let mut i: usize = 0;
    while i < depth
        invariant
            i <= depth,
            samples@.len() == i,
            forall|k: int| 0 <= k < samples@.len() ==> is_offset(#[trigger] samples@[k]),
        decreases depth - i,
    {
        samples.push(random_offset());
        i = i + 1;
    }
    color(ray, world, depth, background, &samples)
}

} // verus!
