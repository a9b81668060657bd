use ray_tracer_wasm::aabb::Aabb;
use ray_tracer_wasm::arith::Frac;
use ray_tracer_wasm::bvh::{Bvh, BvhError};
use ray_tracer_wasm::material::{Color, Material};
use ray_tracer_wasm::render::{color, offset_from, random_offset, trace, SAMPLE_MAX};
use ray_tracer_wasm::scene::{build_scene, finalScene};
use ray_tracer_wasm::sprite::{Hit, Sprite};
use ray_tracer_wasm::vec3::{Ray, Vec3};

fn v(x: i64, y: i64, z: i64) -> Vec3 {
    Vec3::new(x, y, z)
}

fn bx(a: (i64, i64, i64), b: (i64, i64, i64)) -> Aabb {
    Aabb::new(v(a.0, a.1, a.2), v(b.0, b.1, b.2))
}

fn gray() -> Material {
    Material::Lambertian { albedo: Color::new(128, 128, 128) }
}

fn block(a: (i64, i64, i64), b: (i64, i64, i64), m: Material) -> Sprite {
    Sprite::new(bx(a, b), v(0, 0, 0), m)
}

fn at(r: &Ray, t: i64) -> (i64, i64, i64) {
    (
        r.origin.x + t * r.direction.x,
        r.origin.y + t * r.direction.y,
        r.origin.z + t * r.direction.z,
    )
}

fn inside(b: &Aabb, p: (i64, i64, i64)) -> bool {
    b.min.x <= p.0 && p.0 <= b.max.x && b.min.y <= p.1 && p.1 <= b.max.y && b.min.z <= p.2 && p.2 <= b.max.z
}

fn scan(objects: &[Sprite], r: &Ray, t_min: Frac, t_max: Frac) -> Option<Hit> {
    let mut best: Option<Hit> = None;
    for s in objects {
        if let Some(h) = s.hit(r, t_min, t_max) {
            best = match best {
                Some(b) if b.t.at_most(&h.t) => Some(b),
                _ => Some(h),
            };
        }
    }
    best
}

fn no_samples(n: usize) -> Vec<Vec3> {
    vec![v(0, 0, 1); n]
}

fn f(n: i64) -> Frac {
    Frac::new(n, 1)
}

fn eps() -> Frac {
    Frac::new(1, 1 << 20)
}

fn far() -> Frac {
    Frac::new(i64::MAX, 1)
}

fn same(a: Frac, b: Frac) -> bool {
    a.num as i128 * b.den as i128 == b.num as i128 * a.den as i128
}

#[test]
fn merge_commutes_associates_and_covers() {
    let a = bx((0, 0, 0), (2, 3, 4));
    let b = bx((-1, 5, 1), (1, 6, 9));
    let c = bx((7, -3, 2), (8, 0, 3));
    assert_eq!(a.merge(&b), b.merge(&a));
    assert_eq!(a.merge(&b).merge(&c), a.merge(&b.merge(&c)));
    let m = a.merge(&b);
    assert_eq!(m, bx((-1, 0, 0), (2, 6, 9)));
    for p in [a.min, a.max, b.min, b.max] {
        assert!(inside(&m, (p.x, p.y, p.z)));
    }
}

fn interval_check(b: &Aabb, r: &Ray, lo: f64, hi: f64) -> bool {
    let (mut a, mut z) = (lo, hi);
    let o = [r.origin.x, r.origin.y, r.origin.z];
    let d = [r.direction.x, r.direction.y, r.direction.z];
    let mn = [b.min.x, b.min.y, b.min.z];
    let mx = [b.max.x, b.max.y, b.max.z];
    for i in 0..3 {
        if d[i] == 0 {
            if o[i] < mn[i] || o[i] > mx[i] {
                return false;
            }
        } else {
            let t1 = (mn[i] - o[i]) as f64 / d[i] as f64;
            let t2 = (mx[i] - o[i]) as f64 / d[i] as f64;
            a = a.max(t1.min(t2));
            z = z.min(t1.max(t2));
        }
    }
    a <= z
}

#[test]
fn slab_test_agrees_with_brute_force() {
    let b = bx((-3, -2, 0), (4, 5, 0));
    let dirs = [v(1, 0, 0), v(-2, 1, 1), v(0, 0, -1), v(3, -1, 2), v(0, 0, 0), v(1, 1, 0), v(2, 0, 3)];
    let origins = [v(-10, 0, 0), v(5, -4, -3), v(0, 0, 7), v(-9, 4, -6), v(0, 0, 0), v(10, 10, 0), v(-2, 0, -1)];
    for o in origins {
        for d in dirs {
            let r = Ray::new(o, d);
            for (lo, hi) in [(-20, 20), (0, 30), (1, 3), (5, 4)] {
                let brute = interval_check(&b, &r, lo as f64, hi as f64);
                assert_eq!(b.hit(&r, f(lo), f(hi)), brute, "{:?} {:?} {} {}", o, d, lo, hi);
            }
        }
    }
}

#[test]
fn ray_cannot_step_over_a_thin_light() {
    let b = bx((1, -1, -1), (1, 1, 1));
    let r = Ray::new(v(-2, 0, 0), v(2, 0, 0));
    assert!(b.hit(&r, eps(), far()));
    let emit = Color::new(700, 700, 700);
    let tree = Bvh::new(vec![Sprite::new(b, v(0, 0, 0), Material::DiffuseLight { emit })]).unwrap();
    let h = tree.hit(&r, eps(), far()).unwrap();
    assert!(same(h.t, Frac::new(3, 2)));
    assert_eq!(h.point, v(1, 0, 0));
    assert_eq!(color(&r, &tree, 3, Color::black(), &no_samples(3)), emit);
}

#[test]
fn ray_from_inside_hits_the_exit_face() {
    let s = block((-2, -2, -2), (2, 2, 2), gray());
    let h = s.hit(&Ray::new(v(0, 0, 0), v(0, 3, 0)), eps(), far()).unwrap();
    assert!(same(h.t, Frac::new(2, 3)));
    assert_eq!(h.point, v(0, 2, 0));
    assert_eq!(h.normal, v(0, -1, 0));
}

#[test]
fn slab_test_on_flat_box_along_its_plane() {
    let b = bx((0, 0, 0), (10, 10, 0));
    assert!(b.hit(&Ray::new(v(-5, 5, 0), v(1, 0, 0)), f(0), f(100)));
    assert!(!b.hit(&Ray::new(v(-5, 5, 1), v(1, 0, 0)), f(0), f(100)));
    assert!(!b.hit(&Ray::new(v(-5, 5, 0), v(1, 0, 0)), f(0), f(4)));
    assert!(b.hit(&Ray::new(v(-5, 5, 0), v(3, 0, 0)), f(0), Frac::new(5, 3)));
}

#[test]
fn sprite_hit_reports_entry_point_and_normal() {
    let s = Sprite::new(bx((0, 0, 0), (2, 2, 2)), v(10, 0, 0), gray());
    let h = s.hit(&Ray::new(v(0, 1, 1), v(1, 0, 0)), eps(), far()).unwrap();
    assert!(same(h.t, f(10)));
    assert_eq!(h.point, v(10, 1, 1));
    assert_eq!(h.normal, v(-1, 0, 0));
    assert_eq!(h.material, gray());
    let h = s.hit(&Ray::new(v(11, 9, 1), v(0, -2, 0)), eps(), far()).unwrap();
    assert!(same(h.t, Frac::new(7, 2)));
    assert_eq!(h.point, v(11, 2, 1));
    assert_eq!(h.normal, v(0, 1, 0));
    assert!(s.hit(&Ray::new(v(0, 5, 1), v(1, 0, 0)), eps(), far()).is_none());
}

#[test]
fn bvh_matches_linear_scan() {
    let mut objects = Vec::new();
    for i in 0..9i64 {
        let x = (i * 37) % 11 * 3;
        let y = (i * 5) % 7;
        objects.push(block((x, y, -i), (x + 2, y + 3, -i + 4), Material::Metal { albedo: Color::new(i as u64, 0, 0), fuzz: 0 }));
    }
    let tree = Bvh::new(objects.clone()).unwrap();
    for ox in -5..40i64 {
        for dy in [-1i64, 0, 1] {
            for dz in [-1i64, 1] {
                let r = Ray::new(v(ox, 3, -20), v(0, dy, dz));
                let a = tree.hit(&r, eps(), far());
                let b = scan(&objects, &r, eps(), far());
                assert_eq!(a.is_some(), b.is_some());
                if let (Some(a), Some(b)) = (a, b) {
                    assert!(same(a.t, b.t));
                    assert_eq!(a.point, b.point);
                }
            }
        }
    }
}

#[test]
fn bvh_from_empty_list_fails() {
    assert!(matches!(Bvh::new(Vec::new()), Err(BvhError::Empty)));
}

#[test]
fn bvh_from_one_is_a_leaf() {
    let s = block((0, 0, 0), (1, 1, 1), gray());
    match Bvh::new(vec![s]) {
        Ok(Bvh::Leaf(x)) => assert_eq!(x, s),
        _ => panic!("expected a leaf"),
    }
}

#[test]
fn bvh_from_two_is_a_node_over_two_leaves() {
    let a = block((0, 0, 0), (1, 1, 1), gray());
    let b = block((5, -2, 0), (6, 1, 3), gray());
    match Bvh::new(vec![a, b]) {
        Ok(Bvh::Node { bbox, left, right }) => {
            assert_eq!(bbox, bx((0, -2, 0), (6, 1, 3)));
            assert!(matches!(*left, Bvh::Leaf(x) if x == a));
            assert!(matches!(*right, Bvh::Leaf(x) if x == b));
        }
        _ => panic!("expected a node"),
    }
}

#[test]
fn bvh_splits_along_widest_axis_in_center_order() {
    let objs: Vec<Sprite> = [30i64, 0, 20, 10]
        .iter()
        .map(|&x| block((x, 0, 0), (x + 1, 1, 1), gray()))
        .collect();
    match Bvh::new(objs).unwrap() {
        Bvh::Node { left, right, .. } => {
            assert_eq!(left.bbox().min.x, 0);
            assert_eq!(left.bbox().max.x, 11);
            assert_eq!(right.bbox().min.x, 20);
            assert_eq!(right.bbox().max.x, 31);
        }
        _ => panic!("expected a node"),
    }
}

#[test]
fn depth_zero_is_black() {
    let tree = Bvh::new(vec![block((0, 0, 0), (1, 1, 1), Material::DiffuseLight { emit: Color::new(9, 9, 9) })]).unwrap();
    let r = Ray::new(v(0, 0, -5), v(0, 0, 1));
    assert_eq!(color(&r, &tree, 0, Color::new(5, 5, 5), &no_samples(0)), Color::black());
}

#[test]
fn light_gives_its_emission_at_any_depth() {
    let emit = Color::new(1792, 100, 7);
    let tree = Bvh::new(vec![block((-1, -1, 0), (1, 1, 0), Material::DiffuseLight { emit })]).unwrap();
    let r = Ray::new(v(0, 0, -5), v(0, 0, 1));
    for depth in [1usize, 2, 10] {
        assert_eq!(color(&r, &tree, depth, Color::new(3, 3, 3), &no_samples(depth)), emit);
        assert_eq!(trace(&r, &tree, depth, Color::new(3, 3, 3)), emit);
    }
}

#[test]
fn miss_gives_background() {
    let tree = Bvh::new(vec![block((-1, -1, 0), (1, 1, 0), gray())]).unwrap();
    let r = Ray::new(v(5, 5, -5), v(0, 0, 1));
    let bg = Color::new(40, 50, 60);
    assert_eq!(color(&r, &tree, 3, bg, &no_samples(3)), bg);
}

#[test]
fn diffuse_box_hit_head_on_is_lit_by_background() {
    let tree = Bvh::new(vec![block((-1, -1, -1), (1, 1, 1), gray())]).unwrap();
    let r = Ray::new(v(0, 0, -10), v(0, 0, 1));
    let bg = Color::new(256, 256, 256);
    let c = color(&r, &tree, 2, bg, &no_samples(2));
    assert_ne!(c, Color::black());
    assert_ne!(c, bg);
    assert_eq!(c, Color::new(128, 128, 128));
    let c = trace(&r, &tree, 4, bg);
    assert_ne!(c, Color::black());
    assert_ne!(c, bg);
}

#[test]
fn metal_without_fuzz_mirrors_exactly() {
    let metal = Material::Metal { albedo: Color::new(200, 200, 200), fuzz: 0 };
    let plane = Sprite::new(bx((-50, 0, -50), (50, 0, 50)), v(0, 0, 0), metal);
    let r = Ray::new(v(-10, 10, 3), v(1, -1, 2));
    let h = plane.hit(&r, eps(), far()).unwrap();
    assert_eq!(h.normal, v(0, 1, 0));
    let (att, out) = metal.scatter(&r, &h, v(7, -3, 5)).unwrap();
    assert_eq!(att, Color::new(200, 200, 200));
    assert_eq!(out.origin, h.point);
    assert_eq!(out.direction, v(1, 1, 2));
}

#[test]
fn metal_fuzz_adds_scaled_offset() {
    let metal = Material::Metal { albedo: Color::new(1, 2, 3), fuzz: 256 };
    let plane = Sprite::new(bx((-50, 0, -50), (50, 0, 50)), v(0, 0, 0), metal);
    let r = Ray::new(v(-10, 10, 3), v(1, -1, 2));
    let h = plane.hit(&r, eps(), far()).unwrap();
    let (_, out) = metal.scatter(&r, &h, v(1024, 0, 0)).unwrap();
    assert_eq!(out.direction, v(3, 1, 2));
    let (_, out) = metal.scatter(&r, &h, v(0, 512, -512)).unwrap();
    assert_eq!(out.direction, v(1, 2, 1));
    assert!(metal.scatter(&r, &h, v(0, -1024, 0)).is_none());
}

#[test]
fn lambertian_and_isotropic_directions() {
    let m = gray();
    let plane = Sprite::new(bx((-50, 0, -50), (50, 0, 50)), v(0, 0, 0), m);
    let r = Ray::new(v(0, 10, 0), v(0, -1, 0));
    let h = plane.hit(&r, eps(), far()).unwrap();
    let (_, out) = m.scatter(&r, &h, v(3, 4, 5)).unwrap();
    assert_eq!(out.direction, v(3, SAMPLE_MAX + 4, 5));
    let (_, out) = m.scatter(&r, &h, v(0, -SAMPLE_MAX, 0)).unwrap();
    assert_eq!(out.direction, v(0, SAMPLE_MAX, 0));
    let iso = Material::Isotropic { albedo: Color::new(1, 1, 1) };
    let (_, out) = iso.scatter(&r, &h, v(2, 0, -1)).unwrap();
    assert_eq!(out.direction, v(2, 0, -1));
    let (_, out) = iso.scatter(&r, &h, v(0, 0, 0)).unwrap();
    assert_eq!(out.direction, v(0, -1, 0));
    assert!(Material::DiffuseLight { emit: Color::new(1, 1, 1) }.scatter(&r, &h, v(1, 1, 1)).is_none());
}

#[test]
fn emission_and_attenuation_combine() {
    let light_metal = Sprite::new(bx((-5, 0, -5), (5, 0, 5)), v(0, 0, 0), Material::Metal { albedo: Color::new(128, 64, 256), fuzz: 0 });
    let light = Sprite::new(bx((-5, 20, -5), (5, 20, 5)), v(0, 0, 0), Material::DiffuseLight { emit: Color::new(100, 100, 100) });
    let tree = Bvh::new(vec![light_metal, light]).unwrap();
    let r = Ray::new(v(0, 10, 0), v(0, -1, 0));
    assert_eq!(color(&r, &tree, 2, Color::black(), &no_samples(2)), Color::new(50, 25, 100));
    assert_eq!(color(&r, &tree, 1, Color::black(), &no_samples(1)), Color::black());
}

#[test]
fn random_offsets_stay_in_range_and_vary() {
    let mut seen = std::collections::HashSet::new();
    for _ in 0..200 {
        let s = random_offset();
        let n = s.x * s.x + s.y * s.y + s.z * s.z;
        assert!(0 < n && n <= SAMPLE_MAX * SAMPLE_MAX);
        seen.insert((s.x, s.y, s.z));
    }
    assert!(seen.len() > 1);
}

#[test]
fn final_scene_light_is_seen_from_below() {
    let scene = finalScene();
    assert_eq!(scene.bbox().min.y, 0);
    assert_eq!(scene.bbox().max.y, 554);
    assert_eq!(scene.bbox().min.x, -1000);
    assert_eq!(scene.bbox().max.x, 1000);
    let r = Ray::new(v(273, 300, 279), v(0, 1, 0));
    let h = scene.hit(&r, eps(), far()).unwrap();
    assert!(same(h.t, f(254)));
    assert_eq!(trace(&r, &scene, 5, Color::black()), Color::new(1792, 1792, 1792));
}

#[test]
fn bvh_splits_along_y_when_spread_there() {
    let objs: Vec<Sprite> = [(0i64, 40i64), (3, 0), (1, 25), (2, 10), (0, 5)]
        .iter()
        .map(|&(x, y)| block((x, y, 0), (x + 1, y + 1, 1), gray()))
        .collect();
    match Bvh::new(objs).unwrap() {
        Bvh::Node { bbox, left, right } => {
            assert_eq!(bbox, bx((0, 0, 0), (4, 41, 1)));
            assert_eq!(left.bbox().min.y, 0);
            assert_eq!(left.bbox().max.y, 6);
            assert_eq!(right.bbox().min.y, 10);
            assert_eq!(right.bbox().max.y, 41);
        }
        _ => panic!("expected a node"),
    }
}

#[test]
fn built_scene_uses_the_given_heights() {
    let heights: Vec<i64> = (0..400).map(|k| 1 + (k % 100) as i64).collect();
    let scene = build_scene(&heights);
    assert_eq!(scene.bbox().max.y, 554);
    let r = Ray::new(v(-950, 500, -250), v(0, -1, 0));
    let h = scene.hit(&r, eps(), far()).unwrap();
    assert_eq!(h.point, v(-950, 8, -250));
    assert!(same(h.t, f(492)));
}

#[test]
fn offsets_are_kept_only_inside_the_ball() {
    assert_eq!(offset_from(3, -4, 5), Some(v(3, -4, 5)));
    assert_eq!(offset_from(0, 0, SAMPLE_MAX), Some(v(0, 0, SAMPLE_MAX)));
    assert_eq!(offset_from(0, 0, 0), None);
    assert_eq!(offset_from(SAMPLE_MAX, SAMPLE_MAX, 0), None);
    assert_eq!(offset_from(-600, 600, 500), Some(v(-600, 600, 500)));
    assert_eq!(offset_from(-600, 600, 600), None);
}

#[test]
fn fuzzed_direction_beyond_range_is_halved() {
    let big: i64 = 1 << 24;
    let metal = Material::Metal { albedo: Color::new(9, 9, 9), fuzz: 256 };
    let plane = Sprite::new(bx((-50, 0, -50), (50, 0, 50)), v(0, 0, 0), metal);
    let r = Ray::new(v(0, 100, 0), v(0, -big, 0));
    let h = plane.hit(&r, eps(), far()).unwrap();
    assert!(same(h.t, Frac::new(100, big)));
    assert_eq!(h.point, v(0, 0, 0));
    let (_, out) = metal.scatter(&r, &h, v(0, 1024, 0)).unwrap();
    assert_eq!(out.direction, v(0, big, 0));
    let (_, out) = metal.scatter(&r, &h, v(1024, 0, 0)).unwrap();
    assert_eq!(out.direction, v(big, big, 0));
}
