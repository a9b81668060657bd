use vstd::prelude::*;
use crate::aabb::Aabb;
use crate::bvh::Bvh;
use crate::material::{Color, Material};
use crate::render::random_in;
use crate::sprite::Sprite;
use crate::vec3::Vec3;

verus! {

/// Boxes per side of the floor.
pub const FLOOR_SIDE: usize = 20;

/// Width and depth of a floor box.
pub const FLOOR_CELL: i64 = 100;

pub open spec fn ground() -> Material {
    Material::Lambertian { albedo: Color { r: 123, g: 212, b: 136 } }
}

/// Floor box `k` (row `k / FLOOR_SIDE`, column `k % FLOOR_SIDE`), of height `h`.
pub open spec fn floor_box(k: int, h: int) -> Sprite {
    Sprite {
        shape: Aabb {
            min: Vec3 { x: 0, y: 0, z: 0 },
            max: Vec3 { x: FLOOR_CELL, y: h as i64, z: FLOOR_CELL },
        },
        offset: Vec3 {
            x: (-1000 + (k / FLOOR_SIDE as int) * FLOOR_CELL) as i64,
            y: 0,
            z: (-1000 + (k % FLOOR_SIDE as int) * FLOOR_CELL) as i64,
        },
        material: ground(),
    }
}

/// The ceiling light: a flat 300 by 265 panel at height 554.
pub open spec fn ceiling_light() -> Sprite {
    Sprite {
        shape: Aabb { min: Vec3 { x: 0, y: 0, z: 0 }, max: Vec3 { x: 300, y: 0, z: 265 } },
        offset: Vec3 { x: 123, y: 554, z: 147 },
        material: Material::DiffuseLight { emit: Color { r: 1792, g: 1792, b: 1792 } },
    }
}

/// The demo scene's objects for the given floor heights.
pub open spec fn demo_objects(heights: Seq<int>) -> Seq<Sprite> {
    Seq::new(heights.len(), |k: int| floor_box(k, heights[k])).push(ceiling_light())
}

/// The demo scene for the given floor heights: a floor of 20 by 20 boxes,
/// lit by a ceiling panel, under one hierarchy.
pub fn build_scene(heights: &Vec<i64>) -> (r: Bvh)
    requires
        heights@.len() == FLOOR_SIDE * FLOOR_SIDE,
        forall|k: int| 0 <= k < heights@.len() ==> 1 <= #[trigger] heights@[k] < 101,
    ensures
        r.wf(),
        r.prims().to_multiset() == demo_objects(heights@.map_values(|h: i64| h as int)).to_multiset(),
{
    let ghost hs = heights@.map_values(|h: i64| h as int);
    let ground_material = Material::Lambertian { albedo: Color { r: 123, g: 212, b: 136 } };
    let mut objects: Vec<Sprite> = Vec::new();
    let n: usize = FLOOR_SIDE * FLOOR_SIDE;
    let mut k: usize = 0;
    while k < n
        invariant
            n == FLOOR_SIDE * FLOOR_SIDE,
            heights@.len() == n,
            hs == heights@.map_values(|h: i64| h as int),
            forall|m: int| 0 <= m < heights@.len() ==> 1 <= #[trigger] heights@[m] < 101,
            k <= n,
            ground_material == ground(),
            objects@.len() == k,
            forall|m: int| 0 <= m < k ==> #[trigger] objects@[m] == floor_box(m, hs[m]),
            forall|m: int| 0 <= m < k ==> (#[trigger] objects@[m]).wf(),
        decreases n - k,
    {
        let h = heights[k];
        let i = (k / FLOOR_SIDE) as i64;
        let j = (k % FLOOR_SIDE) as i64;
        let s = Sprite {
            shape: Aabb { min: Vec3 { x: 0, y: 0, z: 0 }, max: Vec3 { x: FLOOR_CELL, y: h, z: FLOOR_CELL } },
            offset: Vec3 { x: -1000 + i * FLOOR_CELL, y: 0, z: -1000 + j * FLOOR_CELL },
            material: ground_material,
        };
        objects.push(s);
        k = k + 1;
    }
    let light = Sprite {
        shape: Aabb { min: Vec3 { x: 0, y: 0, z: 0 }, max: Vec3 { x: 300, y: 0, z: 265 } },
        offset: Vec3 { x: 123, y: 554, z: 147 },
        material: Material::DiffuseLight { emit: Color { r: 1792, g: 1792, b: 1792 } },
    };
    objects.push(light);
    proof {
        assert(objects@ =~= demo_objects(hs));
    }
    Bvh::new(objects).unwrap()
}

/// The demo scene with floor heights drawn at random from `[1, 101)`.
///
/// It holds the parts of the demo that boxes can model: the floor and the
/// ceiling light. The demo's glass, metal, moving, subsurface and textured
/// spheres, its foam of small spheres and its fog are not represented.
#[allow(non_snake_case)]
pub fn finalScene() -> (r: Bvh)
    ensures
        r.wf(),
        exists|heights: Seq<i64>|
            {
                &&& heights.len() == FLOOR_SIDE * FLOOR_SIDE
                &&& forall|k: int| 0 <= k < heights.len() ==> 1 <= #[trigger] heights[k] < 101
                &&& r.prims().to_multiset() == demo_objects(heights.map_values(|h: i64| h as int)).to_multiset()
            },
{
    let mut heights: Vec<i64> = Vec::new();
    let n: usize = FLOOR_SIDE * FLOOR_SIDE;
    while heights.len() < n
        invariant
            n == FLOOR_SIDE * FLOOR_SIDE,
            heights@.len() <= n,
            forall|k: int| 0 <= k < heights@.len() ==> 1 <= #[trigger] heights@[k] < 101,
        decreases n - heights@.len(),
    {
        heights.push(random_in(1, 101));
    }
    build_scene(&heights)
}

} // verus!
