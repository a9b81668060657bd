use vstd::prelude::*;
use vstd::seq_lib::lemma_multiset_commutative;
use crate::aabb::{lemma_inside_contains_at, lemma_inside_trans, lemma_merge_contains, Aabb};
use crate::arith::{lemma_le_trans, Frac};
use crate::sprite::{Hit, Sprite};
use crate::vec3::Ray;

verus! {

/// Of two optional hits, the one with the smaller parameter; the first on a tie.
pub open spec fn nearer(a: Option<Hit>, b: Option<Hit>) -> Option<Hit> {
    match a {
        None => b,
        Some(x) => match b {
            None => a,
            Some(y) => if x.t.le(y.t) { a } else { b },
        },
    }
}

/// The nearest hit over a list of sprites, tested one by one in order; the
/// earliest sprite wins a tie.
pub open spec fn closest(s: Seq<Sprite>, ray: Ray, t_min: Frac, t_max: Frac) -> Option<Hit>
    decreases s.len(),
{
    if s.len() == 0 {
        None
    } else {
        nearer(closest(s.drop_last(), ray, t_min, t_max), s.last().hit_spec(ray, t_min, t_max))
    }
}

/// The hit parameter, if any, is well formed.
pub open spec fn t_wf(h: Option<Hit>) -> bool {
    h matches Some(x) ==> x.t.wf()
}

/// All the sprites are well formed.
pub open spec fn all_wf(s: Seq<Sprite>) -> bool {
    forall|i: int| 0 <= i < s.len() ==> (#[trigger] s[i]).wf()
}

pub proof fn lemma_nearer_assoc(a: Option<Hit>, b: Option<Hit>, c: Option<Hit>)
    requires
        t_wf(a),
        t_wf(b),
        t_wf(c),
    ensures
        nearer(nearer(a, b), c) == nearer(a, nearer(b, c)),
        t_wf(nearer(a, b)),
{
    if a is Some && b is Some && c is Some {
        let (x, y, z) = (a->0.t, b->0.t, c->0.t);
        if x.le(y) && y.le(z) { lemma_le_trans(x, y, z); }
        if y.le(z) && z.le(x) { lemma_le_trans(y, z, x); }
        if z.le(x) && x.le(y) { lemma_le_trans(z, x, y); }
        if x.le(z) && z.le(y) { lemma_le_trans(x, z, y); }
        if y.le(x) && x.le(z) { lemma_le_trans(y, x, z); }
        if z.le(y) && y.le(x) { lemma_le_trans(z, y, x); }
    }
}

/// Every hit the scan finds has a well-formed parameter.
pub proof fn lemma_closest_t_wf(s: Seq<Sprite>, ray: Ray, t_min: Frac, t_max: Frac)
    requires
        all_wf(s),
        ray.wf(),
        t_min.wf(),
        t_max.wf(),
    ensures
        t_wf(closest(s, ray, t_min, t_max)),
    decreases s.len(),
{
    if s.len() > 0 {
        lemma_closest_t_wf(s.drop_last(), ray, t_min, t_max);
        assert(s.last() == s[s.len() - 1]);
        if s.last().hit_spec(ray, t_min, t_max) is Some {
            s.last().lemma_hit_facts(ray, t_min, t_max);
        }
        lemma_nearer_assoc(closest(s.drop_last(), ray, t_min, t_max), s.last().hit_spec(ray, t_min, t_max), None);
    }
}

/// Scanning a concatenation is taking the nearer of the scans of the parts.
pub proof fn lemma_closest_concat(l: Seq<Sprite>, r: Seq<Sprite>, ray: Ray, t_min: Frac, t_max: Frac)
    requires
        all_wf(l),
        all_wf(r),
        ray.wf(),
        t_min.wf(),
        t_max.wf(),
    ensures
        closest(l + r, ray, t_min, t_max) == nearer(
            closest(l, ray, t_min, t_max),
            closest(r, ray, t_min, t_max),
        ),
    decreases r.len(),
{
    if r.len() == 0 {
        assert(l + r =~= l);
    } else {
        assert((l + r).drop_last() =~= l + r.drop_last());
        assert((l + r).last() == r.last());
        assert(all_wf(r.drop_last()));
        lemma_closest_concat(l, r.drop_last(), ray, t_min, t_max);
        lemma_closest_t_wf(l, ray, t_min, t_max);
        lemma_closest_t_wf(r.drop_last(), ray, t_min, t_max);
        assert(r.last() == r[r.len() - 1]);
        if r.last().hit_spec(ray, t_min, t_max) is Some {
            r.last().lemma_hit_facts(ray, t_min, t_max);
        }
        lemma_nearer_assoc(
            closest(l, ray, t_min, t_max),
            closest(r.drop_last(), ray, t_min, t_max),
            r.last().hit_spec(ray, t_min, t_max),
        );
    }
}

/// A hit found by the scan is the hit of one of the sprites.
pub proof fn lemma_closest_member(s: Seq<Sprite>, ray: Ray, t_min: Frac, t_max: Frac)
    requires
        closest(s, ray, t_min, t_max) is Some,
    ensures
        exists|i: int|
            0 <= i < s.len() && #[trigger] s[i].hit_spec(ray, t_min, t_max) == closest(
                s,
                ray,
                t_min,
                t_max,
            ),
    decreases s.len(),
{
    let c = closest(s.drop_last(), ray, t_min, t_max);
    if c is Some && closest(s, ray, t_min, t_max) == c {
        lemma_closest_member(s.drop_last(), ray, t_min, t_max);
        let i = choose|i: int|
            0 <= i < s.drop_last().len() && #[trigger] s.drop_last()[i].hit_spec(ray, t_min, t_max)
                == c;
        assert(s[i] == s.drop_last()[i]);
    } else {
        assert(s[s.len() - 1] == s.last());
    }
}

/// Relies on `slice::sort_by_key`: a stable sort, which puts the items in
/// ascending order of the key and only reorders them.
#[verifier::external_body]
fn sort_by_centroid(v: &mut Vec<Sprite>, a: usize)
    ensures
        final(v)@.to_multiset() == old(v)@.to_multiset(),
        final(v)@.len() == old(v)@.len(),
        forall|i: int, j: int|
            0 <= i < j < final(v)@.len() ==> #[trigger] final(v)@[i].centroid_spec(a as int)
                <= #[trigger] final(v)@[j].centroid_spec(a as int),
{
    v.sort_by_key(|s| s.centroid_key(a));
}

/// Sequences with the same items agree on whether all of them are well formed.
proof fn lemma_wf_kept(a: Seq<Sprite>, b: Seq<Sprite>)
    requires
        a.to_multiset() == b.to_multiset(),
        forall|i: int| 0 <= i < a.len() ==> (#[trigger] a[i]).wf(),
    ensures
        forall|i: int| 0 <= i < b.len() ==> (#[trigger] b[i]).wf(),
{
    broadcast use vstd::seq_lib::group_to_multiset_ensures;

    assert forall|i: int| 0 <= i < b.len() implies (#[trigger] b[i]).wf() by {
        assert(b.contains(b[i]));
        assert(b.to_multiset().count(b[i]) > 0);
        assert(a.to_multiset().count(b[i]) > 0);
        assert(a.contains(b[i]));
    }
}

/// The least center, on axis `a`, of the boxes of a non-empty list.
pub open spec fn center_lo(s: Seq<Sprite>, a: int) -> int
    decreases s.len(),
{
    if s.len() <= 1 {
        s[0].centroid_spec(a)
    } else {
        let m = center_lo(s.drop_last(), a);
        if s.last().centroid_spec(a) < m { s.last().centroid_spec(a) } else { m }
    }
}

/// The greatest center, on axis `a`, of the boxes of a non-empty list.
pub open spec fn center_hi(s: Seq<Sprite>, a: int) -> int
    decreases s.len(),
{
    if s.len() <= 1 {
        s[0].centroid_spec(a)
    } else {
        let m = center_hi(s.drop_last(), a);
        if s.last().centroid_spec(a) > m { s.last().centroid_spec(a) } else { m }
    }
}

pub open spec fn spread(s: Seq<Sprite>, a: int) -> int {
    center_hi(s, a) - center_lo(s, a)
}

/// The axis along which the centers of the boxes are spread the widest;
/// the first such axis on a tie.
pub open spec fn widest_axis(s: Seq<Sprite>) -> int {
    if spread(s, 0) >= spread(s, 1) && spread(s, 0) >= spread(s, 2) {
        0
    } else if spread(s, 1) >= spread(s, 2) {
        1
    } else {
        2
    }
}

proof fn lemma_center_bounds(s: Seq<Sprite>, a: int)
    requires
        s.len() >= 1,
    ensures
        center_lo(s, a) <= center_hi(s, a),
        exists|i: int| 0 <= i < s.len() && center_lo(s, a) == #[trigger] s[i].centroid_spec(a),
        exists|i: int| 0 <= i < s.len() && center_hi(s, a) == #[trigger] s[i].centroid_spec(a),
    decreases s.len(),
{
    if s.len() > 1 {
        lemma_center_bounds(s.drop_last(), a);
        let i = choose|i: int| 0 <= i < s.drop_last().len() && center_lo(s.drop_last(), a) == #[trigger] s.drop_last()[i].centroid_spec(a);
        let j = choose|j: int| 0 <= j < s.drop_last().len() && center_hi(s.drop_last(), a) == #[trigger] s.drop_last()[j].centroid_spec(a);
        assert(s[i] == s.drop_last()[i]);
        assert(s[j] == s.drop_last()[j]);
        assert(s[s.len() - 1] == s.last());
    }
}

/// Sequences with the same items have the same length and hold the same values.
proof fn lemma_same_items(a: Seq<Sprite>, b: Seq<Sprite>)
    requires
        a.to_multiset() == b.to_multiset(),
    ensures
        a.len() == b.len(),
        forall|x: Sprite| a.contains(x) ==> b.contains(x),
{
    broadcast use vstd::seq_lib::group_to_multiset_ensures;

    assert(a.len() == a.to_multiset().len());
    assert(b.len() == b.to_multiset().len());
    assert forall|x: Sprite| a.contains(x) implies b.contains(x) by {
        assert(a.to_multiset().count(x) > 0);
    }
}

/// Finds the axis of widest spread of the centers of the sprites' boxes.
fn spread_axis(objects: &Vec<Sprite>) -> (r: usize)
    requires
        objects@.len() >= 1,
    ensures
        r == widest_axis(objects@),
{
    let mut lo0 = objects[0].centroid_key(0);
    let mut hi0 = lo0;
    let mut lo1 = objects[0].centroid_key(1);
    let mut hi1 = lo1;
    let mut lo2 = objects[0].centroid_key(2);
    let mut hi2 = lo2;
    let mut i: usize = 1;
    proof {
        assert(objects@.subrange(0, 1).len() == 1);
        assert(objects@.subrange(0, 1)[0] == objects@[0]);
    }
    while i < objects.len()
        invariant
            1 <= i <= objects@.len(),
            lo0 == center_lo(objects@.subrange(0, i as int), 0),
            hi0 == center_hi(objects@.subrange(0, i as int), 0),
            lo1 == center_lo(objects@.subrange(0, i as int), 1),
            hi1 == center_hi(objects@.subrange(0, i as int), 1),
            lo2 == center_lo(objects@.subrange(0, i as int), 2),
            hi2 == center_hi(objects@.subrange(0, i as int), 2),
        decreases objects@.len() - i,
    {
        let c0 = objects[i].centroid_key(0);
        let c1 = objects[i].centroid_key(1);
        let c2 = objects[i].centroid_key(2);
        proof {
            let p = objects@.subrange(0, i + 1);
            assert(p.drop_last() =~= objects@.subrange(0, i as int));
            assert(p.last() == objects@[i as int]);
        }
        if c0 < lo0 { lo0 = c0; }
        if c0 > hi0 { hi0 = c0; }
        if c1 < lo1 { lo1 = c1; }
        if c1 > hi1 { hi1 = c1; }
        if c2 < lo2 { lo2 = c2; }
        if c2 > hi2 { hi2 = c2; }
        i = i + 1;
    }
    proof {
        assert(objects@.subrange(0, i as int) =~= objects@);
        lemma_center_bounds(objects@, 0);
        lemma_center_bounds(objects@, 1);
        lemma_center_bounds(objects@, 2);
    }
    let s0 = hi0 - lo0;
    let s1 = hi1 - lo1;
    let s2 = hi2 - lo2;
    if s0 >= s1 && s0 >= s2 {
        0
    } else if s1 >= s2 {
        1
    } else {
        2
    }
}

/// Reason the hierarchy could not be built.
#[derive(Clone, Copy, Debug, PartialEq, Eq, Structural)]
pub enum BvhError {
    /// No object was given.
    Empty,
}

/// A bounding volume hierarchy over sprites: a leaf holds one sprite, an
/// interior node two subtrees and the merge of their boxes.
#[derive(Debug)]
pub enum Bvh {
    Leaf(Sprite),
    Node { bbox: Aabb, left: Box<Bvh>, right: Box<Bvh> },
}

impl Bvh {
    pub open spec fn bbox_spec(self) -> Aabb {
        match self {
            Bvh::Leaf(s) => s.world_box(),
            Bvh::Node { bbox, .. } => bbox,
        }
    }

    /// The sprites at the leaves, left to right.
    pub open spec fn prims(self) -> Seq<Sprite>
        decreases self,
    {
        match self {
            Bvh::Leaf(s) => seq![s],
            Bvh::Node { left, right, .. } => left.prims() + right.prims(),
        }
    }

    /// Sprites well formed and each node's box the merge of its children's.
    pub open spec fn wf(self) -> bool
        decreases self,
    {
        match self {
            Bvh::Leaf(s) => s.wf(),
            Bvh::Node { bbox, left, right } => {
                &&& left.wf()
                &&& right.wf()
                &&& bbox == left.bbox_spec().merged(right.bbox_spec())
            },
        }
    }

    /// The box of a well-formed tree is well formed and holds the box of
    /// every sprite under it.
    pub proof fn lemma_wf_facts(self)
        requires
            self.wf(),
        ensures
            self.bbox_spec().wf(),
            self.prims().len() >= 1,
            forall|i: int|
                0 <= i < self.prims().len() ==> (#[trigger] self.prims()[i]).wf()
                    && self.prims()[i].world_box().inside(self.bbox_spec()),
        decreases self,
    {
        match self {
            Bvh::Leaf(s) => {
                assert(s.world_box().inside(s.world_box()));
            },
            Bvh::Node { bbox, left, right } => {
                left.lemma_wf_facts();
                right.lemma_wf_facts();
                lemma_merge_contains(left.bbox_spec(), right.bbox_spec());
                let lp = left.prims();
                let rp = right.prims();
                assert forall|i: int| 0 <= i < self.prims().len() implies (#[trigger] self.prims()[i]).wf()
                    && self.prims()[i].world_box().inside(self.bbox_spec()) by {
                    if i < lp.len() {
                        assert(self.prims()[i] == lp[i]);
                        lemma_inside_trans(lp[i].world_box(), left.bbox_spec(), bbox);
                    } else {
                        assert(self.prims()[i] == rp[i - lp.len()]);
                        lemma_inside_trans(rp[i - lp.len()].world_box(), right.bbox_spec(), bbox);
                    }
                }
            },
        }
    }

    /// A ray that misses the box of a well-formed tree hits none of its sprites.
    pub proof fn lemma_prune(self, ray: Ray, t_min: Frac, t_max: Frac)
        requires
            self.wf(),
            ray.wf(),
            t_min.wf(),
            t_max.wf(),
            !self.bbox_spec().meets(ray, t_min, t_max),
        ensures
            closest(self.prims(), ray, t_min, t_max) is None,
    {
        if closest(self.prims(), ray, t_min, t_max) is Some {
            self.lemma_wf_facts();
            lemma_closest_member(self.prims(), ray, t_min, t_max);
            let s = self.prims();
            let i = choose|i: int|
                0 <= i < s.len() && #[trigger] s[i].hit_spec(ray, t_min, t_max) == closest(
                    s,
                    ray,
                    t_min,
                    t_max,
                );
            s[i].lemma_hit_facts(ray, t_min, t_max);
            let t = s[i].hit_spec(ray, t_min, t_max)->0.t;
            let w = choose|w: Frac| w.wf() && t_min.le(w) && w.le(t_max) && #[trigger] s[i].world_box().contains_at(ray, w);
            lemma_inside_contains_at(s[i].world_box(), self.bbox_spec(), ray, w);
        }
    }

    /// Builds the hierarchy over a non-empty list of sprites: one sprite
    /// makes a leaf, two make a node over two leaves, more are sorted by the
    /// centers of their boxes along the axis of widest spread and split at
    /// the middle.
    pub fn new(objects: Vec<Sprite>) -> (r: Result<Bvh, BvhError>)
        requires
            forall|i: int| 0 <= i < objects@.len() ==> (#[trigger] objects@[i]).wf(),
        ensures
            (r is Err) == (objects@.len() == 0),
            r is Err ==> r == Err::<Bvh, BvhError>(BvhError::Empty),
            r is Ok ==> r->Ok_0.wf() && r->Ok_0.prims().to_multiset() == objects@.to_multiset(),
            objects@.len() == 1 ==> r == Ok::<Bvh, BvhError>(Bvh::Leaf(objects@[0])),
            objects@.len() == 2 ==> {
                &&& r is Ok
                &&& r->Ok_0 is Node
                &&& *r->Ok_0->left == Bvh::Leaf(objects@[0])
                &&& *r->Ok_0->right == Bvh::Leaf(objects@[1])
            },
            objects@.len() >= 3 ==> {
                &&& r is Ok
                &&& r->Ok_0 is Node
                &&& r->Ok_0->left.prims().len() == objects@.len() / 2
                &&& forall|i: int, j: int|
                    0 <= i < r->Ok_0->left.prims().len() && 0 <= j < r->Ok_0->right.prims().len()
                        ==> (#[trigger] r->Ok_0->left.prims()[i]).centroid_spec(widest_axis(objects@))
                        <= (#[trigger] r->Ok_0->right.prims()[j]).centroid_spec(widest_axis(objects@))
            },
        decreases objects@.len(),
    {
        let n = objects.len();
        if n == 0 {
            return Err(BvhError::Empty);
        }
        if n == 1 {
            let s = objects[0];
            proof {
                assert(objects@ =~= seq![s]);
            }
            return Ok(Bvh::Leaf(s));
        }
        if n == 2 {
            let a = objects[0];
            let b = objects[1];
            let bbox = a.bounding_box().merge(&b.bounding_box());
            let t = Bvh::Node { bbox, left: Box::new(Bvh::Leaf(a)), right: Box::new(Bvh::Leaf(b)) };
            proof {
                assert(objects@ =~= seq![a] + seq![b]);
                assert(Bvh::Leaf(a).wf());
                assert(Bvh::Leaf(b).wf());
                assert(t.wf());
                assert(Bvh::Leaf(a).prims() == seq![a]);
                assert(Bvh::Leaf(b).prims() == seq![b]);
                assert(t.prims() =~= seq![a] + seq![b]);
            }
            return Ok(t);
        }
        let axis = spread_axis(&objects);
        let mut first = objects;
        sort_by_centroid(&mut first, axis);
        let ghost sorted = first@;
        proof {
            lemma_wf_kept(objects@, sorted);
        }
        let second = first.split_off(n / 2);
        proof {
            assert(sorted =~= first@ + second@);
        }
        let left = match Bvh::new(first) {
            Ok(t) => t,
            Err(e) => return Err(e),
        };
        let right = match Bvh::new(second) {
            Ok(t) => t,
            Err(e) => return Err(e),
        };
        let bbox = left.bbox().merge(&right.bbox());
        proof {
            lemma_multiset_commutative(left.prims(), right.prims());
            lemma_multiset_commutative(first@, second@);
            let lp = left.prims();
            let rp = right.prims();
            let h = (n / 2) as int;
            lemma_same_items(lp, first@);
            lemma_same_items(rp, second@);
            assert forall|i: int, j: int| 0 <= i < lp.len() && 0 <= j < rp.len() implies (#[trigger] lp[i]).centroid_spec(axis as int)
                <= (#[trigger] rp[j]).centroid_spec(axis as int) by {
                assert(first@.contains(lp[i]));
                assert(second@.contains(rp[j]));
                let p = choose|p: int| 0 <= p < first@.len() && first@[p] == lp[i];
                let q = choose|q: int| 0 <= q < second@.len() && second@[q] == rp[j];
                assert(sorted[p] == lp[i]);
                assert(sorted[h + q] == rp[j]);
            }
        }
        Ok(Bvh::Node { bbox, left: Box::new(left), right: Box::new(right) })
    }

    /// A hit of a well-formed tree has a lattice point in range, an axis normal and a
    /// well-formed material.
    pub proof fn lemma_hit_facts(self, ray: Ray, t_min: Frac, t_max: Frac)
        requires
            self.wf(),
            ray.wf(),
            t_min.wf(),
            t_max.wf(),
            closest(self.prims(), ray, t_min, t_max) is Some,
        ensures
            ({
                let h = closest(self.prims(), ray, t_min, t_max)->0;
                &&& h.t.wf()
                &&& h.point.in_range()
                &&& h.normal.is_axis_unit()
                &&& h.material.wf()
            }),
    {
        self.lemma_wf_facts();
        lemma_closest_member(self.prims(), ray, t_min, t_max);
        let s = self.prims();
        let i = choose|i: int|
            0 <= i < s.len() && #[trigger] s[i].hit_spec(ray, t_min, t_max) == closest(
                s,
                ray,
                t_min,
                t_max,
            );
        s[i].lemma_hit_facts(ray, t_min, t_max);
    }

    /// The material of a hit of a well-formed tree is well formed.
    pub proof fn lemma_hit_material(self, ray: Ray, t_min: Frac, t_max: Frac)
        requires
            self.wf(),
            closest(self.prims(), ray, t_min, t_max) is Some,
        ensures
            closest(self.prims(), ray, t_min, t_max)->0.material.wf(),
    {
        self.lemma_wf_facts();
        lemma_closest_member(self.prims(), ray, t_min, t_max);
    }

    /// The box of the tree.
    pub fn bbox(&self) -> (r: Aabb)
        requires
            self.wf(),
        ensures
            r == self.bbox_spec(),
    {
        match self {
            Bvh::Leaf(s) => s.bounding_box(),
            Bvh::Node { bbox, .. } => *bbox,
        }
    }

    /// The nearest hit of the ray over `[t_min, t_max]` among the sprites of
    /// the tree, skipping every subtree whose box the ray misses. It is
    /// exactly what a scan of the leaves in order finds.
    pub fn hit(&self, ray: &Ray, t_min: Frac, t_max: Frac) -> (r: Option<Hit>)
        requires
            self.wf(),
            ray.wf(),
            t_min.wf(),
            t_max.wf(),
        ensures
            r == closest(self.prims(), *ray, t_min, t_max),
        decreases self,
    {
        match self {
            Bvh::Leaf(s) => {
                proof {
                    assert(seq![*s].drop_last() =~= Seq::<Sprite>::empty());
                    assert(closest(Seq::<Sprite>::empty(), *ray, t_min, t_max) is None);
                    assert(seq![*s].last() == *s);
                }
                s.hit(ray, t_min, t_max)
            },
            Bvh::Node { bbox, left, right } => {
                proof {
                    left.lemma_wf_facts();
                    right.lemma_wf_facts();
                    lemma_closest_concat(left.prims(), right.prims(), *ray, t_min, t_max);
                    self.lemma_wf_facts();
                }
                if !bbox.hit(ray, t_min, t_max) {
                    proof {
                        self.lemma_prune(*ray, t_min, t_max);
                    }
                    return None;
                }
                let a = left.hit(ray, t_min, t_max);
                let b = right.hit(ray, t_min, t_max);
                match a {
                    None => b,
                    Some(x) => match b {
                        None => a,
                        Some(y) => if x.t.at_most(&y.t) { a } else { b },
                    },
                }
            },
        }
    }
}

/// The scan finds no hit exactly when no sprite is hit.
pub proof fn lemma_closest_none(s: Seq<Sprite>, ray: Ray, t_min: Frac, t_max: Frac)
    ensures
        (closest(s, ray, t_min, t_max) is None) == (forall|i: int|
            0 <= i < s.len() ==> (#[trigger] s[i].hit_spec(ray, t_min, t_max)) is None),
    decreases s.len(),
{
    if s.len() > 0 {
        let p = s.drop_last();
        lemma_closest_none(p, ray, t_min, t_max);
        assert forall|i: int| 0 <= i < p.len() implies p[i] == s[i] by {}
        assert(s[s.len() - 1] == s.last());
        if closest(s, ray, t_min, t_max) is Some {
            if closest(p, ray, t_min, t_max) is Some {
                let i = choose|i: int| 0 <= i < p.len() && (#[trigger] p[i].hit_spec(ray, t_min, t_max)) is Some;
                assert(s[i].hit_spec(ray, t_min, t_max) is Some);
            }
        }
    }
}

/// Every sprite of `s` other than `w` misses, or is hit strictly later
/// than `w`.
pub open spec fn nearest_alone(s: Seq<Sprite>, w: Sprite, ray: Ray, t_min: Frac, t_max: Frac) -> bool {
    forall|k: int|
        0 <= k < s.len() && s[k] != w && (#[trigger] s[k].hit_spec(ray, t_min, t_max)) is Some
            ==> !s[k].hit_spec(ray, t_min, t_max)->0.t.le(w.hit_spec(ray, t_min, t_max)->0.t)
}

/// When the list holds `w`, which is hit, and every other sprite is hit
/// strictly later or not at all, the scan finds exactly the hit of `w`.
pub proof fn lemma_closest_unique(s: Seq<Sprite>, w: Sprite, ray: Ray, t_min: Frac, t_max: Frac)
    requires
        s.contains(w),
        w.hit_spec(ray, t_min, t_max) is Some,
        nearest_alone(s, w, ray, t_min, t_max),
    ensures
        closest(s, ray, t_min, t_max) == w.hit_spec(ray, t_min, t_max),
    decreases s.len(),
{
    let p = s.drop_last();
    let h = w.hit_spec(ray, t_min, t_max);
    assert forall|i: int| 0 <= i < p.len() implies p[i] == s[i] by {}
    assert(s[s.len() - 1] == s.last());
    assert(nearest_alone(p, w, ray, t_min, t_max)) by {
        assert forall|k: int|
            0 <= k < p.len() && p[k] != w && (#[trigger] p[k].hit_spec(ray, t_min, t_max)) is Some
                implies !p[k].hit_spec(ray, t_min, t_max)->0.t.le(h->0.t) by {
            assert(s[k] == p[k]);
        }
    }
    if p.contains(w) {
        lemma_closest_unique(p, w, ray, t_min, t_max);
    } else {
        let j = choose|j: int| 0 <= j < s.len() && s[j] == w;
        if j < s.len() - 1 {
            assert(p[j] == w);
        }
        assert(s.last() == w);
        if closest(p, ray, t_min, t_max) is Some {
            lemma_closest_member(p, ray, t_min, t_max);
            let i = choose|i: int|
                0 <= i < p.len() && #[trigger] p[i].hit_spec(ray, t_min, t_max) == closest(p, ray, t_min, t_max);
            assert(p[i] != w);
            assert(s[i] == p[i]);
        }
    }
}

/// Traversing a hierarchy built over `objects` finds a hit exactly when a
/// linear scan over `objects` does; and where one sprite alone is hit first,
/// both give that sprite's hit, with the same parameter, point, normal and
/// material.
pub proof fn lemma_bvh_matches_scan(
    tree: Bvh,
    objects: Seq<Sprite>,
    w: Sprite,
    ray: Ray,
    t_min: Frac,
    t_max: Frac,
)
    requires
        tree.wf(),
        tree.prims().to_multiset() == objects.to_multiset(),
    ensures
        (closest(tree.prims(), ray, t_min, t_max) is Some) == (closest(objects, ray, t_min, t_max) is Some),
        objects.contains(w) && w.hit_spec(ray, t_min, t_max) is Some && nearest_alone(objects, w, ray, t_min, t_max)
            ==> closest(tree.prims(), ray, t_min, t_max) == w.hit_spec(ray, t_min, t_max)
            && closest(objects, ray, t_min, t_max) == w.hit_spec(ray, t_min, t_max),
{
    let ps = tree.prims();
    lemma_same_items(ps, objects);
    lemma_same_items(objects, ps);
    lemma_closest_none(ps, ray, t_min, t_max);
    lemma_closest_none(objects, ray, t_min, t_max);
    if closest(ps, ray, t_min, t_max) is Some {
        let i = choose|i: int| 0 <= i < ps.len() && (#[trigger] ps[i].hit_spec(ray, t_min, t_max)) is Some;
        assert(objects.contains(ps[i]));
        let j = choose|j: int| 0 <= j < objects.len() && objects[j] == ps[i];
        assert(objects[j].hit_spec(ray, t_min, t_max) is Some);
    }
    if closest(objects, ray, t_min, t_max) is Some {
        let i = choose|i: int| 0 <= i < objects.len() && (#[trigger] objects[i].hit_spec(ray, t_min, t_max)) is Some;
        assert(ps.contains(objects[i]));
        let j = choose|j: int| 0 <= j < ps.len() && ps[j] == objects[i];
        assert(ps[j].hit_spec(ray, t_min, t_max) is Some);
    }
    if objects.contains(w) && w.hit_spec(ray, t_min, t_max) is Some && nearest_alone(objects, w, ray, t_min, t_max) {
        lemma_closest_unique(objects, w, ray, t_min, t_max);
        assert(nearest_alone(ps, w, ray, t_min, t_max)) by {
            assert forall|k: int|
                0 <= k < ps.len() && ps[k] != w && (#[trigger] ps[k].hit_spec(ray, t_min, t_max)) is Some
                    implies !ps[k].hit_spec(ray, t_min, t_max)->0.t.le(w.hit_spec(ray, t_min, t_max)->0.t) by {
                assert(objects.contains(ps[k]));
                let j = choose|j: int| 0 <= j < objects.len() && objects[j] == ps[k];
                assert(objects[j].hit_spec(ray, t_min, t_max) is Some);
            }
        }
        lemma_closest_unique(ps, w, ray, t_min, t_max);
    }
}

/// The merge of the boxes of a non-empty list of sprites, left to right.
pub open spec fn merge_all(s: Seq<Sprite>) -> Aabb
    decreases s.len(),
{
    if s.len() <= 1 {
        s[0].world_box()
    } else {
        merge_all(s.drop_last()).merged(s.last().world_box())
    }
}

proof fn lemma_merge_all_concat(l: Seq<Sprite>, r: Seq<Sprite>)
    requires
        l.len() >= 1,
        r.len() >= 1,
    ensures
        merge_all(l + r) == merge_all(l).merged(merge_all(r)),
    decreases r.len(),
{
    if r.len() == 1 {
        assert((l + r).drop_last() =~= l);
        assert((l + r).last() == r[0]);
    } else {
        assert((l + r).drop_last() =~= l + r.drop_last());
        assert((l + r).last() == r.last());
        lemma_merge_all_concat(l, r.drop_last());
    }
}

/// Each corner coordinate of the merge is the extreme of that coordinate
/// over the list, and is reached by one of its sprites.
proof fn lemma_merge_all_extremes(s: Seq<Sprite>)
    requires
        s.len() >= 1,
    ensures
        forall|i: int, a: int|
            0 <= i < s.len() && 0 <= a < 3 ==> merge_all(s).min.comp(a) <= #[trigger] s[i].world_box().min.comp(a),
        forall|i: int, a: int|
            0 <= i < s.len() && 0 <= a < 3 ==> merge_all(s).max.comp(a) >= #[trigger] s[i].world_box().max.comp(a),
        forall|a: int|
            0 <= a < 3 ==> exists|i: int| 0 <= i < s.len() && #[trigger] merge_all(s).min.comp(a) == s[i].world_box().min.comp(a),
        forall|a: int|
            0 <= a < 3 ==> exists|i: int| 0 <= i < s.len() && #[trigger] merge_all(s).max.comp(a) == s[i].world_box().max.comp(a),
    decreases s.len(),
{
    if s.len() > 1 {
        let p = s.drop_last();
        lemma_merge_all_extremes(p);
        assert forall|i: int| 0 <= i < p.len() implies p[i] == s[i] by {}
        assert(s[s.len() - 1] == s.last());
        assert forall|a: int| 0 <= a < 3 implies exists|i: int| 0 <= i < s.len() && #[trigger] merge_all(s).min.comp(a) == s[i].world_box().min.comp(a) by {
            let i = choose|i: int| 0 <= i < p.len() && #[trigger] merge_all(p).min.comp(a) == p[i].world_box().min.comp(a);
            if merge_all(s).min.comp(a) != s[i].world_box().min.comp(a) {
                assert(merge_all(s).min.comp(a) == s[s.len() - 1].world_box().min.comp(a));
            }
        }
        assert forall|a: int| 0 <= a < 3 implies exists|i: int| 0 <= i < s.len() && #[trigger] merge_all(s).max.comp(a) == s[i].world_box().max.comp(a) by {
            let i = choose|i: int| 0 <= i < p.len() && #[trigger] merge_all(p).max.comp(a) == p[i].world_box().max.comp(a);
            if merge_all(s).max.comp(a) != s[i].world_box().max.comp(a) {
                assert(merge_all(s).max.comp(a) == s[s.len() - 1].world_box().max.comp(a));
            }
        }
    } else {
        assert forall|a: int| 0 <= a < 3 implies exists|i: int| 0 <= i < s.len() && #[trigger] merge_all(s).min.comp(a) == s[i].world_box().min.comp(a) by {
            assert(merge_all(s).min.comp(a) == s[0].world_box().min.comp(a));
        }
        assert forall|a: int| 0 <= a < 3 implies exists|i: int| 0 <= i < s.len() && #[trigger] merge_all(s).max.comp(a) == s[i].world_box().max.comp(a) by {
            assert(merge_all(s).max.comp(a) == s[0].world_box().max.comp(a));
        }
    }
}

/// The box of a well-formed tree is the merge of the boxes of all its
/// leaves, taken in any order and any grouping: it is the merge, left to
/// right, of the boxes of any list holding the same sprites.
pub proof fn lemma_root_box(tree: Bvh, objects: Seq<Sprite>)
    requires
        tree.wf(),
        tree.prims().to_multiset() == objects.to_multiset(),
    ensures
        tree.bbox_spec() == merge_all(objects),
    decreases tree,
{
    tree.lemma_wf_facts();
    match tree {
        Bvh::Leaf(s) => {
            assert(tree.prims() == seq![s]);
        },
        Bvh::Node { bbox, left, right } => {
            left.lemma_wf_facts();
            right.lemma_wf_facts();
            lemma_root_box(*left, left.prims());
            lemma_root_box(*right, right.prims());
            lemma_merge_all_concat(left.prims(), right.prims());
        },
    }
    let ps = tree.prims();
    lemma_same_items(ps, objects);
    lemma_same_items(objects, ps);
    lemma_merge_all_extremes(ps);
    lemma_merge_all_extremes(objects);
    let (ma, mb) = (merge_all(ps), merge_all(objects));
    assert forall|a: int| 0 <= a < 3 implies ma.min.comp(a) == mb.min.comp(a) && ma.max.comp(a) == mb.max.comp(a) by {
        let i = choose|i: int| 0 <= i < ps.len() && #[trigger] ma.min.comp(a) == ps[i].world_box().min.comp(a);
        assert(objects.contains(ps[i]));
        let j = choose|j: int| 0 <= j < objects.len() && #[trigger] mb.min.comp(a) == objects[j].world_box().min.comp(a);
        assert(ps.contains(objects[j]));
        let k = choose|k: int| 0 <= k < ps.len() && #[trigger] ma.max.comp(a) == ps[k].world_box().max.comp(a);
        assert(objects.contains(ps[k]));
        let l = choose|l: int| 0 <= l < objects.len() && #[trigger] mb.max.comp(a) == objects[l].world_box().max.comp(a);
        assert(ps.contains(objects[l]));
        let i2 = choose|x: int| 0 <= x < objects.len() && objects[x] == ps[i];
        let j2 = choose|x: int| 0 <= x < ps.len() && ps[x] == objects[j];
        let k2 = choose|x: int| 0 <= x < objects.len() && objects[x] == ps[k];
        let l2 = choose|x: int| 0 <= x < ps.len() && ps[x] == objects[l];
        assert(mb.min.comp(a) <= objects[i2].world_box().min.comp(a));
        assert(ma.min.comp(a) <= ps[j2].world_box().min.comp(a));
        assert(mb.max.comp(a) >= objects[k2].world_box().max.comp(a));
        assert(ma.max.comp(a) >= ps[l2].world_box().max.comp(a));
    }
    assert(ma.min.comp(0) == mb.min.comp(0) && ma.min.comp(1) == mb.min.comp(1) && ma.min.comp(2) == mb.min.comp(2));
    assert(ma.max.comp(0) == mb.max.comp(0) && ma.max.comp(1) == mb.max.comp(1) && ma.max.comp(2) == mb.max.comp(2));
}

} // verus!
