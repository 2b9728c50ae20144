use vstd::prelude::*;
use vstd::arithmetic::div_mod::{
    lemma_fundamental_div_mod, lemma_fundamental_div_mod_converse, lemma_mod_self_0, lemma_small_mod,
};
use crate::geometry::{hit_det, ray_hits, ray_num, ray_segment_interaction, signed, Point, RayHit, COORD_LIMIT};

verus! {

/// A polygonal obstacle: vertices in local space, placed at `anchor`.
/// Consecutive vertices, and the last with the first, form its edges.
#[derive(Debug)]
pub struct Obstacle {
    pub anchor: Point,
    pub vertices: Vec<Point>,
}

impl Obstacle {
    /// Anchor and local vertices lie within `COORD_LIMIT`.
    pub open spec fn wf(&self) -> bool {
        &&& self.anchor.within(COORD_LIMIT as int)
        &&& forall|i: int| 0 <= i < self.vertices@.len() ==> (#[trigger] self.vertices@[i]).within(COORD_LIMIT as int)
    }

    /// The `i`-th vertex in world space.
    pub open spec fn world_vertex(&self, i: int) -> Point {
        Point { x: (self.anchor.x + self.vertices@[i].x) as i64, y: (self.anchor.y + self.vertices@[i].y) as i64 }
    }

    /// The vertex that closes the edge starting at vertex `i`.
    pub open spec fn edge_end(&self, i: int) -> Point {
        self.world_vertex((i + 1) % (self.vertices@.len() as int))
    }

    /// An obstacle with fewer than three vertices has no edges to block rays.
    pub open spec fn has_edges(&self) -> bool {
        self.vertices@.len() >= 3
    }

    /// The `i`-th vertex in world space.
    pub fn world_vertex_at(&self, i: usize) -> (r: Point)
        requires
            self.wf(),
            i < self.vertices@.len(),
        ensures
            r == self.world_vertex(i as int),
            r.within(2 * COORD_LIMIT),
    {
        let v = self.vertices[i];
        Point { x: self.anchor.x + v.x, y: self.anchor.y + v.y }
    }
}

/// Every obstacle of the catalog is well formed.
pub open spec fn all_wf(obstacles: Seq<Obstacle>) -> bool {
    forall|k: int| 0 <= k < obstacles.len() ==> (#[trigger] obstacles[k]).wf()
}

/// Edge `i` of obstacle `k` stops the ray from `o` along `d`.
pub open spec fn blocks(o: Point, d: Point, obstacles: Seq<Obstacle>, k: int, i: int) -> bool {
    &&& 0 <= k < obstacles.len()
    &&& obstacles[k].has_edges()
    &&& 0 <= i < obstacles[k].vertices@.len()
    &&& ray_hits(o, d, obstacles[k].world_vertex(i), obstacles[k].edge_end(i))
}

/// Numerator of the ray parameter where edge `i` of `ob` is met.
pub open spec fn edge_num(o: Point, d: Point, ob: Obstacle, i: int) -> int {
    let a = ob.world_vertex(i);
    let b = ob.edge_end(i);
    signed(ray_num(o, a, b), hit_det(d, a, b))
}

/// Denominator (positive) of the ray parameter where edge `i` of `ob` is met.
pub open spec fn edge_den(o: Point, d: Point, ob: Obstacle, i: int) -> int {
    let a = ob.world_vertex(i);
    let b = ob.edge_end(i);
    signed(hit_det(d, a, b), hit_det(d, a, b))
}

/// `h` is the nearest stop of the ray from `o` along `d`: the end of the ray
/// (parameter 1) or the first obstacle edge met before it.
pub open spec fn is_nearest(o: Point, d: Point, obstacles: Seq<Obstacle>, h: RayHit) -> bool {
    &&& 0 < h.den
    &&& 0 <= h.num <= h.den
    &&& forall|k: int, i: int| #[trigger] blocks(o, d, obstacles, k, i)
        ==> h.num * edge_den(o, d, obstacles[k], i) <= edge_num(o, d, obstacles[k], i) * h.den
    &&& (h.num == h.den || exists|k: int, i: int| #[trigger] blocks(o, d, obstacles, k, i)
        && h.num * edge_den(o, d, obstacles[k], i) == edge_num(o, d, obstacles[k], i) * h.den)
}

proof fn lemma_lt_le(hn: int, hd: int, bn: int, bd: int, en: int, ed: int)
    requires
        hd > 0,
        bd > 0,
        ed > 0,
        hn * bd < bn * hd,
        bn * ed <= en * bd,
    ensures
        hn * ed < en * hd,
{
    assert(hn * ed < en * hd) by (nonlinear_arith)
        requires hd > 0, bd > 0, ed > 0, hn * bd < bn * hd, bn * ed <= en * bd;
}

/// The nearest stop of the ray from `origin` along `dir` (its far end is
/// `origin + dir`) among the edges of `obstacles`, as a ray parameter in
/// `[0, 1]`.
pub fn cast_ray(origin: Point, dir: Point, obstacles: &Vec<Obstacle>) -> (r: RayHit)
    requires
        origin.within(COORD_LIMIT as int),
        dir.within(2 * COORD_LIMIT),
        all_wf(obstacles@),
    ensures
        is_nearest(origin, dir, obstacles@, r),
        r.den <= 0x8000_0000_0000_0000,
{
    let mut best = RayHit { num: 1, den: 1 };
    let ghost mut wk: int = -1;
    let ghost mut wi: int = -1;
    let mut k: usize = 0;
    while k < obstacles.len()
        invariant
            0 <= k <= obstacles@.len(),
            origin.within(COORD_LIMIT as int),
            dir.within(2 * COORD_LIMIT),
            all_wf(obstacles@),
            0 < best.den <= 0x8000_0000_0000_0000,
            0 <= best.num <= best.den,
            forall|k2: int, i2: int| #[trigger] blocks(origin, dir, obstacles@, k2, i2) && k2 < k
                ==> best.num * edge_den(origin, dir, obstacles@[k2], i2) <= edge_num(origin, dir, obstacles@[k2], i2) * best.den,
            best.num == best.den || (blocks(origin, dir, obstacles@, wk, wi)
                && best.num * edge_den(origin, dir, obstacles@[wk], wi) == edge_num(origin, dir, obstacles@[wk], wi) * best.den),
        decreases obstacles@.len() - k,
    {
        let ob = &obstacles[k];
        let n = ob.vertices.len();
        if n >= 3 {
            let mut i: usize = 0;
            while i < n
                invariant
                    0 <= k < obstacles@.len(),
                    *ob == obstacles@[k as int],
                    n == ob.vertices@.len(),
                    n >= 3,
                    0 <= i <= n,
                    origin.within(COORD_LIMIT as int),
                    dir.within(2 * COORD_LIMIT),
                    all_wf(obstacles@),
                    0 < best.den <= 0x8000_0000_0000_0000,
                    0 <= best.num <= best.den,
                    forall|k2: int, i2: int| #[trigger] blocks(origin, dir, obstacles@, k2, i2) && (k2 < k || (k2 == k && i2 < i))
                        ==> best.num * edge_den(origin, dir, obstacles@[k2], i2) <= edge_num(origin, dir, obstacles@[k2], i2) * best.den,
                    best.num == best.den || (blocks(origin, dir, obstacles@, wk, wi)
                        && best.num * edge_den(origin, dir, obstacles@[wk], wi) == edge_num(origin, dir, obstacles@[wk], wi) * best.den),
                decreases n - i,
            {
                assert(obstacles@[k as int].wf());
                let a = ob.world_vertex_at(i);
                let j: usize = if i + 1 == n { 0 } else { i + 1 };
                proof {
                    if i + 1 == n {
                        lemma_mod_self_0(n as int);
                    } else {
                        lemma_small_mod((i + 1) as nat, n as nat);
                    }
                }
                let b = ob.world_vertex_at(j);
                let found = ray_segment_interaction(origin, dir, a, b);
                if let Some(h) = found {
                    proof {
                        assert(0 <= h.num * best.den <= 0x4000_0000_0000_0000_0000_0000_0000_0000) by (nonlinear_arith)
                            requires 0 <= h.num <= 0x8000_0000_0000_0000, 0 < best.den <= 0x8000_0000_0000_0000;
                        assert(0 <= best.num * h.den <= 0x4000_0000_0000_0000_0000_0000_0000_0000) by (nonlinear_arith)
                            requires 0 <= best.num <= 0x8000_0000_0000_0000, 0 < h.den <= 0x8000_0000_0000_0000;
                    }
                    if h.num * best.den < best.num * h.den {
                        proof {
                            assert(blocks(origin, dir, obstacles@, k as int, i as int));
                            assert forall|k2: int, i2: int| #[trigger] blocks(origin, dir, obstacles@, k2, i2) && (k2 < k || (k2 == k && i2 < i + 1))
                                implies h.num * edge_den(origin, dir, obstacles@[k2], i2) <= edge_num(origin, dir, obstacles@[k2], i2) * h.den by {
                                if k2 == k && i2 == i {
                                } else {
                                    lemma_lt_le(h.num as int, h.den as int, best.num as int, best.den as int,
                                        edge_num(origin, dir, obstacles@[k2], i2), edge_den(origin, dir, obstacles@[k2], i2));
                                }
                            }
                            assert(h.num < h.den) by (nonlinear_arith)
                                requires h.num * best.den < best.num * h.den, 0 <= best.num <= best.den, h.den > 0, best.den > 0;
                            wk = k as int;
                            wi = i as int;
                        }
                        best = h;
                    } else {
                        proof {
                            assert(blocks(origin, dir, obstacles@, k as int, i as int));
                        }
                    }
                }
                i = i + 1;
            }
        }
        k = k + 1;
    }
    best
}

/// `c * num / den` rounded toward zero: one coordinate of a ray offset cut
/// at parameter `num / den`.
pub open spec fn scaled(c: int, num: int, den: int) -> int {
    if c >= 0 { (c * num) / den } else { -(((-c) * num) / den) }
}

/// The point of the ray from `o` along `d` at parameter `h`, each offset
/// coordinate rounded toward the observer.
pub open spec fn point_at(o: Point, d: Point, h: RayHit) -> Point {
    Point {
        x: (o.x + scaled(d.x as int, h.num as int, h.den as int)) as i64,
        y: (o.y + scaled(d.y as int, h.num as int, h.den as int)) as i64,
    }
}

/// The boundary point of the ray from `o` along `d`: where it first meets an
/// obstacle edge, or its far end.
pub open spec fn nearest_point(o: Point, d: Point, obstacles: Seq<Obstacle>) -> Point {
    point_at(o, d, choose|h: RayHit| is_nearest(o, d, obstacles, h))
}

/// `r` holds, for each ray offset of `ray_ends` in order, that ray's boundary
/// point.
pub open spec fn is_visibility_polygon(o: Point, ray_ends: Seq<Point>, obstacles: Seq<Obstacle>, r: Seq<Point>) -> bool {
    &&& r.len() == ray_ends.len()
    &&& forall|i: int| 0 <= i < r.len() ==> is_boundary_point(o, ray_ends[i], obstacles, #[trigger] r[i])
}

/// `p` is the boundary point of the ray from `o` along `d`.
pub open spec fn is_boundary_point(o: Point, d: Point, obstacles: Seq<Obstacle>, p: Point) -> bool {
    has_nearest(o, d, obstacles) && p == nearest_point(o, d, obstacles)
}

/// The ray from `o` along `d` has a nearest stop.
pub open spec fn has_nearest(o: Point, d: Point, obstacles: Seq<Obstacle>) -> bool {
    exists|h: RayHit| is_nearest(o, d, obstacles, h)
}

proof fn lemma_scaled_bound(c: int, num: int, den: int)
    requires
        0 < den,
        0 <= num <= den,
    ensures
        c >= 0 ==> 0 <= scaled(c, num, den) <= c,
        c < 0 ==> c <= scaled(c, num, den) <= 0,
{
    let a = if c >= 0 { c } else { -c };
    lemma_fundamental_div_mod(a * num, den);
    let q = (a * num) / den;
    let r = (a * num) % den;
    assert(0 <= a * num <= a * den) by (nonlinear_arith)
        requires a >= 0, 0 <= num <= den;
    assert(0 <= q <= a) by (nonlinear_arith)
        requires a * num == den * q + r, 0 <= r < den, 0 <= a * num <= a * den, den > 0;
}

fn scale_coord(c: i64, h: RayHit) -> (r: i64)
    requires
        -2 * COORD_LIMIT <= c <= 2 * COORD_LIMIT,
        0 < h.den <= 0x8000_0000_0000_0000,
        0 <= h.num <= h.den,
    ensures
        r == scaled(c as int, h.num as int, h.den as int),
        c >= 0 ==> 0 <= r <= c,
        c < 0 ==> c <= r <= 0,
{
    proof {
        lemma_scaled_bound(c as int, h.num as int, h.den as int);
    }
    let a: i128 = if c >= 0 { c as i128 } else { -(c as i128) };
    assert(0 <= a * h.num <= 0x8000_0000 * 0x8000_0000_0000_0000) by (nonlinear_arith)
        requires 0 <= a <= 0x8000_0000, 0 <= h.num <= 0x8000_0000_0000_0000;
    let q: i128 = (a * h.num) / h.den;
    if c >= 0 {
        q as i64
    } else {
        -(q as i64)
    }
}

/// The point of the ray from `origin` along `dir` at parameter `h`.
pub fn hit_point(origin: Point, dir: Point, h: RayHit) -> (r: Point)
    requires
        origin.within(COORD_LIMIT as int),
        dir.within(2 * COORD_LIMIT),
        0 < h.den <= 0x8000_0000_0000_0000,
        0 <= h.num <= h.den,
    ensures
        r == point_at(origin, dir, h),
{
    let sx = scale_coord(dir.x, h);
    let sy = scale_coord(dir.y, h);
    Point { x: origin.x + sx, y: origin.y + sy }
}

proof fn lemma_le_through(hn: int, hd: int, en: int, ed: int, gn: int, gd: int)
    requires
        hd > 0,
        ed > 0,
        gd > 0,
        hn * ed <= en * hd,
        gn * ed == en * gd,
    ensures
        hn * gd <= gn * hd,
{
    assert(hn * gd <= gn * hd) by (nonlinear_arith)
        requires hd > 0, ed > 0, gd > 0, hn * ed <= en * hd, gn * ed == en * gd;
}

proof fn lemma_nearest_le(o: Point, d: Point, obstacles: Seq<Obstacle>, h1: RayHit, h2: RayHit)
    requires
        is_nearest(o, d, obstacles, h1),
        is_nearest(o, d, obstacles, h2),
    ensures
        h1.num * h2.den <= h2.num * h1.den,
{
    if h2.num == h2.den {
        assert(h1.num * h2.den <= h2.num * h1.den) by (nonlinear_arith)
            requires h2.num == h2.den, h2.den > 0, h1.num <= h1.den;
    } else {
        let (k, i) = choose|k: int, i: int| #[trigger] blocks(o, d, obstacles, k, i)
            && h2.num * edge_den(o, d, obstacles[k], i) == edge_num(o, d, obstacles[k], i) * h2.den;
        lemma_le_through(h1.num as int, h1.den as int, edge_num(o, d, obstacles[k], i),
            edge_den(o, d, obstacles[k], i), h2.num as int, h2.den as int);
    }
}

proof fn lemma_div_same(x1: int, d1: int, x2: int, d2: int)
    requires
        x1 >= 0,
        x2 >= 0,
        d1 > 0,
        d2 > 0,
        x1 * d2 == x2 * d1,
    ensures
        x1 / d1 == x2 / d2,
{
    lemma_fundamental_div_mod(x1, d1);
    let q = x1 / d1;
    let r = x1 % d1;
    assert(0 <= x2 - q * d2 < d2) by (nonlinear_arith)
        requires x1 == d1 * q + r, 0 <= r < d1, x1 * d2 == x2 * d1, d1 > 0, d2 > 0;
    lemma_fundamental_div_mod_converse(x2, d2, q, x2 - q * d2);
}

proof fn lemma_scaled_same(c: int, n1: int, d1: int, n2: int, d2: int)
    requires
        n1 >= 0,
        n2 >= 0,
        d1 > 0,
        d2 > 0,
        n1 * d2 == n2 * d1,
    ensures
        scaled(c, n1, d1) == scaled(c, n2, d2),
{
    let a = if c >= 0 { c } else { -c };
    assert(a * n1 >= 0 && a * n2 >= 0 && (a * n1) * d2 == (a * n2) * d1) by (nonlinear_arith)
        requires a >= 0, n1 >= 0, n2 >= 0, n1 * d2 == n2 * d1;
    lemma_div_same(a * n1, d1, a * n2, d2);
}

/// The nearest stop of a ray is one ray parameter, whichever way it was
/// found: two stops that both meet `is_nearest` give the same boundary point.
pub proof fn lemma_nearest_point_unique(o: Point, d: Point, obstacles: Seq<Obstacle>, h1: RayHit, h2: RayHit)
    requires
        is_nearest(o, d, obstacles, h1),
        is_nearest(o, d, obstacles, h2),
    ensures
        point_at(o, d, h1) == point_at(o, d, h2),
        point_at(o, d, h1) == nearest_point(o, d, obstacles),
{
    lemma_nearest_le(o, d, obstacles, h1, h2);
    lemma_nearest_le(o, d, obstacles, h2, h1);
    lemma_scaled_same(d.x as int, h1.num as int, h1.den as int, h2.num as int, h2.den as int);
    lemma_scaled_same(d.y as int, h1.num as int, h1.den as int, h2.num as int, h2.den as int);
    let h3 = choose|h: RayHit| is_nearest(o, d, obstacles, h);
    lemma_nearest_le(o, d, obstacles, h1, h3);
    lemma_nearest_le(o, d, obstacles, h3, h1);
    lemma_scaled_same(d.x as int, h1.num as int, h1.den as int, h3.num as int, h3.den as int);
    lemma_scaled_same(d.y as int, h1.num as int, h1.den as int, h3.num as int, h3.den as int);
}

/// The visibility boundary seen from `origin`: for each ray offset of
/// `ray_ends` in order (the ray's far end is `origin + ray_end`), the point
/// where it first meets an obstacle edge, or its far end when nothing is
/// nearer. Obstacles with fewer than three vertices block nothing.
pub fn calculate_visibility_polygon(origin: Point, ray_ends: &Vec<Point>, obstacles: &Vec<Obstacle>) -> (r: Vec<Point>)
    requires
        origin.within(COORD_LIMIT as int),
        forall|i: int| 0 <= i < ray_ends@.len() ==> (#[trigger] ray_ends@[i]).within(2 * COORD_LIMIT),
        all_wf(obstacles@),
    ensures
        is_visibility_polygon(origin, ray_ends@, obstacles@, r@),
{
    let mut polygon: Vec<Point> = Vec::new();
    let mut i: usize = 0;
    while i < ray_ends.len()
        invariant
            0 <= i <= ray_ends@.len(),
            origin.within(COORD_LIMIT as int),
            forall|j: int| 0 <= j < ray_ends@.len() ==> (#[trigger] ray_ends@[j]).within(2 * COORD_LIMIT),
            all_wf(obstacles@),
            polygon@.len() == i,
            forall|j: int| 0 <= j < i ==> is_boundary_point(origin, ray_ends@[j], obstacles@, #[trigger] polygon@[j]),
        decreases ray_ends@.len() - i,
    {
        let dir = ray_ends[i];
        let h = cast_ray(origin, dir, obstacles);
        let p = hit_point(origin, dir, h);
        proof {
            lemma_nearest_point_unique(origin, dir, obstacles@, h, h);
            assert(has_nearest(origin, dir, obstacles@));
        }
        let ghost prev = polygon@;
        polygon.push(p);
        assert forall|j: int| 0 <= j < i + 1 implies is_boundary_point(origin, ray_ends@[j], obstacles@, #[trigger] polygon@[j]) by {
            if j < i {
                assert(polygon@[j] == prev[j]);
            }
        }
        i = i + 1;
    }
    polygon
}

/// Offset from `o` to vertex `i` of `ob`.
pub open spec fn corner_offset(o: Point, ob: Obstacle, i: int) -> Point {
    Point { x: (ob.world_vertex(i).x - o.x) as i64, y: (ob.world_vertex(i).y - o.y) as i64 }
}

/// The vector from `o` to `p`.
pub open spec fn offset_from(o: Point, p: Point) -> Point {
    Point { x: (p.x - o.x) as i64, y: (p.y - o.y) as i64 }
}

/// Squared length of `p`.
pub open spec fn length_sq(p: Point) -> int {
    p.x * p.x + p.y * p.y
}

/// Vertex `i` of obstacle `k` exists and lies within `range` of `o` (no
/// vertex does when `range` is negative).
pub open spec fn corner_in_range(o: Point, range: int, obstacles: Seq<Obstacle>, k: int, i: int) -> bool {
    &&& range >= 0
    &&& 0 <= k < obstacles.len()
    &&& 0 <= i < obstacles[k].vertices@.len()
    &&& length_sq(corner_offset(o, obstacles[k], i)) <= range * range
}

/// `p` is the offset from `o` to some obstacle vertex within `range` of it.
pub open spec fn is_corner_offset(o: Point, range: int, obstacles: Seq<Obstacle>, p: Point) -> bool {
    exists|k: int, i: int| #[trigger] corner_in_range(o, range, obstacles, k, i) && p == corner_offset(o, obstacles[k], i)
}

/// The offsets from `origin` to every obstacle vertex (of any obstacle, with
/// edges or not) within `range` of it, in catalog order.
pub fn corner_offsets(origin: Point, range: i64, obstacles: &Vec<Obstacle>) -> (r: Vec<Point>)
    requires
        origin.within(COORD_LIMIT as int),
        -4 * COORD_LIMIT <= range <= 4 * COORD_LIMIT,
        all_wf(obstacles@),
    ensures
        forall|j: int| 0 <= j < r@.len() ==> is_corner_offset(origin, range as int, obstacles@, #[trigger] r@[j]),
        forall|k: int, i: int| #[trigger] corner_in_range(origin, range as int, obstacles@, k, i)
            ==> r@.contains(corner_offset(origin, obstacles@[k], i)),
        forall|j: int| 0 <= j < r@.len() ==> (#[trigger] r@[j]).within(3 * COORD_LIMIT),
{
    let mut out: Vec<Point> = Vec::new();
    let ghost mut src_k: Seq<int> = seq![];
    let ghost mut src_i: Seq<int> = seq![];
    let mut k: usize = 0;
    while k < obstacles.len()
        invariant
            0 <= k <= obstacles@.len(),
            origin.within(COORD_LIMIT as int),
            -4 * COORD_LIMIT <= range <= 4 * COORD_LIMIT,
            all_wf(obstacles@),
            src_k.len() == out@.len(),
            src_i.len() == out@.len(),
            forall|j: int| 0 <= j < out@.len() ==> corner_in_range(origin, range as int, obstacles@, #[trigger] src_k[j], src_i[j])
                && out@[j] == corner_offset(origin, obstacles@[src_k[j]], src_i[j]),
            forall|k2: int, i2: int| #[trigger] corner_in_range(origin, range as int, obstacles@, k2, i2) && k2 < k
                ==> out@.contains(corner_offset(origin, obstacles@[k2], i2)),
            forall|j: int| 0 <= j < out@.len() ==> (#[trigger] out@[j]).within(3 * COORD_LIMIT),
        decreases obstacles@.len() - k,
    {
        let ob = &obstacles[k];
        let mut i: usize = 0;
        while i < ob.vertices.len()
            invariant
                0 <= k < obstacles@.len(),
                *ob == obstacles@[k as int],
                0 <= i <= ob.vertices@.len(),
                origin.within(COORD_LIMIT as int),
                -4 * COORD_LIMIT <= range <= 4 * COORD_LIMIT,
                all_wf(obstacles@),
                src_k.len() == out@.len(),
                src_i.len() == out@.len(),
                forall|j: int| 0 <= j < out@.len() ==> corner_in_range(origin, range as int, obstacles@, #[trigger] src_k[j], src_i[j])
                    && out@[j] == corner_offset(origin, obstacles@[src_k[j]], src_i[j]),
                forall|k2: int, i2: int| #[trigger] corner_in_range(origin, range as int, obstacles@, k2, i2) && (k2 < k || (k2 == k && i2 < i))
                    ==> out@.contains(corner_offset(origin, obstacles@[k2], i2)),
                forall|j: int| 0 <= j < out@.len() ==> (#[trigger] out@[j]).within(3 * COORD_LIMIT),
            decreases ob.vertices@.len() - i,
        {
            assert(obstacles@[k as int].wf());
            let v = ob.world_vertex_at(i);
            let off = Point { x: v.x - origin.x, y: v.y - origin.y };
            let dx = off.x as i128;
            let dy = off.y as i128;
            assert(0 <= dx * dx <= 0x4_0000_0000_0000_0000) by (nonlinear_arith)
                requires -0x2_0000_0000 <= dx <= 0x2_0000_0000;
            assert(0 <= dy * dy <= 0x4_0000_0000_0000_0000) by (nonlinear_arith)
                requires -0x2_0000_0000 <= dy <= 0x2_0000_0000;
            assert(0 <= range as i128 * range as i128 <= 0x4_0000_0000_0000_0000) by (nonlinear_arith)
                requires -0x2_0000_0000 <= range <= 0x2_0000_0000;
            if range >= 0 && dx * dx + dy * dy <= range as i128 * range as i128 {
                let ghost before = out@;
                out.push(off);
                proof {
                    src_k = src_k.push(k as int);
                    src_i = src_i.push(i as int);
                    assert(corner_in_range(origin, range as int, obstacles@, k as int, i as int));
                    assert(out@[before.len() as int] == off);
                    assert forall|k2: int, i2: int| #[trigger] corner_in_range(origin, range as int, obstacles@, k2, i2) && (k2 < k || (k2 == k && i2 < i + 1))
                        implies out@.contains(corner_offset(origin, obstacles@[k2], i2)) by {
                        if k2 == k && i2 == i {
                        } else {
                            let c = corner_offset(origin, obstacles@[k2], i2);
                            assert(before.contains(c));
                            let j = choose|j: int| 0 <= j < before.len() && before[j] == c;
                            assert(out@[j] == c);
                        }
                    }
                    assert forall|j: int| 0 <= j < out@.len() implies corner_in_range(origin, range as int, obstacles@, #[trigger] src_k[j], src_i[j])
                        && out@[j] == corner_offset(origin, obstacles@[src_k[j]], src_i[j]) by {
                        if j < before.len() {
                            assert(out@[j] == before[j]);
                        }
                    }
                }
            }
            i = i + 1;
        }
        k = k + 1;
    }
    proof {
        assert forall|j: int| 0 <= j < out@.len() implies is_corner_offset(origin, range as int, obstacles@, #[trigger] out@[j]) by {
            assert(corner_in_range(origin, range as int, obstacles@, src_k[j], src_i[j]));
        }
    }
    out
}

/// Determinism: two boundaries computed for the same observer, rays and
/// obstacles are identical.
pub proof fn lemma_polygon_deterministic(o: Point, ray_ends: Seq<Point>, obstacles: Seq<Obstacle>, p1: Seq<Point>, p2: Seq<Point>)
    requires
        is_visibility_polygon(o, ray_ends, obstacles, p1),
        is_visibility_polygon(o, ray_ends, obstacles, p2),
    ensures
        p1 == p2,
{
    assert forall|i: int| 0 <= i < p1.len() implies p1[i] == p2[i] by {
        assert(p1[i] == nearest_point(o, ray_ends[i], obstacles));
        assert(p2[i] == nearest_point(o, ray_ends[i], obstacles));
    }
    assert(p1 =~= p2);
}

/// Containment: when every ray offset is at most `range` long, every
/// boundary point lies within `range` of the observer.
pub proof fn lemma_boundary_within_range(o: Point, ray_ends: Seq<Point>, obstacles: Seq<Obstacle>, poly: Seq<Point>, range: int)
    requires
        o.within(COORD_LIMIT as int),
        forall|i: int| 0 <= i < ray_ends.len() ==> (#[trigger] ray_ends[i]).within(2 * COORD_LIMIT),
        forall|i: int| 0 <= i < ray_ends.len() ==> length_sq(#[trigger] ray_ends[i]) <= range * range,
        is_visibility_polygon(o, ray_ends, obstacles, poly),
    ensures
        forall|i: int| 0 <= i < poly.len() ==> length_sq(#[trigger] offset_from(o, poly[i])) <= range * range,
{
    assert forall|i: int| 0 <= i < poly.len() implies length_sq(#[trigger] offset_from(o, poly[i])) <= range * range by {
        let d = ray_ends[i];
        assert(poly[i] == nearest_point(o, d, obstacles));
        assert(has_nearest(o, d, obstacles));
        let h = choose|h: RayHit| is_nearest(o, d, obstacles, h);
        assert(poly[i] == point_at(o, d, h));
        lemma_scaled_bound(d.x as int, h.num as int, h.den as int);
        lemma_scaled_bound(d.y as int, h.num as int, h.den as int);
        let sx = scaled(d.x as int, h.num as int, h.den as int);
        let sy = scaled(d.y as int, h.num as int, h.den as int);
        assert(offset_from(o, poly[i]) == Point { x: sx as i64, y: sy as i64 });
        assert(sx * sx <= d.x * d.x) by (nonlinear_arith)
            requires (d.x >= 0 ==> 0 <= sx <= d.x), (d.x < 0 ==> d.x <= sx <= 0);
        assert(sy * sy <= d.y * d.y) by (nonlinear_arith)
            requires (d.y >= 0 ==> 0 <= sy <= d.y), (d.y < 0 ==> d.y <= sy <= 0);
    }
}

/// Obstacles with fewer than three vertices occlude nothing: every ray runs
/// to its far end.
pub proof fn lemma_degenerate_obstacles_block_nothing(o: Point, d: Point, obstacles: Seq<Obstacle>)
    requires
        o.within(COORD_LIMIT as int),
        d.within(2 * COORD_LIMIT),
        forall|k: int| 0 <= k < obstacles.len() ==> (#[trigger] obstacles[k]).vertices@.len() < 3,
        has_nearest(o, d, obstacles),
    ensures
        nearest_point(o, d, obstacles) == (Point { x: (o.x + d.x) as i64, y: (o.y + d.y) as i64 }),
{
    let h = choose|h: RayHit| is_nearest(o, d, obstacles, h);
    assert(h.num == h.den);
    lemma_scaled_same(d.x as int, h.num as int, h.den as int, 1, 1);
    lemma_scaled_same(d.y as int, h.num as int, h.den as int, 1, 1);
}

} // verus!
