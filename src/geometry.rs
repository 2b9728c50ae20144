use vstd::prelude::*;

verus! {

/// Largest coordinate magnitude of an input position (observer, obstacle
/// anchor, local vertex, tracked object).
pub const COORD_LIMIT: i64 = 536870912;

/// A point or vector of the integer plane.
#[derive(Clone, Copy, Debug, PartialEq, Eq, Structural)]
pub struct Point {
    pub x: i64,
    pub y: i64,
}

impl Point {
    pub fn new(x: i64, y: i64) -> (r: Point)
        ensures
            r.x == x,
            r.y == y,
    {
        Point { x, y }
    }

    /// Both coordinates lie within `lim` of zero.
    pub open spec fn within(self, lim: int) -> bool {
        -lim <= self.x <= lim && -lim <= self.y <= lim
    }
}

/// The 2D cross product (perpendicular dot product) of `(ax, ay)` and `(bx, by)`.
pub open spec fn cross(ax: int, ay: int, bx: int, by: int) -> int {
    ax * by - ay * bx
}

/// Determinant of the ray/segment system: zero when they are parallel.
pub open spec fn hit_det(d: Point, a: Point, b: Point) -> int {
    cross(d.x as int, d.y as int, b.x - a.x, b.y - a.y)
}

/// Numerator of the ray parameter at the crossing, over `hit_det`.
pub open spec fn ray_num(o: Point, a: Point, b: Point) -> int {
    cross(b.x - a.x, b.y - a.y, o.x - a.x, o.y - a.y)
}

/// Numerator of the segment parameter at the crossing, over `hit_det`.
pub open spec fn seg_num(o: Point, d: Point, a: Point) -> int {
    cross(d.x as int, d.y as int, o.x - a.x, o.y - a.y)
}

/// `v` with the sign that makes the denominator `det` positive.
pub open spec fn signed(v: int, det: int) -> int {
    if det < 0 { -v } else { v }
}

/// The ray from `o` along `d` meets the closed segment `[a, b]`: the system is
/// not degenerate, the ray parameter is non-negative and the segment
/// parameter lies in `[0, 1]`.
pub open spec fn ray_hits(o: Point, d: Point, a: Point, b: Point) -> bool {
    let det = hit_det(d, a, b);
    det != 0 && signed(ray_num(o, a, b), det) >= 0 && 0 <= signed(seg_num(o, d, a), det)
        && signed(seg_num(o, d, a), det) <= signed(det, det)
}

/// A point of a ray `o + d * t`, with `t = num / den` and `den > 0`.
#[derive(Clone, Copy, Debug, PartialEq, Eq, Structural)]
pub struct RayHit {
    pub num: i128,
    pub den: i128,
}

impl RayHit {
    /// `self` lies no farther along the ray than `other`.
    pub open spec fn le(self, other: RayHit) -> bool {
        self.num * other.den <= other.num * self.den
    }

    /// `self` and `other` denote the same ray parameter.
    pub open spec fn same(self, other: RayHit) -> bool {
        self.num * other.den == other.num * self.den
    }
}

/// Where the ray from `ray_origin` along `ray_dir` meets the segment from
/// `seg_start` to `seg_end`, as a ray parameter; `None` when the two are
/// parallel or the crossing is behind the ray or outside the segment.
pub fn ray_segment_interaction(ray_origin: Point, ray_dir: Point, seg_start: Point, seg_end: Point) -> (r: Option<RayHit>)
    requires
        ray_origin.within(2 * COORD_LIMIT),
        ray_dir.within(2 * COORD_LIMIT),
        seg_start.within(2 * COORD_LIMIT),
        seg_end.within(2 * COORD_LIMIT),
    ensures
        r.is_some() == ray_hits(ray_origin, ray_dir, seg_start, seg_end),
        r.is_some() ==> {
            let det = hit_det(ray_dir, seg_start, seg_end);
            &&& r.unwrap().den == signed(det, det)
            &&& r.unwrap().num == signed(ray_num(ray_origin, seg_start, seg_end), det)
            &&& 0 < r.unwrap().den <= 0x8000_0000_0000_0000
            &&& 0 <= r.unwrap().num <= 0x8000_0000_0000_0000
        },
{
    let v1x = ray_origin.x as i128 - seg_start.x as i128;
    let v1y = ray_origin.y as i128 - seg_start.y as i128;
    let v2x = seg_end.x as i128 - seg_start.x as i128;
    let v2y = seg_end.y as i128 - seg_start.y as i128;
    let dx = ray_dir.x as i128;
    let dy = ray_dir.y as i128;
    assert(-0x8000_0000 <= v1x <= 0x8000_0000 && -0x8000_0000 <= v1y <= 0x8000_0000);
    assert(-0x8000_0000 <= v2x <= 0x8000_0000 && -0x8000_0000 <= v2y <= 0x8000_0000);
    proof {
        lemma_small_product(dx as int, v2y as int);
        lemma_small_product(dy as int, v2x as int);
        lemma_small_product(v2x as int, v1y as int);
        lemma_small_product(v2y as int, v1x as int);
        lemma_small_product(dx as int, v1y as int);
        lemma_small_product(dy as int, v1x as int);
    }
    let det = dx * v2y - dy * v2x;
    if det == 0 {
        return None;
    }
    let mut n1 = v2x * v1y - v2y * v1x;
    let mut n2 = dx * v1y - dy * v1x;
    let mut den = det;
    if det < 0 {
        n1 = -n1;
        n2 = -n2;
        den = -det;
    }
    if n1 >= 0 && n2 >= 0 && n2 <= den {
        Some(RayHit { num: n1, den })
    } else {
        None
    }
}

proof fn lemma_small_product(a: int, b: int)
    requires
        -0x8000_0000 <= a <= 0x8000_0000,
        -0x8000_0000 <= b <= 0x8000_0000,
    ensures
        -0x4000_0000_0000_0000 <= a * b <= 0x4000_0000_0000_0000,
{
    assert(-0x4000_0000_0000_0000 <= a * b <= 0x4000_0000_0000_0000) by (nonlinear_arith)
        requires
            -0x8000_0000 <= a <= 0x8000_0000,
            -0x8000_0000 <= b <= 0x8000_0000,
    ;
}

/// Index of the vertex before `i` in a closed polygon of `n` vertices.
pub open spec fn prev_index(i: int, n: int) -> int {
    if i == 0 { n - 1 } else { i - 1 }
}

/// The horizontal ray from `p` towards +x crosses the edge from `vi` to `vj`
/// (the edge straddles `p.y`, and the crossing lies strictly right of `p`).
pub open spec fn crosses(p: Point, vi: Point, vj: Point) -> bool {
    let dy = vj.y - vi.y;
    let lhs = (p.x - vi.x) * dy;
    let rhs = (vj.x - vi.x) * (p.y - vi.y);
    ((vi.y > p.y) != (vj.y > p.y)) && (if dy > 0 { lhs < rhs } else { lhs > rhs })
}

/// Parity of the crossings over the first `k` edges `(poly[i-1], poly[i])`,
/// where edge `0` is the closing edge from the last vertex.
pub open spec fn crossing_parity(p: Point, poly: Seq<Point>, k: int) -> bool
    decreases k,
{
    if k <= 0 {
        false
    } else {
        crossing_parity(p, poly, k - 1) != crosses(p, poly[k - 1], poly[prev_index(k - 1, poly.len() as int)])
    }
}

/// Even-odd rule: `p` is inside the closed polygon `poly` (at least three
/// vertices) when a ray from it crosses the boundary an odd number of times.
/// Points on the boundary fall on either side.
pub open spec fn inside(p: Point, poly: Seq<Point>) -> bool {
    poly.len() >= 3 && crossing_parity(p, poly, poly.len() as int)
}

fn edge_crosses(p: Point, vi: Point, vj: Point) -> (r: bool)
    requires
        p.within(4 * COORD_LIMIT),
        vi.within(4 * COORD_LIMIT),
        vj.within(4 * COORD_LIMIT),
    ensures
        r == crosses(p, vi, vj),
{
    if (vi.y > p.y) == (vj.y > p.y) {
        return false;
    }
    let dy = vj.y as i128 - vi.y as i128;
    let ax = p.x as i128 - vi.x as i128;
    let bx = vj.x as i128 - vi.x as i128;
    let by = p.y as i128 - vi.y as i128;
    proof {
        lemma_wide_product(ax as int, dy as int);
        lemma_wide_product(bx as int, by as int);
    }
    let lhs = ax * dy;
    let rhs = bx * by;
    if dy > 0 {
        lhs < rhs
    } else {
        lhs > rhs
    }
}

/// Whether `point` lies inside `polygon` by the even-odd rule; a polygon of
/// fewer than three vertices contains nothing.
pub fn in_polygon(point: Point, polygon: &Vec<Point>) -> (r: bool)
    requires
        point.within(4 * COORD_LIMIT),
        forall|i: int| 0 <= i < polygon@.len() ==> (#[trigger] polygon@[i]).within(4 * COORD_LIMIT),
    ensures
        r == inside(point, polygon@),
{
    let n = polygon.len();
    if n < 3 {
        return false;
    }
    let mut result = false;
    let mut j: usize = n - 1;
    let mut i: usize = 0;
    while i < n
        invariant
            n == polygon@.len(),
            n >= 3,
            0 <= i <= n,
            j as int == prev_index(i as int, n as int),
            result == crossing_parity(point, polygon@, i as int),
            point.within(4 * COORD_LIMIT),
            forall|k: int| 0 <= k < polygon@.len() ==> (#[trigger] polygon@[k]).within(4 * COORD_LIMIT),
        decreases n - i,
    {
        if edge_crosses(point, polygon[i], polygon[j]) {
            result = !result;
        }
        j = i;
        i = i + 1;
    }
    result
}

proof fn lemma_wide_product(a: int, b: int)
    requires
        -0x1_0000_0000 <= a <= 0x1_0000_0000,
        -0x1_0000_0000 <= b <= 0x1_0000_0000,
    ensures
        -0x1_0000_0000_0000_0000 <= a * b <= 0x1_0000_0000_0000_0000,
{
    assert(-0x1_0000_0000_0000_0000 <= a * b <= 0x1_0000_0000_0000_0000) by (nonlinear_arith)
        requires
            -0x1_0000_0000 <= a <= 0x1_0000_0000,
            -0x1_0000_0000 <= b <= 0x1_0000_0000,
    ;
}

} // verus!
