use vstd::prelude::*;
use vstd::arithmetic::div_mod::{lemma_fundamental_div_mod, lemma_mod_multiples_basic, lemma_mod_multiples_vanish};

verus! {

/// One full turn in angle units (binary angle measure: 2^32 units per turn).
pub const TURN: i64 = 4294967296;

/// Half a turn (pi radians).
pub const HALF_TURN: i64 = 2147483648;

/// Offset that brackets an obstacle corner on both sides, and the distance
/// below which two sample angles count as one (about 1e-5 radians).
pub const ANGLE_EPS: i64 = 6836;

/// Number of evenly spaced samples across the cone, both bounds included.
pub const SAMPLE_COUNT: i64 = 16;

/// The angle congruent to `a` modulo a full turn that lies in
/// `(-HALF_TURN, HALF_TURN]`.
pub open spec fn normalized(a: int) -> int {
    let m = a % (TURN as int);
    if m > HALF_TURN { m - TURN } else { m }
}

/// `a` and `b` differ by a whole number of turns.
pub open spec fn turns_apart(a: int, b: int) -> bool {
    (a - b) % (TURN as int) == 0
}

/// Wraps `angle` into `(-HALF_TURN, HALF_TURN]` by a whole number of turns,
/// in constant time whatever the input.
pub fn normalize_angle(angle: i64) -> (r: i64)
    ensures
        r == normalized(angle as int),
        -HALF_TURN < r <= HALF_TURN,
        turns_apart(r as int, angle as int),
{
    normalize_wide(angle as i128)
}

fn normalize_wide(angle: i128) -> (r: i64)
    requires
        -0x1_0000_0000_0000_0000 <= angle <= 0x1_0000_0000_0000_0000,
    ensures
        r == normalized(angle as int),
        -HALF_TURN < r <= HALF_TURN,
        turns_apart(r as int, angle as int),
{
    let shifted: i128 = angle + 0x2_0000_0000_0000_0000i128;
    let m: i128 = shifted % (TURN as i128);
    proof {
        lemma_mod_multiples_vanish(0x2_0000_0000, angle as int, TURN as int);
        assert(0x2_0000_0000 * TURN + angle == shifted);
        assert(m == (angle as int) % (TURN as int));
        lemma_fundamental_div_mod(angle as int, TURN as int);
        let q = (angle as int) / (TURN as int);
        if m > HALF_TURN {
            assert((m - TURN) - angle == (-q - 1) * TURN) by (nonlinear_arith)
                requires m == angle - TURN * q;
            lemma_mod_multiples_basic(-q - 1, TURN as int);
        } else {
            assert(m - angle == (-q) * TURN) by (nonlinear_arith)
                requires m == angle - TURN * q;
            lemma_mod_multiples_basic(-q, TURN as int);
        }
    }
    if m > HALF_TURN as i128 {
        (m - TURN as i128) as i64
    } else {
        m as i64
    }
}

/// Whether `angle` lies within `half_cone` of `center_angle`, either way round.
pub fn is_angle_in_cone(angle: i64, center_angle: i64, half_cone: i64) -> (r: bool)
    ensures
        r == (-half_cone <= normalized(angle - center_angle) <= half_cone),
{
    let diff = normalize_wide(angle as i128 - center_angle as i128);
    -(half_cone as i128) <= diff as i128 && diff <= half_cone
}

/// The `i`-th of the evenly spaced samples across `[-half, half]`.
pub open spec fn uniform_delta(half: int, i: int) -> int {
    -half + uniform_step(half, i)
}

/// `2 * half * i / (SAMPLE_COUNT - 1)`, rounded toward zero.
pub open spec fn uniform_step(half: int, i: int) -> int {
    if half >= 0 {
        (2 * half * i) / (SAMPLE_COUNT - 1)
    } else {
        -((2 * (-half) * i) / (SAMPLE_COUNT - 1))
    }
}

proof fn lemma_step_bounds(half: int, i: int)
    requires
        -HALF_TURN <= half <= HALF_TURN,
        0 <= i < SAMPLE_COUNT,
    ensures
        half >= 0 ==> 0 <= uniform_step(half, i) <= 2 * half,
        half < 0 ==> 2 * half <= uniform_step(half, i) <= 0,
{
    let a = if half >= 0 { half } else { -half };
    let x = 2 * a * i;
    lemma_fundamental_div_mod(x, 15);
    assert(0 <= x <= 30 * a) by (nonlinear_arith)
        requires 0 <= a, 0 <= i <= 15, x == 2 * a * i;
    assert(0 <= x / 15 <= 2 * a) by (nonlinear_arith)
        requires x == 15 * (x / 15) + x % 15, 0 <= x % 15 < 15, 0 <= x <= 30 * a;
}

/// The corner is inside the cone of half-aperture `half`.
pub open spec fn corner_in_cone(d: i64, half: int) -> bool {
    -half <= d <= half
}

/// The bracketing triples of the first `k` corner deltas that lie in the cone.
pub open spec fn corner_candidates(corners: Seq<i64>, half: int, k: int) -> Seq<i64>
    decreases k,
{
    if k <= 0 {
        seq![]
    } else {
        let d = corners[k - 1];
        let rest = corner_candidates(corners, half, k - 1);
        if corner_in_cone(d, half) {
            rest + seq![(d - ANGLE_EPS) as i64, d, (d + ANGLE_EPS) as i64]
        } else {
            rest
        }
    }
}

/// The first `k` evenly spaced samples.
pub open spec fn uniform_candidates(half: int, k: int) -> Seq<i64>
    decreases k,
{
    if k <= 0 {
        seq![]
    } else {
        uniform_candidates(half, k - 1).push(uniform_delta(half, k - 1) as i64)
    }
}

/// Every angle offset worth casting a ray at: a bracketing triple around each
/// corner inside the cone, both cone bounds, and the evenly spaced samples.
pub open spec fn candidate_deltas(corners: Seq<i64>, half: int) -> Seq<i64> {
    corner_candidates(corners, half, corners.len() as int) + seq![(-half) as i64, half as i64]
        + uniform_candidates(half, SAMPLE_COUNT as int)
}

/// Strictly increasing.
pub open spec fn strictly_sorted(s: Seq<i64>) -> bool {
    forall|i: int, j: int| 0 <= i < j < s.len() ==> s[i] < s[j]
}

/// Increasing, with neighbours at least `ANGLE_EPS` apart.
pub open spec fn spaced(s: Seq<i64>) -> bool {
    forall|i: int, j: int| 0 <= i < j < s.len() ==> s[i] + ANGLE_EPS <= s[j]
}

/// Some element of `r` lies at `c` or less than `ANGLE_EPS` below it.
pub open spec fn covered(r: Seq<i64>, c: i64) -> bool {
    exists|j: int| 0 <= j < r.len() && #[trigger] r[j] <= c && c < r[j] + ANGLE_EPS
}

/// `r` is what sorting `cands` and dropping each value within `ANGLE_EPS` of
/// the last value kept leaves: spaced, drawn from `cands`, and covering it.
pub open spec fn is_thinned(cands: Seq<i64>, r: Seq<i64>) -> bool {
    &&& spaced(r)
    &&& forall|i: int| 0 <= i < r.len() ==> cands.contains(#[trigger] r[i])
    &&& forall|c: i64| cands.contains(c) ==> #[trigger] covered(r, c)
}

fn collect_candidates(corner_deltas: &Vec<i64>, half_cone: i64) -> (r: Vec<i64>)
    requires
        -HALF_TURN <= half_cone <= HALF_TURN,
    ensures
        r@ == candidate_deltas(corner_deltas@, half_cone as int),
        forall|i: int| 0 <= i < r@.len() ==> -0x1_0000_0000 <= #[trigger] r@[i] <= 0x1_0000_0000,
{
    let mut cands: Vec<i64> = Vec::new();
    let mut i: usize = 0;
    while i < corner_deltas.len()
        invariant
            0 <= i <= corner_deltas@.len(),
            -HALF_TURN <= half_cone <= HALF_TURN,
            cands@ == corner_candidates(corner_deltas@, half_cone as int, i as int),
            forall|j: int| 0 <= j < cands@.len() ==> -0x1_0000_0000 <= #[trigger] cands@[j] <= 0x1_0000_0000,
        decreases corner_deltas@.len() - i,
    {
        let d = corner_deltas[i];
        if -half_cone <= d && d <= half_cone {
            cands.push(d - ANGLE_EPS);
            cands.push(d);
            cands.push(d + ANGLE_EPS);
        }
        proof {
            let ghost prev = corner_candidates(corner_deltas@, half_cone as int, i as int);
            if corner_in_cone(d, half_cone as int) {
                assert(cands@ =~= prev + seq![(d - ANGLE_EPS) as i64, d, (d + ANGLE_EPS) as i64]);
            }
        }
        i = i + 1;
    }
    let corner_part = Ghost(cands@);
    cands.push(-half_cone);
    cands.push(half_cone);
    let bounds_part = Ghost(cands@);
    assert(bounds_part@ =~= corner_part@ + seq![(-half_cone) as i64, half_cone as i64]);
    let mut k: i64 = 0;
    while k < SAMPLE_COUNT
        invariant
            0 <= k <= SAMPLE_COUNT,
            -HALF_TURN <= half_cone <= HALF_TURN,
            cands@ == bounds_part@ + uniform_candidates(half_cone as int, k as int),
            forall|j: int| 0 <= j < cands@.len() ==> -0x1_0000_0000 <= #[trigger] cands@[j] <= 0x1_0000_0000,
        decreases SAMPLE_COUNT - k,
    {
        let a: i64 = if half_cone >= 0 { half_cone } else { -half_cone };
        proof {
            lemma_step_bounds(half_cone as int, k as int);
            assert(0 <= 2 * a * k <= 2 * HALF_TURN * 15) by (nonlinear_arith)
                requires 0 <= a <= HALF_TURN, 0 <= k < 16;
        }
        let magnitude: i64 = (2 * a * k) / (SAMPLE_COUNT - 1);
        let step: i64 = if half_cone >= 0 { magnitude } else { -magnitude };
        assert(step == uniform_step(half_cone as int, k as int));
        cands.push(-half_cone + step);
        assert(cands@ =~= bounds_part@ + uniform_candidates(half_cone as int, k + 1));
        k = k + 1;
    }
    cands
}

fn insert_sorted(v: &mut Vec<i64>, x: i64)
    requires
        strictly_sorted(old(v)@),
    ensures
        strictly_sorted(final(v)@),
        forall|y: i64| final(v)@.contains(y) <==> (old(v)@.contains(y) || y == x),
{
    let mut p: usize = 0;
    while p < v.len() && v[p] < x
        invariant
            0 <= p <= v@.len(),
            v@ == old(v)@,
            forall|k: int| 0 <= k < p ==> v@[k] < x,
        decreases v@.len() - p,
    {
        p = p + 1;
    }
    if p < v.len() && v[p] == x {
        assert(v@[p as int] == x);
        return;
    }
    let ghost before = v@;
    v.insert(p, x);
    assert(v@ =~= before.subrange(0, p as int).push(x) + before.subrange(p as int, before.len() as int));
    assert forall|y: i64| v@.contains(y) <==> (before.contains(y) || y == x) by {
        if y == x {
            assert(v@[p as int] == x);
        }
        if before.contains(y) {
            let k = choose|k: int| 0 <= k < before.len() && before[k] == y;
            if k < p {
                assert(v@[k] == y);
            } else {
                assert(v@[k + 1] == y);
            }
        }
        if v@.contains(y) {
            let k = choose|k: int| 0 <= k < v@.len() && v@[k] == y;
            if k < p {
                assert(before[k] == y);
            } else if k > p {
                assert(before[k - 1] == y);
            }
        }
    }
}

fn thin_sorted(s: &Vec<i64>) -> (r: Vec<i64>)
    requires
        strictly_sorted(s@),
        forall|i: int| 0 <= i < s@.len() ==> -0x1_0000_0000 <= #[trigger] s@[i] <= 0x1_0000_0000,
    ensures
        is_thinned(s@, r@),
{
    let mut r: Vec<i64> = Vec::new();
    let ghost mut from: Seq<int> = seq![];
    let ghost mut cover: Seq<int> = seq![];
    let mut i: usize = 0;
    while i < s.len()
        invariant
            0 <= i <= s@.len(),
            strictly_sorted(s@),
            forall|k: int| 0 <= k < s@.len() ==> -0x1_0000_0000 <= #[trigger] s@[k] <= 0x1_0000_0000,
            spaced(r@),
            from.len() == r@.len(),
            forall|j: int| 0 <= j < r@.len() ==> 0 <= #[trigger] from[j] < i && s@[from[j]] == r@[j],
            cover.len() == i,
            forall|k: int| 0 <= k < i ==> 0 <= #[trigger] cover[k] < r@.len()
                && r@[cover[k]] <= s@[k] && s@[k] < r@[cover[k]] + ANGLE_EPS,
            i > 0 ==> r@.len() > 0,
        decreases s@.len() - i,
    {
        let x = s[i];
        let n = r.len();
        proof {
            if n > 0 {
                assert(s@[from[n - 1]] == r@[n - 1]);
            }
        }
        if n == 0 || r[n - 1] + ANGLE_EPS <= x {
            proof {
                if n > 0 {
                    assert(r@[n - 1] + ANGLE_EPS <= x);
                    assert forall|a: int, b: int| 0 <= a < b < n + 1 implies r@.push(x)[a] + ANGLE_EPS <= r@.push(x)[b] by {
                        if b == n && a < n - 1 {
                            assert(r@[a] + ANGLE_EPS <= r@[n - 1]);
                        }
                    }
                }
                cover = cover.push(n as int);
                from = from.push(i as int);
            }
            r.push(x);
        } else {
            proof {
                let f = from[n - 1];
                assert(s@[f] < x);
                cover = cover.push((n - 1) as int);
            }
        }
        i = i + 1;
    }
    proof {
        assert forall|j: int| 0 <= j < r@.len() implies s@.contains(#[trigger] r@[j]) by {
            assert(s@[from[j]] == r@[j]);
        }
        assert forall|c: i64| s@.contains(c) implies covered(r@, c) by {
            let k = choose|k: int| 0 <= k < s@.len() && s@[k] == c;
            assert(r@[cover[k]] <= c);
        }
    }
    r
}

/// The ray offsets, relative to the cone's center, at which the visibility
/// boundary is sampled, in increasing order.
///
/// `corner_deltas` holds, for each obstacle corner within range, its angle
/// relative to the cone's center (as `normalize_angle` gives it); `half_cone`
/// is half the cone's aperture. The candidates are a triple
/// `d - ANGLE_EPS, d, d + ANGLE_EPS` for each corner `d` inside the cone,
/// both cone bounds, and `SAMPLE_COUNT` evenly spaced offsets from bound to
/// bound. They are sorted, and each one within `ANGLE_EPS` of the last one
/// kept is dropped.
pub fn sample_deltas(corner_deltas: &Vec<i64>, half_cone: i64) -> (r: Vec<i64>)
    requires
        -HALF_TURN <= half_cone <= HALF_TURN,
    ensures
        is_thinned(candidate_deltas(corner_deltas@, half_cone as int), r@),
{
    let cands = collect_candidates(corner_deltas, half_cone);
    let mut sorted: Vec<i64> = Vec::new();
    let mut i: usize = 0;
    while i < cands.len()
        invariant
            0 <= i <= cands@.len(),
            forall|j: int| 0 <= j < cands@.len() ==> -0x1_0000_0000 <= #[trigger] cands@[j] <= 0x1_0000_0000,
            strictly_sorted(sorted@),
            forall|y: i64| sorted@.contains(y) <==> cands@.subrange(0, i as int).contains(y),
        decreases cands@.len() - i,
    {
        let ghost before = sorted@;
        insert_sorted(&mut sorted, cands[i]);
        proof {
            let nxt = cands@.subrange(0, i + 1);
            let pre = cands@.subrange(0, i as int);
            assert forall|y: i64| sorted@.contains(y) <==> nxt.contains(y) by {
                if nxt.contains(y) {
                    let k = choose|k: int| 0 <= k < nxt.len() && nxt[k] == y;
                    if k < i {
                        assert(pre[k] == y);
                    }
                }
                if pre.contains(y) {
                    let k = choose|k: int| 0 <= k < pre.len() && pre[k] == y;
                    assert(nxt[k] == y);
                }
                if y == cands@[i as int] {
                    assert(nxt[i as int] == y);
                }
            }
        }
        i = i + 1;
    }
    assert(cands@.subrange(0, cands@.len() as int) =~= cands@);
    proof {
        assert forall|k: int| 0 <= k < sorted@.len() implies -0x1_0000_0000 <= #[trigger] sorted@[k] <= 0x1_0000_0000 by {
            assert(sorted@.contains(sorted@[k]));
            let j = choose|j: int| 0 <= j < cands@.len() && cands@[j] == sorted@[k];
        }
    }
    let r = thin_sorted(&sorted);
    proof {
        assert forall|c: i64| cands@.contains(c) implies covered(r@, c) by {
            assert(sorted@.contains(c));
        }
    }
    r
}

proof fn lemma_thinned_least(cands: Seq<i64>, r: Seq<i64>, m: int, c: i64)
    requires
        is_thinned(cands, r),
        0 <= m < r.len(),
        cands.contains(c),
        m == 0 || c >= r[m - 1] + ANGLE_EPS,
    ensures
        r[m] <= c,
{
    assert(covered(r, c));
    let j = choose|j: int| 0 <= j < r.len() && #[trigger] r[j] <= c && c < r[j] + ANGLE_EPS;
    if j < m {
        if j < m - 1 {
            assert(r[j] + ANGLE_EPS <= r[m - 1]);
        }
    } else if j > m {
        assert(r[m] + ANGLE_EPS <= r[j]);
    }
}

proof fn lemma_thinned_exhausted(cands: Seq<i64>, r: Seq<i64>, c: i64)
    requires
        is_thinned(cands, r),
        cands.contains(c),
    ensures
        r.len() > 0,
        c < r[r.len() - 1] + ANGLE_EPS,
{
    assert(covered(r, c));
    let j = choose|j: int| 0 <= j < r.len() && #[trigger] r[j] <= c && c < r[j] + ANGLE_EPS;
    if j < r.len() - 1 {
        assert(r[j] + ANGLE_EPS <= r[r.len() - 1]);
    }
}

proof fn lemma_thinned_prefix(cands: Seq<i64>, r1: Seq<i64>, r2: Seq<i64>, m: int)
    requires
        is_thinned(cands, r1),
        is_thinned(cands, r2),
        0 <= m <= r1.len(),
        m <= r2.len(),
    ensures
        forall|i: int| 0 <= i < m ==> r1[i] == r2[i],
    decreases m,
{
    if m > 0 {
        lemma_thinned_prefix(cands, r1, r2, m - 1);
        let i = m - 1;
        assert(cands.contains(r1[i]));
        assert(cands.contains(r2[i]));
        lemma_thinned_least(cands, r1, i, r2[i]);
        lemma_thinned_least(cands, r2, i, r1[i]);
    }
}

/// The sample offsets are determined by their candidates: two results of
/// sorting and thinning the same candidates are identical.
pub proof fn lemma_thinned_unique(cands: Seq<i64>, r1: Seq<i64>, r2: Seq<i64>)
    requires
        is_thinned(cands, r1),
        is_thinned(cands, r2),
    ensures
        r1 == r2,
{
    if r1.len() < r2.len() {
        lemma_thinned_prefix(cands, r1, r2, r1.len() as int);
        let c = r2[r1.len() as int];
        assert(cands.contains(c));
        if r1.len() > 0 {
            assert(r2[r1.len() - 1] + ANGLE_EPS <= c);
        }
        lemma_thinned_exhausted(cands, r1, c);
    } else if r2.len() < r1.len() {
        lemma_thinned_prefix(cands, r2, r1, r2.len() as int);
        let c = r1[r2.len() as int];
        assert(cands.contains(c));
        if r2.len() > 0 {
            assert(r1[r2.len() - 1] + ANGLE_EPS <= c);
        }
        lemma_thinned_exhausted(cands, r2, c);
    } else {
        lemma_thinned_prefix(cands, r1, r2, r1.len() as int);
        assert(r1 =~= r2);
    }
}

proof fn lemma_corner_candidates_bounds(corners: Seq<i64>, half: int, k: int)
    requires
        -HALF_TURN <= half <= HALF_TURN,
        0 <= k <= corners.len(),
        forall|i: int| 0 <= i < corners.len() && corner_in_cone(#[trigger] corners[i], half)
            ==> -half + ANGLE_EPS <= corners[i] <= half - 2 * ANGLE_EPS,
    ensures
        forall|j: int| 0 <= j < corner_candidates(corners, half, k).len()
            ==> -half <= #[trigger] corner_candidates(corners, half, k)[j] <= half - ANGLE_EPS,
    decreases k,
{
    if k > 0 {
        lemma_corner_candidates_bounds(corners, half, k - 1);
        let rest = corner_candidates(corners, half, k - 1);
        let d = corners[k - 1];
        if corner_in_cone(d, half) {
            let cur = corner_candidates(corners, half, k);
            assert forall|j: int| 0 <= j < cur.len() implies -half <= #[trigger] cur[j] <= half - ANGLE_EPS by {
                if j < rest.len() {
                    assert(cur[j] == rest[j]);
                }
            }
        }
    }
}

proof fn lemma_uniform_candidates_values(half: int, k: int)
    requires
        -HALF_TURN <= half <= HALF_TURN,
        0 <= k <= SAMPLE_COUNT,
    ensures
        uniform_candidates(half, k).len() == k,
        forall|j: int| 0 <= j < k ==> #[trigger] uniform_candidates(half, k)[j] == uniform_delta(half, j),
    decreases k,
{
    if k > 0 {
        lemma_uniform_candidates_values(half, k - 1);
        lemma_step_bounds(half, k - 1);
    }
}

proof fn lemma_uniform_delta_bounds(half: int, j: int)
    requires
        8 * ANGLE_EPS <= half <= HALF_TURN,
        0 <= j < SAMPLE_COUNT,
    ensures
        -half <= uniform_delta(half, j) <= half,
        j < SAMPLE_COUNT - 1 ==> uniform_delta(half, j) <= half - ANGLE_EPS,
        j == SAMPLE_COUNT - 1 ==> uniform_delta(half, j) == half,
{
    let x = 2 * half * j;
    lemma_fundamental_div_mod(x, 15);
    let q = x / 15;
    let r = x % 15;
    assert(0 <= x <= 30 * half) by (nonlinear_arith)
        requires 0 <= half, 0 <= j <= 15, x == 2 * half * j;
    assert(0 <= q <= 2 * half) by (nonlinear_arith)
        requires x == 15 * q + r, 0 <= r < 15, 0 <= x <= 30 * half;
    if j < 15 {
        assert(x <= 28 * half) by (nonlinear_arith)
            requires 0 <= half, 0 <= j <= 14, x == 2 * half * j;
        assert(q <= 2 * half - ANGLE_EPS) by (nonlinear_arith)
            requires x == 15 * q + r, 0 <= r < 15, x <= 28 * half, half >= 8 * ANGLE_EPS;
    } else {
        assert(x == 15 * (2 * half));
        vstd::arithmetic::div_mod::lemma_div_by_multiple(2 * half, 15);
    }
}

proof fn lemma_candidates_bounds(corners: Seq<i64>, half: int)
    requires
        8 * ANGLE_EPS <= half <= HALF_TURN,
        forall|i: int| 0 <= i < corners.len() && corner_in_cone(#[trigger] corners[i], half)
            ==> -half + ANGLE_EPS <= corners[i] <= half - 2 * ANGLE_EPS,
    ensures
        candidate_deltas(corners, half).contains((-half) as i64),
        candidate_deltas(corners, half).contains(half as i64),
        forall|c: i64| #[trigger] candidate_deltas(corners, half).contains(c)
            ==> -half <= c <= half && (c <= half - ANGLE_EPS || c == half),
{
    let a = corner_candidates(corners, half, corners.len() as int);
    let u = uniform_candidates(half, SAMPLE_COUNT as int);
    let cands = candidate_deltas(corners, half);
    lemma_corner_candidates_bounds(corners, half, corners.len() as int);
    lemma_uniform_candidates_values(half, SAMPLE_COUNT as int);
    assert(cands[a.len() as int] == (-half) as i64);
    assert(cands[a.len() as int + 1] == half as i64);
    assert forall|c: i64| #[trigger] cands.contains(c) implies -half <= c <= half && (c <= half - ANGLE_EPS || c == half) by {
        let k = choose|k: int| 0 <= k < cands.len() && cands[k] == c;
        if k < a.len() {
            assert(cands[k] == a[k]);
        } else if k >= a.len() + 2 {
            let j = k - a.len() - 2;
            assert(cands[k] == u[j]);
            lemma_uniform_delta_bounds(half, j);
        }
    }
}

/// Angle coverage: the sample offsets run from exactly `-half` to exactly
/// `half`. This holds when the cone is wide enough for the evenly spaced
/// samples to lie `ANGLE_EPS` apart and no corner brackets reach past, or
/// within `ANGLE_EPS` below, a cone bound; otherwise a bracket offset can
/// take a bound's place.
pub proof fn lemma_samples_span_cone(corners: Seq<i64>, half: int, r: Seq<i64>)
    requires
        8 * ANGLE_EPS <= half <= HALF_TURN,
        forall|i: int| 0 <= i < corners.len() && corner_in_cone(#[trigger] corners[i], half)
            ==> -half + ANGLE_EPS <= corners[i] <= half - 2 * ANGLE_EPS,
        is_thinned(candidate_deltas(corners, half), r),
    ensures
        r.len() > 0,
        r[0] == -half,
        r[r.len() - 1] == half,
{
    let cands = candidate_deltas(corners, half);
    lemma_candidates_bounds(corners, half);
    let lo: i64 = (-half) as i64;
    let hi: i64 = half as i64;
    assert(covered(r, lo));
    let j0 = choose|j: int| 0 <= j < r.len() && #[trigger] r[j] <= lo && lo < r[j] + ANGLE_EPS;
    assert(cands.contains(r[0]));
    if j0 > 0 {
        assert(r[0] + ANGLE_EPS <= r[j0]);
    }
    assert(covered(r, hi));
    let j1 = choose|j: int| 0 <= j < r.len() && #[trigger] r[j] <= hi && hi < r[j] + ANGLE_EPS;
    assert(cands.contains(r[j1]));
    let last = r.len() - 1;
    assert(cands.contains(r[last]));
    if j1 < last {
        assert(r[j1] + ANGLE_EPS <= r[last]);
    }
}

} // verus!
