use vstd::prelude::*;

verus! {

/// A point (or vector) in the plane with exact integer coordinates.
///
/// All geometry in this crate is exact: edge directions are compared with
/// integer cross products instead of floating-point angles, so every
/// geometric predicate is decidable and provable.
#[derive(Clone, Copy, PartialEq, Eq, Structural, Debug)]
pub struct Point {
    pub x: i64,
    pub y: i64,
}

/// Largest coordinate magnitude a canonical polygon may carry.
pub const GEOM_BOUND: i64 = 17179869184;

/// Largest coordinate magnitude allowed for polygons fed to the
/// Minkowski-sum walk; keeps every cursor position within `GEOM_BOUND`.
pub const NEST_BOUND: i64 = 1073741824;

/// Largest vertex count a canonical polygon may carry.
pub const VERT_LIMIT: usize = 1048576;

/// View of a vertex ring as a sequence of unbounded integer pairs; all
/// geometric spec functions are stated over this view.
pub open spec fn pview(s: Seq<Point>) -> Seq<(int, int)> {
    s.map_values(|p: Point| (p.x as int, p.y as int))
}

/// Cross product of two vectors; positive when `v` lies counter-clockwise
/// of `u` by less than a half turn.
pub open spec fn cross(u: (int, int), v: (int, int)) -> int {
    u.0 * v.1 - u.1 * v.0
}

/// True when the direction angle of the nonzero vector `u` lies in [pi, 2*pi):
/// strictly below the x axis, or on it pointing in the negative direction.
pub open spec fn upper(u: (int, int)) -> bool {
    u.1 < 0 || (u.1 == 0 && u.0 < 0)
}

/// Exact order on direction angles in [0, 2*pi): first by half plane, then by
/// cross product within a half plane.
pub open spec fn angle_lt(u: (int, int), v: (int, int)) -> bool {
    if upper(u) != upper(v) {
        !upper(u)
    } else {
        cross(u, v) > 0
    }
}

pub open spec fn angle_le(u: (int, int), v: (int, int)) -> bool {
    !angle_lt(v, u)
}

/// Index of the vertex that follows `i` on the ring of length `n`.
pub open spec fn nxt(i: int, n: int) -> int {
    if i + 1 == n {
        0
    } else {
        i + 1
    }
}

/// Index of the vertex that precedes `i` on the ring of length `n`.
pub open spec fn prv(i: int, n: int) -> int {
    if i == 0 {
        n - 1
    } else {
        i - 1
    }
}

/// Edge vector leaving vertex `i` of the ring `s`.
pub open spec fn edge(s: Seq<(int, int)>, i: int) -> (int, int) {
    let j = nxt(i, s.len() as int);
    (s[j].0 - s[i].0, s[j].1 - s[i].1)
}

/// Twice the signed area of the first `m` shoelace terms of the ring `s`.
pub open spec fn area2_upto(s: Seq<(int, int)>, m: int) -> int
    decreases m,
{
    if m <= 0 {
        0
    } else {
        area2_upto(s, m - 1) + cross(s[m - 1], s[nxt(m - 1, s.len() as int)])
    }
}

/// Twice the signed area of the ring `s`; positive for counter-clockwise rings.
pub open spec fn area2(s: Seq<(int, int)>) -> int {
    area2_upto(s, s.len() as int)
}

/// True when no edge of the ring is the zero vector.
pub open spec fn no_zero_edges(s: Seq<(int, int)>) -> bool {
    forall|i: int| 0 <= i < s.len() ==> #[trigger] edge(s, i) != (0int, 0int)
}

/// The ring re-wound to the counter-clockwise convention: reversed when its
/// signed area is negative, unchanged otherwise.
pub open spec fn oriented(s: Seq<(int, int)>) -> Seq<(int, int)> {
    if area2(s) >= 0 {
        s
    } else {
        s.reverse()
    }
}

/// A contour acceptable as a canonical polygon: at least three vertices,
/// no degenerate edge, and positive area once oriented.
pub open spec fn ring_ok(s: Seq<(int, int)>) -> bool {
    &&& s.len() >= 3
    &&& no_zero_edges(oriented(s))
    &&& area2(oriented(s)) > 0
}

/// The last index in [0, m) where the edge-angle sequence decreases
/// (wraps past zero); 0 when it never does.
pub open spec fn zero_index_upto(s: Seq<(int, int)>, m: int) -> int
    decreases m,
{
    if m <= 0 {
        0
    } else if angle_lt(edge(s, m - 1), edge(s, prv(m - 1, s.len() as int))) {
        m - 1
    } else {
        zero_index_upto(s, m - 1)
    }
}

pub open spec fn zero_index_of(s: Seq<(int, int)>) -> int {
    zero_index_upto(s, s.len() as int)
}

/// The last index in [0, m) where the edge angle crosses from below pi
/// to at least pi; 0 when it never does.
pub open spec fn pi_index_upto(s: Seq<(int, int)>, m: int) -> int
    decreases m,
{
    if m <= 0 {
        0
    } else if !upper(edge(s, prv(m - 1, s.len() as int))) && upper(edge(s, m - 1)) {
        m - 1
    } else {
        pi_index_upto(s, m - 1)
    }
}

pub open spec fn pi_index_of(s: Seq<(int, int)>) -> int {
    pi_index_upto(s, s.len() as int)
}

/// Convexity: read cyclically from the wrap index, the edge angles never
/// decrease all the way around.
pub open spec fn convex(s: Seq<(int, int)>) -> bool {
    let n = s.len() as int;
    let z = zero_index_of(s);
    forall|j: int|
        1 <= j < n ==> angle_le(
            edge(s, (z + j - 1) % n),
            #[trigger] edge(s, (z + j) % n),
        )
}

/// True when `p` beats `q` in bottom-left order: smaller y, or equal y and
/// smaller x.
pub open spec fn below_left(p: (int, int), q: (int, int)) -> bool {
    p.1 < q.1 || (p.1 == q.1 && p.0 < q.0)
}

/// The bottom-left anchor among the first `m` vertices: minimum y, ties
/// broken by minimum x.
pub open spec fn anchor_upto(s: Seq<(int, int)>, m: int) -> (int, int)
    decreases m,
{
    if m <= 1 {
        s[0]
    } else {
        let best = anchor_upto(s, m - 1);
        if below_left(s[m - 1], best) {
            s[m - 1]
        } else {
            best
        }
    }
}

pub open spec fn anchor_of(s: Seq<(int, int)>) -> (int, int) {
    anchor_upto(s, s.len() as int)
}

/// Minimum of the chosen coordinate over the first `m` vertices.
pub open spec fn coord_min_upto(s: Seq<(int, int)>, m: int, use_x: bool) -> int
    decreases m,
{
    let c = if use_x {
        s[m - 1].0
    } else {
        s[m - 1].1
    };
    if m <= 1 {
        c
    } else {
        let best = coord_min_upto(s, m - 1, use_x);
        if c < best {
            c
        } else {
            best
        }
    }
}

/// Maximum of the chosen coordinate over the first `m` vertices.
pub open spec fn coord_max_upto(s: Seq<(int, int)>, m: int, use_x: bool) -> int
    decreases m,
{
    let c = if use_x {
        s[m - 1].0
    } else {
        s[m - 1].1
    };
    if m <= 1 {
        c
    } else {
        let best = coord_max_upto(s, m - 1, use_x);
        if c > best {
            c
        } else {
            best
        }
    }
}

pub open spec fn min_x_of(s: Seq<(int, int)>) -> int {
    coord_min_upto(s, s.len() as int, true)
}

pub open spec fn max_x_of(s: Seq<(int, int)>) -> int {
    coord_max_upto(s, s.len() as int, true)
}

pub open spec fn min_y_of(s: Seq<(int, int)>) -> int {
    coord_min_upto(s, s.len() as int, false)
}

pub open spec fn max_y_of(s: Seq<(int, int)>) -> int {
    coord_max_upto(s, s.len() as int, false)
}

/// All coordinates of the ring bounded by `b` in magnitude.
pub open spec fn coords_bounded(s: Seq<(int, int)>, b: int) -> bool {
    forall|i: int|
        0 <= i < s.len() ==> -b <= (#[trigger] s[i]).0 <= b && -b <= s[i].1 <= b
}

/// Both wrap indices of a ring lie strictly below the scanned length.
pub proof fn lemma_wrap_index_bounds(s: Seq<(int, int)>, m: int)
    requires
        m >= 1,
    ensures
        0 <= zero_index_upto(s, m) < m,
        0 <= pi_index_upto(s, m) < m,
    decreases m,
{
    if m == 1 {
        assert(zero_index_upto(s, 0) == 0);
        assert(pi_index_upto(s, 0) == 0);
    } else {
        lemma_wrap_index_bounds(s, m - 1);
    }
}

/// The shoelace accumulator of a coordinate-bounded ring is bounded by the
/// number of its terms times twice the squared coordinate bound.
pub proof fn lemma_area2_bound(s: Seq<(int, int)>, m: int, b: int)
    requires
        0 <= m <= s.len(),
        0 <= b,
        coords_bounded(s, b),
    ensures
        -(m * (2 * b * b)) <= area2_upto(s, m) <= m * (2 * b * b),
    decreases m,
{
    if m > 0 {
        lemma_area2_bound(s, m - 1, b);
        let u = s[m - 1];
        let v = s[nxt(m - 1, s.len() as int)];
        lemma_mul_bound(u.0, v.1, b);
        lemma_mul_bound(u.1, v.0, b);
        assert(2 * b * b == (b * b) + (b * b)) by (nonlinear_arith);
        assert(-(2 * b * b) <= cross(u, v) <= 2 * b * b);
        assert((m - 1) * (2 * b * b) + (2 * b * b) == m * (2 * b * b)) by (nonlinear_arith);
        assert(-((m - 1) * (2 * b * b)) <= area2_upto(s, m - 1) <= (m - 1) * (2 * b * b));
        assert(area2_upto(s, m) == area2_upto(s, m - 1) + cross(u, v));
    } else {
        assert(m * (2 * b * b) == 0) by (nonlinear_arith)
            requires m == 0,
        ;
    }
}

/// A ring's view bounds each concrete vertex coordinate.
pub proof fn lemma_pt_bounded(v: Seq<Point>, b: int, i: int)
    requires
        coords_bounded(pview(v), b),
        0 <= i < v.len(),
    ensures
        -b <= v[i].x as int <= b,
        -b <= v[i].y as int <= b,
{
    assert(pview(v)[i] == (v[i].x as int, v[i].y as int));
}

/// The anchor scan returns one of the scanned vertices, so it inherits any
/// coordinate bound on the ring.
pub proof fn lemma_anchor_bounded(s: Seq<(int, int)>, m: int, b: int)
    requires
        1 <= m <= s.len(),
        coords_bounded(s, b),
    ensures
        -b <= anchor_upto(s, m).0 <= b,
        -b <= anchor_upto(s, m).1 <= b,
    decreases m,
{
    if m > 1 {
        lemma_anchor_bounded(s, m - 1, b);
    }
}

/// The coordinate minimum and maximum of a bounded ring are bounded too.
pub proof fn lemma_minmax_bounded(s: Seq<(int, int)>, m: int, b: int, use_x: bool)
    requires
        1 <= m <= s.len(),
        coords_bounded(s, b),
    ensures
        -b <= coord_min_upto(s, m, use_x) <= b,
        -b <= coord_max_upto(s, m, use_x) <= b,
    decreases m,
{
    if m > 1 {
        lemma_minmax_bounded(s, m - 1, b, use_x);
    }
}

/// The product of two values of magnitude at most `b` is bounded by `b * b`.
pub proof fn lemma_mul_bound(a: int, c: int, b: int)
    requires
        -b <= a <= b,
        -b <= c <= b,
        0 <= b,
    ensures
        -(b * b) <= a * c <= b * b,
{
    assert(-(b * b) <= a * c <= b * b) by (nonlinear_arith)
        requires
            -b <= a <= b,
            -b <= c <= b,
            0 <= b,
    ;
}

/// Exact test for `upper` on a concrete vector.
pub fn upper_exec(u: Point) -> (r: bool)
    ensures
        r == upper((u.x as int, u.y as int)),
{
    u.y < 0 || (u.y == 0 && u.x < 0)
}

/// Exact angle-order test on two concrete edge vectors.
pub fn angle_lt_exec(u: Point, v: Point) -> (r: bool)
    requires
        -0x10_0000_0000_0000 <= u.x <= 0x10_0000_0000_0000,
        -0x10_0000_0000_0000 <= u.y <= 0x10_0000_0000_0000,
        -0x10_0000_0000_0000 <= v.x <= 0x10_0000_0000_0000,
        -0x10_0000_0000_0000 <= v.y <= 0x10_0000_0000_0000,
    ensures
        r == angle_lt((u.x as int, u.y as int), (v.x as int, v.y as int)),
{
    let uu = upper_exec(u);
    let vu = upper_exec(v);
    if uu != vu {
        !uu
    } else {
        let a: i128 = u.x as i128;
        let b: i128 = v.y as i128;
        let c: i128 = u.y as i128;
        let d: i128 = v.x as i128;
        proof {
            lemma_mul_bound(a as int, b as int, 0x10_0000_0000_0000);
            lemma_mul_bound(c as int, d as int, 0x10_0000_0000_0000);
        }
        a * b - c * d > 0
    }
}

pub fn angle_le_exec(u: Point, v: Point) -> (r: bool)
    requires
        -0x10_0000_0000_0000 <= u.x <= 0x10_0000_0000_0000,
        -0x10_0000_0000_0000 <= u.y <= 0x10_0000_0000_0000,
        -0x10_0000_0000_0000 <= v.x <= 0x10_0000_0000_0000,
        -0x10_0000_0000_0000 <= v.y <= 0x10_0000_0000_0000,
    ensures
        r == angle_le((u.x as int, u.y as int), (v.x as int, v.y as int)),
{
    !angle_lt_exec(v, u)
}

} // verus!
