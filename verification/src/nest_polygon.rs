use vstd::prelude::*;

use crate::geometry::{
    angle_le, angle_le_exec, angle_lt, angle_lt_exec, anchor_of, anchor_upto, area2, area2_upto,
    below_left, convex, coord_max_upto, coord_min_upto, coords_bounded, cross, edge,
    lemma_anchor_bounded, lemma_mul_bound, lemma_pt_bounded, lemma_wrap_index_bounds, max_x_of, max_y_of, min_x_of, min_y_of, no_zero_edges, nxt, oriented,
    pi_index_of, pi_index_upto, prv, pview, ring_ok, upper, upper_exec, zero_index_of,
    zero_index_upto, Point, GEOM_BOUND, NEST_BOUND, VERT_LIMIT,
};

verus! {

/// Failures of the geometry kernel: a contour that cannot become a canonical
/// polygon, or an operation asked of shapes it does not support.
#[derive(Clone, Copy, PartialEq, Eq, Structural, Debug)]
pub enum GeomError {
    InvalidGeometry,
    UnsupportedGeometry,
}

/// A canonicalized polygon: a counter-clockwise vertex ring together with the
/// derived data the nesting engine reads — convexity, the two cyclic wrap
/// indices of its edge-angle sequence, its bounding box and its bottom-left
/// anchor vertex. Immutable after construction.
#[derive(Clone, Debug)]
pub struct NestPolygon {
    pub verts: Vec<Point>,
    pub is_convex: bool,
    pub zero_index: usize,
    pub pi_index: usize,
    pub min_x: i64,
    pub max_x: i64,
    pub min_y: i64,
    pub max_y: i64,
    pub bottom_left: Point,
}

impl NestPolygon {
    /// Every field is the stated function of the vertex ring, and the ring is
    /// a well-formed counter-clockwise contour within the coordinate limits.
    pub open spec fn wf(&self) -> bool {
        let s = pview(self.verts@);
        &&& 3 <= self.verts@.len() <= VERT_LIMIT
        &&& coords_bounded(s, GEOM_BOUND as int)
        &&& no_zero_edges(s)
        &&& area2(s) > 0
        &&& self.zero_index == zero_index_of(s)
        &&& self.pi_index == pi_index_of(s)
        &&& self.is_convex == convex(s)
        &&& self.min_x == min_x_of(s)
        &&& self.max_x == max_x_of(s)
        &&& self.min_y == min_y_of(s)
        &&& self.max_y == max_y_of(s)
        &&& (self.bottom_left.x as int, self.bottom_left.y as int) == anchor_of(s)
    }

    /// Canonicalizes a contour: orients it counter-clockwise, rejects
    /// degenerate input, and computes the derived fields. Succeeds exactly on
    /// contours with at least three vertices, no zero-length edge and
    /// positive area once oriented.
    pub fn new(contour: Vec<Point>) -> (r: Result<NestPolygon, GeomError>)
        requires
            contour@.len() <= VERT_LIMIT,
            coords_bounded(pview(contour@), GEOM_BOUND as int),
        ensures
            r is Ok <==> ring_ok(pview(contour@)),
            r matches Ok(p) ==> p.wf() && pview(p.verts@) == oriented(pview(contour@)),
            r matches Ok(p) ==> p.verts@.len() == contour@.len(),
            r matches Err(e) ==> e == GeomError::InvalidGeometry,
    {
        let n = contour.len();
        if n < 3 {
            return Err(GeomError::InvalidGeometry);
        }
        let ghost orig = pview(contour@);
        let a1 = ring_area2(&contour);
        let v: Vec<Point> = if a1 >= 0 {
            contour
        } else {
            reverse_ring(contour)
        };
        let ghost s = pview(v@);
        proof {
            assert(s == oriented(orig));
        }
        let a = if a1 >= 0 {
            a1
        } else {
            ring_area2(&v)
        };
        if a <= 0 {
            return Err(GeomError::InvalidGeometry);
        }
        // reject zero-length edges
        let mut i: usize = 0;
        while i < n
            invariant
                i <= n,
                n == v@.len(),
                3 <= n <= VERT_LIMIT,
                coords_bounded(s, GEOM_BOUND as int),
                s == pview(v@),
                s == oriented(pview(contour@)),
                s.len() == pview(contour@).len(),
                forall|j: int| 0 <= j < i ==> #[trigger] edge(s, j) != (0int, 0int),
            decreases n - i,
        {
            let j = if i + 1 == n { 0 } else { i + 1 };
            proof {
                assert(s[i as int] == (v@[i as int].x as int, v@[i as int].y as int));
                assert(s[j as int] == (v@[j as int].x as int, v@[j as int].y as int));
            }
            if v[j].x == v[i].x && v[j].y == v[i].y {
                proof {
                    assert(edge(s, i as int) == (0int, 0int));
                    assert(!no_zero_edges(s));
                    assert(!ring_ok(pview(contour@)));
                }
                return Err(GeomError::InvalidGeometry);
            }
            i += 1;
        }
        Ok(Self::finish(v, Ghost(s)))
    }

    /// The translational no-fit polygon of `other` against `self`, by the
    /// Minkowski-sum edge merge for convex polygons: walk both edge rings in
    /// angular order from `self`'s anchor, taking `self`'s edges forward and
    /// `other`'s reversed. Defined only for convex operands.
    #[verifier::rlimit(100)]
    #[verifier::spinoff_prover]
    pub fn minkowski_sum(&self, other: &NestPolygon) -> (r: Result<NestPolygon, GeomError>)
        requires
            self.wf(),
            other.wf(),
            coords_bounded(pview(self.verts@), NEST_BOUND as int),
            coords_bounded(pview(other.verts@), NEST_BOUND as int),
            self.verts@.len() + other.verts@.len() <= VERT_LIMIT,
        ensures
            !(self.is_convex && other.is_convex) ==> r == Err::<NestPolygon, GeomError>(
                GeomError::UnsupportedGeometry,
            ),
            self.is_convex && other.is_convex ==> (r is Ok <==> ring_ok(nfp_ring(self, other))
                && convex(oriented(nfp_ring(self, other)))),
            self.is_convex && other.is_convex ==> (r matches Ok(p) ==> p.wf() && p.is_convex
                && pview(p.verts@) == oriented(nfp_ring(self, other)) && p.verts@.len()
                <= self.verts@.len() + other.verts@.len()),
            self.is_convex && other.is_convex ==> (r == Err::<NestPolygon, GeomError>(
                GeomError::InvalidGeometry,
            ) <==> !ring_ok(nfp_ring(self, other))),
            self.is_convex && other.is_convex ==> (r == Err::<NestPolygon, GeomError>(
                GeomError::UnsupportedGeometry,
            ) <==> ring_ok(nfp_ring(self, other)) && !convex(oriented(nfp_ring(self, other)))),
            r is Err ==> (r matches Err(e) && (e == GeomError::UnsupportedGeometry || e
                == GeomError::InvalidGeometry)),
    {
        if !(self.is_convex && other.is_convex) {
            return Err(GeomError::UnsupportedGeometry);
        }
        let n = self.verts.len();
        let m = other.verts.len();
        let ghost sa = pview(self.verts@);
        let ghost sb = pview(other.verts@);
        let ghost za = self.zero_index as int;
        let ghost pb = other.pi_index as int;
        let ghost ae = fwd_edges(sa, za);
        let ghost be = rev_edges(sb, pb);
        let ghost full = merge_edges(ae, be);
        let ghost anchor = anchor_of(sa);
        proof {
            lemma_merge_len(ae, be);
        }
        let mut ring: Vec<Point> = Vec::new();
        let mut cur: Point = self.bottom_left;
        ring.push(cur);
        let mut i1 = self.zero_index;
        let mut i2 = other.pi_index;
        let mut ca: usize = 0;
        let mut cb: usize = 0;
        proof {
            lemma_wrap_index_bounds(sa, n as int);
            lemma_wrap_index_bounds(sb, m as int);
            assert(za % (n as int) == za) by (nonlinear_arith)
                requires 0 <= za < n as int,
            ;
            assert(pb % (m as int) == pb) by (nonlinear_arith)
                requires 0 <= pb < m as int,
            ;
            assert(pview(ring@) =~= walk_pts(anchor, full.take(0)));
            assert(full.take(0) =~= Seq::<(int, int)>::empty());
            assert(ae.skip(0) =~= ae);
            assert(be.skip(0) =~= be);
            assert(full.take(0) + merge_edges(ae, be) =~= full);
            lemma_anchor_bounded(sa, n as int, NEST_BOUND as int);
        }
        while ca < n || cb < m
            invariant
                ca <= n,
                cb <= m,
                n == self.verts@.len(),
                m == other.verts@.len(),
                n + m <= VERT_LIMIT,
                3 <= n,
                3 <= m,
                self.wf(),
                other.wf(),
                sa == pview(self.verts@),
                sb == pview(other.verts@),
                za == self.zero_index as int,
                pb == other.pi_index as int,
                0 <= za < n,
                0 <= pb < m,
                coords_bounded(sa, NEST_BOUND as int),
                coords_bounded(sb, NEST_BOUND as int),
                ae == fwd_edges(sa, za),
                be == rev_edges(sb, pb),
                full == merge_edges(ae, be),
                full.len() == n + m,
                anchor == anchor_of(sa),
                -NEST_BOUND <= anchor.0 <= NEST_BOUND,
                -NEST_BOUND <= anchor.1 <= NEST_BOUND,
                i1 as int == (za + ca) % (n as int),
                i2 as int == (pb + cb) % (m as int),
                full == full.take(ca + cb) + merge_edges(ae.skip(ca as int), be.skip(cb as int)),
                ring@.len() == ca + cb + 1,
                pview(ring@) == walk_pts(anchor, full.take(ca + cb)),
                ring@[ca + cb] == cur,
                cur.x as int == anchor.0 + sa[(za + ca) % (n as int)].0 - sa[za].0 + sb[pb].0
                    - sb[(pb + cb) % (m as int)].0,
                cur.y as int == anchor.1 + sa[(za + ca) % (n as int)].1 - sa[za].1 + sb[pb].1
                    - sb[(pb + cb) % (m as int)].1,
                -(5 * NEST_BOUND) <= cur.x <= 5 * NEST_BOUND,
                -(5 * NEST_BOUND) <= cur.y <= 5 * NEST_BOUND,
                forall|q: int|
                    0 <= q < ring@.len() ==> (-(5 * NEST_BOUND) <= (#[trigger] ring@[q]).x <= 5
                        * NEST_BOUND && -(5 * NEST_BOUND) <= ring@[q].y <= 5 * NEST_BOUND),
            decreases (n - ca) + (m - cb),
        {
            let ghost arem = ae.skip(ca as int);
            let ghost brem = be.skip(cb as int);
            let take_a: bool = if ca == n {
                false
            } else if cb == m {
                true
            } else {
                let ea = edge_at(&self.verts, i1);
                let eb = edge_at(&other.verts, i2);
                angle_le_exec(ea, Point { x: -eb.x, y: -eb.y })
            };
            proof {
                if ca < n {
                    assert(arem[0] == ae[ca as int]);
                }
                if cb < m {
                    assert(brem[0] == be[cb as int]);
                }
                if ca < n && cb < m {
                    assert(take_a == angle_le(arem[0], brem[0]));
                }
            }
            if take_a {
                let e = edge_at(&self.verts, i1);
                proof {
                    assert(arem.drop_first() =~= ae.skip(ca + 1));
                    assert(merge_edges(arem, brem) == seq![arem[0]] + merge_edges(
                        ae.skip(ca + 1),
                        brem,
                    ));
                    assert(full[ca + cb] == arem[0]);
                    assert(full.take(ca + cb + 1) =~= full.take(ca + cb).push(full[ca + cb]));
                    assert(full =~= full.take(ca + cb + 1) + merge_edges(ae.skip(ca + 1), brem));
                    lemma_walk_push(anchor, full.take(ca + cb), full[ca + cb]);
                    lemma_nxt_mod(za + ca, n as int);
                    assert((e.x as int, e.y as int) == arem[0]);
                }
                cur = Point { x: cur.x + e.x, y: cur.y + e.y };
                ring.push(cur);
                ca += 1;
                i1 = if i1 + 1 == n {
                    0
                } else {
                    i1 + 1
                };
            } else {
                let eb = edge_at(&other.verts, i2);
                let e = Point { x: -eb.x, y: -eb.y };
                proof {
                    assert(brem.drop_first() =~= be.skip(cb + 1));
                    if ca < n {
                        assert(merge_edges(arem, brem) == seq![brem[0]] + merge_edges(
                            arem,
                            be.skip(cb + 1),
                        ));
                    } else {
                        assert(arem =~= Seq::<(int, int)>::empty());
                        assert(merge_edges(arem, brem) == brem);
                        assert(merge_edges(arem, be.skip(cb + 1)) == be.skip(cb + 1));
                        assert(brem =~= seq![brem[0]] + be.skip(cb + 1));
                    }
                    assert(full[ca + cb] == brem[0]);
                    assert(full.take(ca + cb + 1) =~= full.take(ca + cb).push(full[ca + cb]));
                    assert(full =~= full.take(ca + cb + 1) + merge_edges(arem, be.skip(cb + 1)));
                    lemma_walk_push(anchor, full.take(ca + cb), full[ca + cb]);
                    lemma_nxt_mod(pb + cb, m as int);
                    assert((e.x as int, e.y as int) == brem[0]);
                }
                cur = Point { x: cur.x + e.x, y: cur.y + e.y };
                ring.push(cur);
                cb += 1;
                i2 = if i2 + 1 == m {
                    0
                } else {
                    i2 + 1
                };
            }
            proof {
                assert(pview(ring@) =~= walk_pts(anchor, full.take(ca + cb)));
                let ia = (za + ca) % (n as int);
                let ib = (pb + cb) % (m as int);
                assert(0 <= ia < n && 0 <= ib < m);
                assert(-NEST_BOUND <= sa[ia].0 <= NEST_BOUND && -NEST_BOUND <= sa[ia].1
                    <= NEST_BOUND);
                assert(-NEST_BOUND <= sb[ib].0 <= NEST_BOUND && -NEST_BOUND <= sb[ib].1
                    <= NEST_BOUND);
                assert(-NEST_BOUND <= sa[za].0 <= NEST_BOUND && -NEST_BOUND <= sa[za].1
                    <= NEST_BOUND);
                assert(-NEST_BOUND <= sb[pb].0 <= NEST_BOUND && -NEST_BOUND <= sb[pb].1
                    <= NEST_BOUND);
            }
        }
        proof {
            assert(ae.skip(n as int) =~= Seq::<(int, int)>::empty());
            assert(be.skip(m as int) =~= Seq::<(int, int)>::empty());
            assert(full =~= full.take(n + m));
        }
        ring.pop();
        proof {
            assert(pview(ring@) =~= walk_pts(anchor, full).take(n + m));
            assert(pview(ring@) == nfp_ring(self, other));
            assert(coords_bounded(pview(ring@), GEOM_BOUND as int));
        }
        match Self::new(ring) {
            Ok(p) => {
                if p.is_convex {
                    Ok(p)
                } else {
                    Err(GeomError::UnsupportedGeometry)
                }
            },
            Err(e) => Err(e),
        }
    }

    /// Computes the derived fields of an already-oriented, validated ring.
    fn finish(v: Vec<Point>, Ghost(s): Ghost<Seq<(int, int)>>) -> (p: NestPolygon)
        requires
            s == pview(v@),
            3 <= v@.len() <= VERT_LIMIT,
            coords_bounded(s, GEOM_BOUND as int),
            no_zero_edges(s),
            area2(s) > 0,
        ensures
            p.wf(),
            p.verts@ == v@,
    {
        let n = v.len();
        // wrap indices of the edge-angle sequence
        let mut zero_index: usize = 0;
        let mut pi_index: usize = 0;
        let mut i: usize = 0;
        while i < n
            invariant
                i <= n,
                n == v@.len(),
                3 <= n <= VERT_LIMIT,
                s == pview(v@),
                coords_bounded(s, GEOM_BOUND as int),
                zero_index == zero_index_upto(s, i as int),
                pi_index == pi_index_upto(s, i as int),
                zero_index <= i,
                pi_index <= i,
                zero_index < n,
                pi_index < n,
            decreases n - i,
        {
            let e = edge_at(&v, i);
            let p = if i == 0 { n - 1 } else { i - 1 };
            let ep = edge_at(&v, p);
            proof {
                assert(p as int == prv(i as int, n as int));
            }
            if angle_lt_exec(e, ep) {
                zero_index = i;
            }
            if !upper_exec(ep) && upper_exec(e) {
                pi_index = i;
            }
            i += 1;
        }
        // convexity: angles non-decreasing cyclically from the wrap index
        let mut is_convex = true;
        let mut j: usize = 1;
        while j < n
            invariant
                1 <= j <= n,
                n == v@.len(),
                3 <= n <= VERT_LIMIT,
                s == pview(v@),
                coords_bounded(s, GEOM_BOUND as int),
                zero_index == zero_index_of(s),
                zero_index < n,
                is_convex == (forall|k: int|
                    1 <= k < j ==> angle_le(
                        edge(s, (zero_index + k - 1) % (n as int)),
                        #[trigger] edge(s, (zero_index + k) % (n as int)),
                    )),
            decreases n - j,
        {
            let prev = (zero_index + j - 1) % n;
            let cur = (zero_index + j) % n;
            if !angle_le_exec(edge_at(&v, prev), edge_at(&v, cur)) {
                is_convex = false;
            }
            j += 1;
        }
        // bounding box and bottom-left anchor
        let mut min_x = v[0].x;
        let mut max_x = v[0].x;
        let mut min_y = v[0].y;
        let mut max_y = v[0].y;
        let mut bottom_left = v[0];
        let mut k: usize = 1;
        while k < n
            invariant
                n == v@.len(),
                1 <= k <= n,
                s == pview(v@),
                min_x as int == coord_min_upto(s, k as int, true),
                max_x as int == coord_max_upto(s, k as int, true),
                min_y as int == coord_min_upto(s, k as int, false),
                max_y as int == coord_max_upto(s, k as int, false),
                (bottom_left.x as int, bottom_left.y as int) == anchor_upto(s, k as int),
            decreases n - k,
        {
            let p = v[k];
            if p.x < min_x {
                min_x = p.x;
            }
            if p.x > max_x {
                max_x = p.x;
            }
            if p.y < min_y {
                min_y = p.y;
            }
            if p.y > max_y {
                max_y = p.y;
            }
            if p.y < bottom_left.y || (p.y == bottom_left.y && p.x < bottom_left.x) {
                bottom_left = p;
            }
            k += 1;
        }
        NestPolygon {
            verts: v,
            is_convex,
            zero_index,
            pi_index,
            min_x,
            max_x,
            min_y,
            max_y,
            bottom_left,
        }
    }
}

/// Every canonical polygon with exactly three vertices is convex: the three
/// consecutive edge cross products all equal the doubled (positive) area, so
/// the edge-angle sequence wraps past zero at most once, and reading it from
/// that wrap index it never decreases.
pub proof fn lemma_triangle_convex(p: &NestPolygon)
    requires
        p.wf(),
        p.verts@.len() == 3,
    ensures
        p.is_convex,
{
    reveal_with_fuel(area2_upto, 5);
    reveal_with_fuel(zero_index_upto, 5);
    let s = pview(p.verts@);
    let x0 = s[0].0;
    let y0 = s[0].1;
    let x1 = s[1].0;
    let y1 = s[1].1;
    let x2 = s[2].0;
    let y2 = s[2].1;
    let e0 = edge(s, 0);
    let e1 = edge(s, 1);
    let e2 = edge(s, 2);
    assert(e0 == (x1 - x0, y1 - y0));
    assert(e1 == (x2 - x1, y2 - y1));
    assert(e2 == (x0 - x2, y0 - y2));
    let c = area2(s);
    assert(area2_upto(s, 1) == cross(s[0], s[1]));
    assert(area2_upto(s, 2) == area2_upto(s, 1) + cross(s[1], s[2]));
    assert(area2_upto(s, 3) == area2_upto(s, 2) + cross(s[2], s[0]));
    assert(c == (x0 * y1 - y0 * x1) + (x1 * y2 - y1 * x2) + (x2 * y0 - y2 * x0));
    assert(cross(e0, e1) == c) by (nonlinear_arith)
        requires
            c == (x0 * y1 - y0 * x1) + (x1 * y2 - y1 * x2) + (x2 * y0 - y2 * x0),
            cross(e0, e1) == (x1 - x0) * (y2 - y1) - (y1 - y0) * (x2 - x1),
    ;
    assert(cross(e1, e2) == c) by (nonlinear_arith)
        requires
            c == (x0 * y1 - y0 * x1) + (x1 * y2 - y1 * x2) + (x2 * y0 - y2 * x0),
            cross(e1, e2) == (x2 - x1) * (y0 - y2) - (y2 - y1) * (x0 - x2),
    ;
    assert(cross(e2, e0) == c) by (nonlinear_arith)
        requires
            c == (x0 * y1 - y0 * x1) + (x1 * y2 - y1 * x2) + (x2 * y0 - y2 * x0),
            cross(e2, e0) == (x0 - x2) * (y1 - y0) - (y0 - y2) * (x1 - x0),
    ;
    assert(cross(e1, e0) == -cross(e0, e1)) by (nonlinear_arith)
        requires
            cross(e0, e1) == e0.0 * e1.1 - e0.1 * e1.0,
            cross(e1, e0) == e1.0 * e0.1 - e1.1 * e0.0,
    ;
    assert(cross(e2, e1) == -cross(e1, e2)) by (nonlinear_arith)
        requires
            cross(e1, e2) == e1.0 * e2.1 - e1.1 * e2.0,
            cross(e2, e1) == e2.0 * e1.1 - e2.1 * e1.0,
    ;
    assert(cross(e0, e2) == -cross(e2, e0)) by (nonlinear_arith)
        requires
            cross(e2, e0) == e2.0 * e0.1 - e2.1 * e0.0,
            cross(e0, e2) == e0.0 * e2.1 - e0.1 * e2.0,
    ;
    // with a positive cross, an adjacency descends exactly when it crosses
    // from the upper half-plane back to the lower one
    assert(angle_lt(e1, e0) == (upper(e0) && !upper(e1)));
    assert(angle_lt(e2, e1) == (upper(e1) && !upper(e2)));
    assert(angle_lt(e0, e2) == (upper(e2) && !upper(e0)));
    assert(angle_le(e0, e1) == !(upper(e0) && !upper(e1)));
    assert(angle_le(e1, e2) == !(upper(e1) && !upper(e2)));
    assert(angle_le(e2, e0) == !(upper(e2) && !upper(e0)));
    // the wrap index is the last descent; reading onward never descends
    assert(prv(0int, 3) == 2 && prv(1int, 3) == 0 && prv(2int, 3) == 1);
    let z = zero_index_of(s);
    assert(zero_index_upto(s, 1) == (if angle_lt(e0, e2) {
        0int
    } else {
        0int
    }));
    assert(zero_index_upto(s, 2) == (if angle_lt(e1, e0) {
        1int
    } else {
        zero_index_upto(s, 1)
    }));
    assert(z == (if angle_lt(e2, e1) {
        2int
    } else {
        zero_index_upto(s, 2)
    }));
    assert(0 <= z < 3);
    assert((z + 1) % 3 == (if z == 2 {
        0int
    } else {
        z + 1
    }));
    assert((z + 2) % 3 == (if z == 0 {
        2int
    } else {
        z - 1
    }));
    assert forall|j: int| 1 <= j < 3 implies angle_le(
        edge(s, (z + j - 1) % 3),
        #[trigger] edge(s, (z + j) % 3),
    ) by {
        assert((z + 0) % 3 == z);
    }
    assert(convex(s));
}

/// Vector sum of two integer pairs.
pub open spec fn padd(u: (int, int), v: (int, int)) -> (int, int) {
    (u.0 + v.0, u.1 + v.1)
}

/// The edge vectors of `s` in cyclic order starting at `start`.
pub open spec fn fwd_edges(s: Seq<(int, int)>, start: int) -> Seq<(int, int)> {
    Seq::new(s.len(), |j: int| edge(s, (start + j) % (s.len() as int)))
}

/// The reversed edge vectors of `s` in cyclic order starting at `start`.
pub open spec fn rev_edges(s: Seq<(int, int)>, start: int) -> Seq<(int, int)> {
    Seq::new(
        s.len(),
        |j: int|
            {
                let e = edge(s, (start + j) % (s.len() as int));
                (-e.0, -e.1)
            },
    )
}

/// Merge of two edge sequences by non-decreasing direction angle; ties go to
/// the first sequence, and once one side is exhausted the other is drained.
pub open spec fn merge_edges(a: Seq<(int, int)>, b: Seq<(int, int)>) -> Seq<(int, int)>
    decreases a.len() + b.len(),
{
    if a.len() == 0 {
        b
    } else if b.len() == 0 {
        a
    } else if angle_le(a[0], b[0]) {
        seq![a[0]] + merge_edges(a.drop_first(), b)
    } else {
        seq![b[0]] + merge_edges(a, b.drop_first())
    }
}

/// The positions visited when walking the edge sequence `es` from `from`:
/// `from` followed by every partial sum.
pub open spec fn walk_pts(from: (int, int), es: Seq<(int, int)>) -> Seq<(int, int)>
    decreases es.len(),
{
    if es.len() == 0 {
        seq![from]
    } else {
        seq![from] + walk_pts(padd(from, es[0]), es.drop_first())
    }
}

/// The vertex ring of the no-fit polygon of the ring `sb` against the ring
/// `sa`: the merged edge walk started at `sa`'s anchor, without the closing
/// repetition of the start.
pub open spec fn nfp_ring_v(sa: Seq<(int, int)>, sb: Seq<(int, int)>) -> Seq<(int, int)> {
    walk_pts(
        anchor_of(sa),
        merge_edges(fwd_edges(sa, zero_index_of(sa)), rev_edges(sb, pi_index_of(sb))),
    ).take(sa.len() + sb.len() as int)
}

/// The same ring stated over two canonical polygons.
pub open spec fn nfp_ring(a: &NestPolygon, b: &NestPolygon) -> Seq<(int, int)> {
    nfp_ring_v(pview(a.verts@), pview(b.verts@))
}

proof fn lemma_merge_len(a: Seq<(int, int)>, b: Seq<(int, int)>)
    ensures
        merge_edges(a, b).len() == a.len() + b.len(),
    decreases a.len() + b.len(),
{
    if a.len() == 0 || b.len() == 0 {
    } else if angle_le(a[0], b[0]) {
        lemma_merge_len(a.drop_first(), b);
    } else {
        lemma_merge_len(a, b.drop_first());
    }
}

proof fn lemma_walk_len(from: (int, int), es: Seq<(int, int)>)
    ensures
        walk_pts(from, es).len() == es.len() + 1,
    decreases es.len(),
{
    if es.len() > 0 {
        lemma_walk_len(padd(from, es[0]), es.drop_first());
    }
}

/// Appending an edge to the walk appends one position: the old end moved by
/// that edge.
proof fn lemma_walk_push(from: (int, int), es: Seq<(int, int)>, e: (int, int))
    ensures
        walk_pts(from, es.push(e)) == walk_pts(from, es).push(
            padd(walk_pts(from, es).last(), e),
        ),
    decreases es.len(),
{
    reveal_with_fuel(walk_pts, 3);
    lemma_walk_len(from, es);
    assert(es.push(e)[0] == if es.len() == 0 { e } else { es[0] });
    if es.len() == 0 {
        assert(es.push(e).drop_first() =~= Seq::<(int, int)>::empty());
        assert(walk_pts(from, es.push(e)) =~= walk_pts(from, es).push(
            padd(walk_pts(from, es).last(), e),
        ));
    } else {
        let tail = es.drop_first();
        let f1 = padd(from, es[0]);
        assert(es.push(e).drop_first() =~= tail.push(e));
        assert(walk_pts(from, es.push(e)) == seq![from] + walk_pts(f1, tail.push(e)));
        lemma_walk_push(f1, tail, e);
        lemma_walk_len(f1, tail);
        assert(walk_pts(from, es) == seq![from] + walk_pts(f1, tail));
        assert(walk_pts(from, es).last() == walk_pts(f1, tail).last());
        assert(seq![from] + walk_pts(f1, tail).push(padd(walk_pts(f1, tail).last(), e)) =~= (
        seq![from] + walk_pts(f1, tail)).push(padd(walk_pts(f1, tail).last(), e)));
    }
}

/// Cyclic successor arithmetic: stepping the wrapped index matches stepping
/// the unwrapped counter.
proof fn lemma_nxt_mod(a: int, n: int)
    requires
        n > 0,
        a >= 0,
    ensures
        (a + 1) % n == nxt(a % n, n),
        0 <= a % n < n,
    decreases a,
{
    if a < n {
        assert(a % n == a) by (nonlinear_arith)
            requires 0 <= a < n,
        ;
        if a + 1 < n {
            assert((a + 1) % n == a + 1) by (nonlinear_arith)
                requires 0 <= a + 1 < n,
            ;
        } else {
            assert((a + 1) % n == 0) by (nonlinear_arith)
                requires a + 1 == n && n > 0,
            ;
        }
    } else {
        lemma_nxt_mod(a - n, n);
        vstd::arithmetic::div_mod::lemma_mod_multiples_vanish(1, a - n, n);
        vstd::arithmetic::div_mod::lemma_mod_multiples_vanish(1, a + 1 - n, n);
        assert(1 * n + (a - n) == a);
        assert(1 * n + (a + 1 - n) == a + 1);
    }
}

/// The edge vector leaving vertex `i`, as concrete coordinates.
pub(crate) fn edge_at(v: &Vec<Point>, i: usize) -> (e: Point)
    requires
        i < v@.len(),
        3 <= v@.len(),
        coords_bounded(pview(v@), GEOM_BOUND as int),
    ensures
        (e.x as int, e.y as int) == edge(pview(v@), i as int),
        -2 * GEOM_BOUND <= e.x <= 2 * GEOM_BOUND,
        -2 * GEOM_BOUND <= e.y <= 2 * GEOM_BOUND,
{
    let n = v.len();
    let j = if i + 1 == n { 0 } else { i + 1 };
    proof {
        lemma_pt_bounded(v@, GEOM_BOUND as int, i as int);
        lemma_pt_bounded(v@, GEOM_BOUND as int, j as int);
    }
    Point { x: v[j].x - v[i].x, y: v[j].y - v[i].y }
}

/// Twice the signed area of the ring, by the shoelace formula.
pub(crate) fn ring_area2(v: &Vec<Point>) -> (a: i128)
    requires
        v@.len() <= VERT_LIMIT,
        coords_bounded(pview(v@), GEOM_BOUND as int),
    ensures
        a as int == area2(pview(v@)),
{
    let ghost s = pview(v@);
    let n = v.len();
    let mut acc: i128 = 0;
    let mut i: usize = 0;
    while i < n
        invariant
            i <= n,
            n == v@.len() <= VERT_LIMIT,
            s == pview(v@),
            coords_bounded(s, GEOM_BOUND as int),
            acc as int == area2_upto(s, i as int),
            -(i as int) * 0x40_0000_0000_0000_0000_0000 <= acc as int <= (i as int)
                * 0x40_0000_0000_0000_0000_0000,
        decreases n - i,
    {
        let j = if i + 1 == n { 0 } else { i + 1 };
        proof {
            lemma_pt_bounded(v@, GEOM_BOUND as int, i as int);
            lemma_pt_bounded(v@, GEOM_BOUND as int, j as int);
        }
        let x1: i128 = v[i].x as i128;
        let y1: i128 = v[i].y as i128;
        let x2: i128 = v[j].x as i128;
        let y2: i128 = v[j].y as i128;
        proof {
            lemma_mul_bound(x1 as int, y2 as int, GEOM_BOUND as int);
            lemma_mul_bound(y1 as int, x2 as int, GEOM_BOUND as int);
            assert((i + 1) as int * 0x40_0000_0000_0000_0000_0000 == i as int
                * 0x40_0000_0000_0000_0000_0000 + 0x40_0000_0000_0000_0000_0000) by (nonlinear_arith);
            assert(i as int * 0x40_0000_0000_0000_0000_0000 <= 0x10_0000 as int
                * 0x40_0000_0000_0000_0000_0000) by (nonlinear_arith)
                requires i as int <= 0x10_0000,
            ;
        }
        acc = acc + (x1 * y2 - y1 * x2);
        i += 1;
    }
    acc
}

/// The same ring with its winding direction reversed.
fn reverse_ring(v: Vec<Point>) -> (r: Vec<Point>)
    ensures
        r@ == v@.reverse(),
        pview(r@) == pview(v@).reverse(),
{
    let n = v.len();
    let mut r: Vec<Point> = Vec::new();
    let mut i: usize = 0;
    while i < n
        invariant
            n == v@.len(),
            r@.len() == i <= n,
            forall|j: int| 0 <= j < i ==> #[trigger] r@[j] == v@[n - 1 - j],
        decreases n - i,
    {
        r.push(v[n - 1 - i]);
        i += 1;
    }
    proof {
        assert(r@ =~= v@.reverse());
        assert(pview(r@) =~= pview(v@).reverse());
    }
    r
}

} // verus!
