use vstd::prelude::*;

use crate::geometry::{
    area2, below_left, convex, coords_bounded, cross, edge, lemma_area2_bound, lemma_minmax_bounded,
    lemma_mul_bound, lemma_pt_bounded, lemma_wrap_index_bounds, max_x_of, max_y_of, min_x_of,
    min_y_of, oriented, pi_index_of, pview, ring_ok, Point, GEOM_BOUND, VERT_LIMIT,
};
use crate::job::{Placement, Sheet};
use crate::nest_polygon::{nfp_ring_v, GeomError, NestPolygon};
use crate::geometry::NEST_BOUND;
use crate::nesting_runner::{parts_wf, sheet_wf, NestPart, PART_BOUND, PART_VERTS};
use vstd::arithmetic::div_mod::lemma_mod_multiples_vanish;

verus! {

/// Largest chromosome length the evaluator accepts.
pub const GENE_LIMIT: usize = 1048576;

/// One candidate layout ordering: the genes in placement order.
#[derive(Clone, Debug)]
pub struct PlacementSequence {
    pub placements: Vec<Placement>,
}

/// The evaluated outcome of one chromosome: a comparable fitness (higher is
/// better), one placed coordinate per gene, and the number of sheets used.
#[derive(Clone, Debug)]
pub struct PackingResult {
    pub fitness: i64,
    pub sheet_count: usize,
    pub placed_area2: i128,
    pub placed_at: Vec<Point>,
}

/// The evaluator state after some prefix of the genes: the polygons placed on
/// the current sheet with their translations, the sheets consumed so far, the
/// accumulated doubled part area, and the coordinate chosen for each gene.
pub ghost struct PackSt {
    pub placed: Seq<(Seq<(int, int)>, (int, int))>,
    pub sheets: int,
    pub area: int,
    pub coords: Seq<(int, int)>,
}

/// The rotation quarter encoded by an angle in degrees: 0..3 for multiples of
/// ninety, -1 for any other angle (unsupported by the exact evaluator).
pub open spec fn quarter_of(angle: int) -> int {
    let a = angle % 360;
    if a == 0 {
        0
    } else if a == 90 {
        1
    } else if a == 180 {
        2
    } else if a == 270 {
        3
    } else {
        -1
    }
}

/// The point `p` rotated counter-clockwise by `q` quarter turns about the
/// origin.
pub open spec fn rot_pt(p: (int, int), q: int) -> (int, int) {
    if q == 0 {
        p
    } else if q == 1 {
        (-p.1, p.0)
    } else if q == 2 {
        (-p.0, -p.1)
    } else {
        (p.1, -p.0)
    }
}

pub open spec fn rot_ring(s: Seq<(int, int)>, q: int) -> Seq<(int, int)> {
    s.map_values(|p: (int, int)| rot_pt(p, q))
}

/// The part contour rotated by the gene angle and re-canonicalized: the
/// ring the placement works with, or the error the rotation step reports.
pub open spec fn rp_result(pv: Seq<(int, int)>, angle: int) -> Result<Seq<(int, int)>, GeomError> {
    let q = quarter_of(angle);
    if q < 0 {
        Err(GeomError::UnsupportedGeometry)
    } else {
        let rv = rot_ring(pv, q);
        if !ring_ok(rv) {
            Err(GeomError::InvalidGeometry)
        } else if !convex(oriented(rv)) {
            Err(GeomError::UnsupportedGeometry)
        } else {
            Ok(oriented(rv))
        }
    }
}

/// The vertex of the rotated part that no-fit-polygon positions refer to.
pub open spec fn contact_ref(rpv: Seq<(int, int)>) -> (int, int) {
    rpv[pi_index_of(rpv)]
}

/// Strict interior test for a counter-clockwise convex ring: the point lies
/// strictly left of every edge.
pub open spec fn inside_strict(s: Seq<(int, int)>, p: (int, int)) -> bool {
    forall|i: int|
        0 <= i < s.len() ==> cross(#[trigger] edge(s, i), (p.0 - s[i].0, p.1 - s[i].1)) > 0
}

/// The no-fit polygons of the rotated part against the first `j` placed
/// polygons, or the first error their construction reports.
pub open spec fn spec_nfps(
    placed: Seq<(Seq<(int, int)>, (int, int))>,
    rpv: Seq<(int, int)>,
    j: int,
) -> Result<Seq<Seq<(int, int)>>, GeomError>
    decreases j,
{
    if j <= 0 {
        Ok(Seq::empty())
    } else {
        match spec_nfps(placed, rpv, j - 1) {
            Err(e) => Err(e),
            Ok(prev) => {
                let ring = nfp_ring_v(placed[j - 1].0, rpv);
                if !ring_ok(ring) {
                    Err(GeomError::InvalidGeometry)
                } else if !convex(oriented(ring)) {
                    Err(GeomError::UnsupportedGeometry)
                } else {
                    Ok(prev.push(oriented(ring)))
                }
            },
        }
    }
}

/// The rotated part translated by `t` stays within the sheet rectangle.
pub open spec fn sheet_fits(t: (int, int), rpv: Seq<(int, int)>, sheet: Sheet) -> bool {
    &&& 0 <= t.0 + min_x_of(rpv)
    &&& t.0 + max_x_of(rpv) <= sheet.length
    &&& 0 <= t.1 + min_y_of(rpv)
    &&& t.1 + max_y_of(rpv) <= sheet.width
}

/// The translation `t` does not push the rotated part strictly into any
/// placed polygon, judged through the no-fit polygons.
pub open spec fn overlap_free(
    placed: Seq<(Seq<(int, int)>, (int, int))>,
    nfps: Seq<Seq<(int, int)>>,
    rpv: Seq<(int, int)>,
    t: (int, int),
) -> bool {
    forall|j: int|
        0 <= j < placed.len() ==> !inside_strict(
            #[trigger] nfps[j],
            (
                t.0 + contact_ref(rpv).0 - placed[j].1.0,
                t.1 + contact_ref(rpv).1 - placed[j].1.1,
            ),
        )
}

pub open spec fn feasible(
    placed: Seq<(Seq<(int, int)>, (int, int))>,
    nfps: Seq<Seq<(int, int)>>,
    rpv: Seq<(int, int)>,
    sheet: Sheet,
    t: (int, int),
) -> bool {
    sheet_fits(t, rpv, sheet) && overlap_free(placed, nfps, rpv, t)
}

/// The corner candidate: the translation that puts the rotated part's
/// bounding box at the sheet origin.
pub open spec fn base_cand(rpv: Seq<(int, int)>) -> (int, int) {
    (-min_x_of(rpv), -min_y_of(rpv))
}

/// Candidate translations derived from one placed polygon's no-fit polygon:
/// each of its vertices, referred back to the rotated part's contact vertex.
pub open spec fn cands_of(
    q: (Seq<(int, int)>, (int, int)),
    nfpv: Seq<(int, int)>,
    rpv: Seq<(int, int)>,
) -> Seq<(int, int)> {
    Seq::new(
        nfpv.len(),
        |k: int|
            (
                q.1.0 + nfpv[k].0 - contact_ref(rpv).0,
                q.1.1 + nfpv[k].1 - contact_ref(rpv).1,
            ),
    )
}

/// All candidate translations for the current gene: the sheet corner first,
/// then the no-fit-polygon candidates of each placed polygon in order.
pub open spec fn all_cands(
    placed: Seq<(Seq<(int, int)>, (int, int))>,
    nfps: Seq<Seq<(int, int)>>,
    rpv: Seq<(int, int)>,
    m: int,
) -> Seq<(int, int)>
    decreases m,
{
    if m <= 0 {
        seq![base_cand(rpv)]
    } else {
        all_cands(placed, nfps, rpv, m - 1) + cands_of(placed[m - 1], nfps[m - 1], rpv)
    }
}

/// The bottom-left-most feasible candidate among the first `m`, scanning
/// forward and replacing only on a strict improvement.
pub open spec fn best_upto(
    cands: Seq<(int, int)>,
    placed: Seq<(Seq<(int, int)>, (int, int))>,
    nfps: Seq<Seq<(int, int)>>,
    rpv: Seq<(int, int)>,
    sheet: Sheet,
    m: int,
) -> Option<(int, int)>
    decreases m,
{
    if m <= 0 {
        None
    } else {
        let rest = best_upto(cands, placed, nfps, rpv, sheet, m - 1);
        let c = cands[m - 1];
        match rest {
            Option::None => if feasible(placed, nfps, rpv, sheet, c) {
                Some(c)
            } else {
                None
            },
            Option::Some(b) => if feasible(placed, nfps, rpv, sheet, c) && below_left(c, b) {
                Some(c)
            } else {
                Some(b)
            },
        }
    }
}

/// One greedy placement step: rotate the part, build the no-fit polygons,
/// choose the bottom-left feasible candidate on the current sheet, and when
/// none exists open a fresh sheet — failing when the part cannot fit an
/// empty sheet at all.
pub open spec fn place_step(
    st: PackSt,
    pv: Seq<(int, int)>,
    angle: int,
    sheet: Sheet,
) -> Result<PackSt, GeomError> {
    match rp_result(pv, angle) {
        Err(e) => Err(e),
        Ok(rpv) => match spec_nfps(st.placed, rpv, st.placed.len() as int) {
            Err(e) => Err(e),
            Ok(nfps) => {
                let cands = all_cands(st.placed, nfps, rpv, st.placed.len() as int);
                match best_upto(cands, st.placed, nfps, rpv, sheet, cands.len() as int) {
                    Option::Some(t) => Ok(
                        PackSt {
                            placed: st.placed.push((rpv, t)),
                            sheets: st.sheets,
                            area: st.area + area2(rpv),
                            coords: st.coords.push(t),
                        },
                    ),
                    Option::None => {
                        let t0 = base_cand(rpv);
                        if !sheet_fits(t0, rpv, sheet) {
                            Err(GeomError::UnsupportedGeometry)
                        } else {
                            Ok(
                                PackSt {
                                    placed: seq![(rpv, t0)],
                                    sheets: st.sheets + 1,
                                    area: st.area + area2(rpv),
                                    coords: st.coords.push(t0),
                                },
                            )
                        }
                    },
                }
            },
        },
    }
}

/// The evaluator state after the first `i` genes, or the first error met.
pub open spec fn spec_pack_upto(
    genes: Seq<Placement>,
    parts: Seq<NestPart>,
    sheet: Sheet,
    i: int,
) -> Result<PackSt, GeomError>
    decreases i,
{
    if i <= 0 {
        Ok(PackSt { placed: Seq::empty(), sheets: 1, area: 0, coords: Seq::empty() })
    } else {
        match spec_pack_upto(genes, parts, sheet, i - 1) {
            Err(e) => Err(e),
            Ok(st) => place_step(
                st,
                pview(parts[genes[i - 1].part_index as int].polygon.verts@),
                genes[i - 1].angle as int,
                sheet,
            ),
        }
    }
}

/// The deterministic meaning of evaluating a whole chromosome.
pub open spec fn spec_pack(
    genes: Seq<Placement>,
    parts: Seq<NestPart>,
    sheet: Sheet,
) -> Result<PackSt, GeomError> {
    spec_pack_upto(genes, parts, sheet, genes.len() as int)
}

/// Fitness of a finished layout: utilization in parts per million of the
/// consumed sheet area, clamped into the fitness range. Deterministic,
/// higher for better utilization.
pub open spec fn fitness_spec(area: int, sheets: int, sheet: Sheet) -> int {
    let denom = sheets * 2 * sheet.length * sheet.width;
    let f = (area * 1000000) / denom;
    if f > i64::MAX {
        i64::MAX as int
    } else {
        f
    }
}

/// Everything the evaluator promises of its result: success exactly when the
/// deterministic evaluation succeeds, the same error otherwise, and on
/// success the coordinates, sheet count, accumulated area and fitness of
/// that evaluation.
pub open spec fn pack_post(
    r: Result<PackingResult, GeomError>,
    genes: Seq<Placement>,
    parts: Seq<NestPart>,
    sheet: Sheet,
) -> bool {
    &&& (r is Ok <==> spec_pack(genes, parts, sheet) is Ok)
    &&& (r is Err ==> r->Err_0 == spec_pack(genes, parts, sheet)->Err_0)
    &&& (r matches Ok(res) ==> ({
        let st = spec_pack(genes, parts, sheet)->Ok_0;
        &&& pview(res.placed_at@) == st.coords
        &&& res.placed_at@.len() == genes.len()
        &&& res.sheet_count as int == st.sheets
        &&& 1 <= res.sheet_count <= genes.len() + 1
        &&& res.placed_area2 as int == st.area
        &&& 0 <= res.placed_area2
        &&& res.fitness as int == fitness_spec(st.area, st.sheets, sheet)
    }))
}

/// Determinism of evaluation: whatever two runs of the evaluator return for
/// the same chromosome against the same parts and sheet, the two outcomes
/// are one and the same — evaluation is a function of its inputs alone.
pub proof fn lemma_evaluation_deterministic(
    genes: Seq<Placement>,
    parts: Seq<NestPart>,
    sheet: Sheet,
    r1: Result<PackingResult, GeomError>,
    r2: Result<PackingResult, GeomError>,
)
    requires
        pack_post(r1, genes, parts, sheet),
        pack_post(r2, genes, parts, sheet),
    ensures
        r1 is Ok <==> r2 is Ok,
        r1 matches Ok(a) ==> (r2 matches Ok(b) && a.fitness == b.fitness && a.sheet_count
            == b.sheet_count && pview(a.placed_at@) == pview(b.placed_at@)),
        r1 matches Err(e1) ==> (r2 matches Err(e2) && e1 == e2),
{
}

/// Views of the placed polygons: each vertex ring with its translation.
pub open spec fn placed_views(ps: Seq<(NestPolygon, Point)>) -> Seq<(Seq<(int, int)>, (int, int))> {
    ps.map_values(|q: (NestPolygon, Point)| (pview(q.0.verts@), (q.1.x as int, q.1.y as int)))
}

/// Views of the no-fit polygons kept for the current gene.
pub open spec fn nfps_views(nv: Seq<NestPolygon>) -> Seq<Seq<(int, int)>> {
    nv.map_values(|p: NestPolygon| pview(p.verts@))
}

/// Executable well-formedness of the placed list: convex canonical polygons
/// within the part limits, translated within the sheet neighbourhood.
pub open spec fn placed_ok(ps: Seq<(NestPolygon, Point)>) -> bool {
    forall|j: int|
        0 <= j < ps.len() ==> {
            let q = #[trigger] ps[j];
            &&& q.0.wf()
            &&& q.0.is_convex
            &&& coords_bounded(pview(q.0.verts@), PART_BOUND as int)
            &&& 3 <= q.0.verts@.len() <= PART_VERTS
            &&& -2 * PART_BOUND <= q.1.x <= 2 * PART_BOUND
            &&& -2 * PART_BOUND <= q.1.y <= 2 * PART_BOUND
        }
}

/// Executable well-formedness of a no-fit polygon list.
pub open spec fn nfps_ok(nv: Seq<NestPolygon>) -> bool {
    forall|j: int| 0 <= j < nv.len() ==> (#[trigger] nv[j]).wf()
}

/// The rotation quarter of an angle, computed exactly.
fn norm_quarter(angle: i32) -> (q: i32)
    ensures
        q as int == quarter_of(angle as int),
{
    let big: i64 = angle as i64 + 773094113280;
    let a: i64 = big % 360;
    proof {
        lemma_mod_multiples_vanish(2147483648, angle as int, 360);
        assert(2147483648 * 360 + angle as int == big as int);
    }
    if a == 0 {
        0
    } else if a == 90 {
        1
    } else if a == 180 {
        2
    } else if a == 270 {
        3
    } else {
        -1
    }
}

/// The contour rotated by `q` quarter turns about the origin.
fn rotate_contour(v: &Vec<Point>, q: i32) -> (r: Vec<Point>)
    requires
        0 <= q <= 3,
        coords_bounded(pview(v@), PART_BOUND as int),
    ensures
        pview(r@) == rot_ring(pview(v@), q as int),
        r@.len() == v@.len(),
        coords_bounded(pview(r@), PART_BOUND as int),
{
    let n = v.len();
    let mut r: Vec<Point> = Vec::new();
    let mut i: usize = 0;
    while i < n
        invariant
            i <= n,
            n == v@.len(),
            0 <= q <= 3,
            coords_bounded(pview(v@), PART_BOUND as int),
            r@.len() == i,
            forall|j: int|
                0 <= j < i ==> ((#[trigger] r@[j]).x as int, r@[j].y as int) == rot_pt(
                    (v@[j].x as int, v@[j].y as int),
                    q as int,
                ),
            forall|j: int|
                0 <= j < i ==> (-PART_BOUND <= (#[trigger] r@[j]).x <= PART_BOUND && -PART_BOUND
                    <= r@[j].y <= PART_BOUND),
        decreases n - i,
    {
        proof {
            lemma_pt_bounded(v@, PART_BOUND as int, i as int);
            assert(pview(v@)[i as int] == (v@[i as int].x as int, v@[i as int].y as int));
        }
        let p = v[i];
        let rp = if q == 0 {
            p
        } else if q == 1 {
            Point { x: -p.y, y: p.x }
        } else if q == 2 {
            Point { x: -p.x, y: -p.y }
        } else {
            Point { x: p.y, y: -p.x }
        };
        r.push(rp);
        proof {
            assert(pview(r@)[i as int] == (rp.x as int, rp.y as int));
        }
        i += 1;
    }
    proof {
        assert forall|j: int| 0 <= j < r@.len() implies pview(r@)[j] == rot_ring(
            pview(v@),
            q as int,
        )[j] by {
            assert(pview(r@)[j] == (r@[j].x as int, r@[j].y as int));
            assert(pview(v@)[j] == (v@[j].x as int, v@[j].y as int));
        }
        assert(pview(r@) =~= rot_ring(pview(v@), q as int));
    }
    r
}

/// The part's polygon rotated by the gene angle and canonicalized again: the
/// executable form of `rp_result`.
fn rotated_polygon(part: &NestPart, angle: i32) -> (r: Result<NestPolygon, GeomError>)
    requires
        part.wf(),
    ensures
        r is Ok <==> rp_result(pview(part.polygon.verts@), angle as int) is Ok,
        r is Err ==> r->Err_0 == rp_result(pview(part.polygon.verts@), angle as int)->Err_0,
        r matches Ok(p) ==> p.wf() && p.is_convex && pview(p.verts@) == rp_result(
            pview(part.polygon.verts@),
            angle as int,
        )->Ok_0 && coords_bounded(pview(p.verts@), PART_BOUND as int) && 3 <= p.verts@.len()
            <= PART_VERTS,
{
    let ghost pv = pview(part.polygon.verts@);
    let q = norm_quarter(angle);
    if q < 0 {
        return Err(GeomError::UnsupportedGeometry);
    }
    let rc = rotate_contour(&part.polygon.verts, q);
    let ghost rv = rot_ring(pv, q as int);
    match NestPolygon::new(rc) {
        Err(e) => Err(e),
        Ok(p) => {
            proof {
                if area2(rv) < 0 {
                    assert(forall|i: int|
                        0 <= i < rv.len() ==> #[trigger] rv.reverse()[i] == rv[rv.len() - 1 - i]);
                }
                assert(coords_bounded(pview(p.verts@), PART_BOUND as int));
            }
            if !p.is_convex {
                Err(GeomError::UnsupportedGeometry)
            } else {
                Ok(p)
            }
        },
    }
}

/// Strict interior test against a canonical polygon.
fn point_strictly_inside(poly: &NestPolygon, px: i64, py: i64) -> (r: bool)
    requires
        poly.wf(),
        -1099511627776 <= px <= 1099511627776,
        -1099511627776 <= py <= 1099511627776,
    ensures
        r == inside_strict(pview(poly.verts@), (px as int, py as int)),
{
    let ghost s = pview(poly.verts@);
    let n = poly.verts.len();
    let mut i: usize = 0;
    while i < n
        invariant
            i <= n,
            poly.wf(),
            s == pview(poly.verts@),
            n == poly.verts@.len(),
            -1099511627776 <= px <= 1099511627776,
            -1099511627776 <= py <= 1099511627776,
            forall|j: int|
                0 <= j < i ==> cross(#[trigger] edge(s, j), (px - s[j].0, py - s[j].1)) > 0,
        decreases n - i,
    {
        let e = crate::nest_polygon::edge_at(&poly.verts, i);
        proof {
            lemma_pt_bounded(poly.verts@, GEOM_BOUND as int, i as int);
            assert(s[i as int] == (poly.verts@[i as int].x as int, poly.verts@[i as int].y as int));
        }
        let dx: i64 = px - poly.verts[i].x;
        let dy: i64 = py - poly.verts[i].y;
        proof {
            lemma_mul_bound(e.x as int, dy as int, 2199023255552);
            lemma_mul_bound(e.y as int, dx as int, 2199023255552);
        }
        let c: i128 = (e.x as i128) * (dy as i128) - (e.y as i128) * (dx as i128);
        proof {
            assert(c as int == cross(edge(s, i as int), (px - s[i as int].0, py - s[i as int].1)));
        }
        if c <= 0 {
            return false;
        }
        i += 1;
    }
    true
}

/// The no-fit polygons of the rotated part against every placed polygon,
/// the executable form of `spec_nfps`.
fn build_nfps(placed: &Vec<(NestPolygon, Point)>, rp: &NestPolygon) -> (r: Result<
    Vec<NestPolygon>,
    GeomError,
>)
    requires
        placed_ok(placed@),
        rp.wf(),
        rp.is_convex,
        coords_bounded(pview(rp.verts@), PART_BOUND as int),
        3 <= rp.verts@.len() <= PART_VERTS,
    ensures
        r is Ok <==> spec_nfps(placed_views(placed@), pview(rp.verts@), placed@.len() as int)
            is Ok,
        r is Err ==> r->Err_0 == spec_nfps(
            placed_views(placed@),
            pview(rp.verts@),
            placed@.len() as int,
        )->Err_0,
        r matches Ok(nf) ==> nf@.len() == placed@.len() && nfps_views(nf@) == spec_nfps(
            placed_views(placed@),
            pview(rp.verts@),
            placed@.len() as int,
        )->Ok_0 && nfps_ok(nf@),
{
    let ghost rpv = pview(rp.verts@);
    let ghost pvs = placed_views(placed@);
    let n = placed.len();
    let mut out: Vec<NestPolygon> = Vec::new();
    let mut j: usize = 0;
    while j < n
        invariant
            j <= n,
            n == placed@.len(),
            placed_ok(placed@),
            rp.wf(),
            rp.is_convex,
            coords_bounded(pview(rp.verts@), PART_BOUND as int),
            3 <= rp.verts@.len() <= PART_VERTS,
            rpv == pview(rp.verts@),
            pvs == placed_views(placed@),
            spec_nfps(pvs, rpv, j as int) is Ok,
            out@.len() == j,
            nfps_views(out@) == spec_nfps(pvs, rpv, j as int)->Ok_0,
            nfps_ok(out@),
        decreases n - j,
    {
        proof {
            assert(pvs[j as int] == (
                pview(placed@[j as int].0.verts@),
                (placed@[j as int].1.x as int, placed@[j as int].1.y as int),
            ));
            assert(coords_bounded(pview(placed@[j as int].0.verts@), NEST_BOUND as int));
            assert(coords_bounded(pview(rp.verts@), NEST_BOUND as int));
        }
        let nfp_r = placed[j].0.minkowski_sum(rp);
        match nfp_r {
            Err(e) => {
                proof {
                    assert(spec_nfps(pvs, rpv, j + 1) is Err);
                    assert(spec_nfps(pvs, rpv, j + 1)->Err_0 == e);
                    lemma_nfps_err_persists(pvs, rpv, j + 1, n as int);
                }
                return Err(e);
            },
            Ok(p) => {
                if !p.is_convex {
                    proof {
                        assert(spec_nfps(pvs, rpv, j + 1) == Err::<
                            Seq<Seq<(int, int)>>,
                            GeomError,
                        >(GeomError::UnsupportedGeometry));
                        lemma_nfps_err_persists(pvs, rpv, j + 1, n as int);
                    }
                    return Err(GeomError::UnsupportedGeometry);
                }
                out.push(p);
                proof {
                    assert(nfps_views(out@) =~= spec_nfps(pvs, rpv, j + 1)->Ok_0);
                }
            },
        }
        j += 1;
    }
    Ok(out)
}

/// Once the no-fit-polygon construction fails, it fails for every longer
/// prefix with the same error.
proof fn lemma_nfps_err_persists(
    placed: Seq<(Seq<(int, int)>, (int, int))>,
    rpv: Seq<(int, int)>,
    j: int,
    n: int,
)
    requires
        0 <= j <= n,
        spec_nfps(placed, rpv, j) is Err,
    ensures
        spec_nfps(placed, rpv, n) is Err,
        spec_nfps(placed, rpv, n)->Err_0 == spec_nfps(placed, rpv, j)->Err_0,
    decreases n - j,
{
    if j < n {
        lemma_nfps_err_persists(placed, rpv, j + 1, n);
    }
}

/// Feasibility of one candidate translation: inside the sheet and clear of
/// every placed polygon.
fn is_feasible(
    placed: &Vec<(NestPolygon, Point)>,
    nfps: &Vec<NestPolygon>,
    rp: &NestPolygon,
    sheet: &Sheet,
    t: Point,
) -> (r: bool)
    requires
        placed_ok(placed@),
        nfps_ok(nfps@),
        nfps@.len() == placed@.len(),
        rp.wf(),
        coords_bounded(pview(rp.verts@), PART_BOUND as int),
        sheet_wf(*sheet),
        -68719476736 <= t.x <= 68719476736,
        -68719476736 <= t.y <= 68719476736,
    ensures
        r == feasible(
            placed_views(placed@),
            nfps_views(nfps@),
            pview(rp.verts@),
            *sheet,
            (t.x as int, t.y as int),
        ),
{
    let ghost rpv = pview(rp.verts@);
    proof {
        lemma_minmax_bounded(rpv, rpv.len() as int, PART_BOUND as int, true);
        lemma_minmax_bounded(rpv, rpv.len() as int, PART_BOUND as int, false);
        lemma_wrap_index_bounds(rpv, rpv.len() as int);
    }
    if !(0 <= t.x + rp.min_x && t.x + rp.max_x <= sheet.length && 0 <= t.y + rp.min_y && t.y
        + rp.max_y <= sheet.width) {
        return false;
    }
    let contact = rp.verts[rp.pi_index];
    proof {
        lemma_pt_bounded(rp.verts@, PART_BOUND as int, rp.pi_index as int);
        assert((contact.x as int, contact.y as int) == contact_ref(rpv));
    }
    let n = placed.len();
    let mut j: usize = 0;
    while j < n
        invariant
            j <= n,
            n == placed@.len() == nfps@.len(),
            placed_ok(placed@),
            nfps_ok(nfps@),
            rpv == pview(rp.verts@),
            -68719476736 <= t.x <= 68719476736,
            -68719476736 <= t.y <= 68719476736,
            (contact.x as int, contact.y as int) == contact_ref(rpv),
            -PART_BOUND <= contact.x <= PART_BOUND,
            -PART_BOUND <= contact.y <= PART_BOUND,
            forall|k: int|
                0 <= k < j ==> !inside_strict(
                    #[trigger] nfps_views(nfps@)[k],
                    (
                        t.x + contact_ref(rpv).0 - placed_views(placed@)[k].1.0,
                        t.y + contact_ref(rpv).1 - placed_views(placed@)[k].1.1,
                    ),
                ),
        decreases n - j,
    {
        proof {
            assert(placed_views(placed@)[j as int] == (
                pview(placed@[j as int].0.verts@),
                (placed@[j as int].1.x as int, placed@[j as int].1.y as int),
            ));
            assert(nfps_views(nfps@)[j as int] == pview(nfps@[j as int].verts@));
        }
        let px: i64 = t.x + contact.x - placed[j].1.x;
        let py: i64 = t.y + contact.y - placed[j].1.y;
        if point_strictly_inside(&nfps[j], px, py) {
            return false;
        }
        j += 1;
    }
    true
}

/// The bottom-left feasible candidate translation for the rotated part, or
/// `None` when the current sheet has no room: the executable form of
/// `best_upto` over `all_cands`.
fn choose_position(
    placed: &Vec<(NestPolygon, Point)>,
    nfps: &Vec<NestPolygon>,
    rp: &NestPolygon,
    sheet: &Sheet,
) -> (r: Option<Point>)
    requires
        placed_ok(placed@),
        nfps_ok(nfps@),
        nfps@.len() == placed@.len(),
        rp.wf(),
        coords_bounded(pview(rp.verts@), PART_BOUND as int),
        sheet_wf(*sheet),
    ensures
        ({
            let cands = all_cands(
                placed_views(placed@),
                nfps_views(nfps@),
                pview(rp.verts@),
                placed@.len() as int,
            );
            let best = best_upto(
                cands,
                placed_views(placed@),
                nfps_views(nfps@),
                pview(rp.verts@),
                *sheet,
                cands.len() as int,
            );
            &&& (r is Some <==> best is Some)
            &&& (r matches Some(t) ==> best == Some((t.x as int, t.y as int)))
        }),
{
    let ghost rpv = pview(rp.verts@);
    let ghost pvs = placed_views(placed@);
    let ghost nvs = nfps_views(nfps@);
    proof {
        lemma_minmax_bounded(rpv, rpv.len() as int, PART_BOUND as int, true);
        lemma_minmax_bounded(rpv, rpv.len() as int, PART_BOUND as int, false);
        lemma_wrap_index_bounds(rpv, rpv.len() as int);
    }
    let contact = rp.verts[rp.pi_index];
    proof {
        lemma_pt_bounded(rp.verts@, PART_BOUND as int, rp.pi_index as int);
        assert((contact.x as int, contact.y as int) == contact_ref(rpv));
    }
    let n = placed.len();
    let mut cands: Vec<Point> = Vec::new();
    cands.push(Point { x: -rp.min_x, y: -rp.min_y });
    proof {
        assert(pview(cands@) =~= all_cands(pvs, nvs, rpv, 0));
    }
    let mut j: usize = 0;
    while j < n
        invariant
            j <= n,
            n == placed@.len() == nfps@.len(),
            placed_ok(placed@),
            nfps_ok(nfps@),
            rpv == pview(rp.verts@),
            pvs == placed_views(placed@),
            nvs == nfps_views(nfps@),
            (contact.x as int, contact.y as int) == contact_ref(rpv),
            -PART_BOUND <= contact.x <= PART_BOUND,
            -PART_BOUND <= contact.y <= PART_BOUND,
            pview(cands@) == all_cands(pvs, nvs, rpv, j as int),
            forall|q: int|
                0 <= q < cands@.len() ==> (-34359738368 <= (#[trigger] cands@[q]).x
                    <= 34359738368 && -34359738368 <= cands@[q].y <= 34359738368),
        decreases n - j,
    {
        proof {
            assert(pvs[j as int] == (
                pview(placed@[j as int].0.verts@),
                (placed@[j as int].1.x as int, placed@[j as int].1.y as int),
            ));
            assert(nvs[j as int] == pview(nfps@[j as int].verts@));
        }
        let m = nfps[j].verts.len();
        let mut k: usize = 0;
        while k < m
            invariant
                k <= m,
                j < n,
                n == placed@.len() == nfps@.len(),
                m == nfps@[j as int].verts@.len(),
                placed_ok(placed@),
                nfps_ok(nfps@),
                rpv == pview(rp.verts@),
                pvs == placed_views(placed@),
                nvs == nfps_views(nfps@),
                pvs[j as int] == (
                    pview(placed@[j as int].0.verts@),
                    (placed@[j as int].1.x as int, placed@[j as int].1.y as int),
                ),
                nvs[j as int] == pview(nfps@[j as int].verts@),
                (contact.x as int, contact.y as int) == contact_ref(rpv),
                -PART_BOUND <= contact.x <= PART_BOUND,
                -PART_BOUND <= contact.y <= PART_BOUND,
                pview(cands@) == all_cands(pvs, nvs, rpv, j as int) + cands_of(
                    pvs[j as int],
                    nvs[j as int],
                    rpv,
                ).take(k as int),
                forall|q: int|
                    0 <= q < cands@.len() ==> (-34359738368 <= (#[trigger] cands@[q]).x
                        <= 34359738368 && -34359738368 <= cands@[q].y <= 34359738368),
            decreases m - k,
        {
            proof {
                lemma_pt_bounded(nfps@[j as int].verts@, GEOM_BOUND as int, k as int);
                assert(nvs[j as int][k as int] == (
                    nfps@[j as int].verts@[k as int].x as int,
                    nfps@[j as int].verts@[k as int].y as int,
                ));
            }
            let v = nfps[j].verts[k];
            let t = Point { x: placed[j].1.x + v.x - contact.x, y: placed[j].1.y + v.y - contact.y };
            proof {
                assert(forall|q: int|
                    0 <= q < cands@.len() ==> #[trigger] pview(cands@)[q] == (
                        cands@[q].x as int,
                        cands@[q].y as int,
                    ));
                let co0 = cands_of(pvs[j as int], nvs[j as int], rpv);
                assert(co0.len() == nvs[j as int].len());
                assert(co0.take(k as int).len() == k);
                assert(pview(cands@).len() == cands@.len());
                assert(pview(cands@).len() == all_cands(pvs, nvs, rpv, j as int).len() + k);
            }
            cands.push(t);
            proof {
                let co = cands_of(pvs[j as int], nvs[j as int], rpv);
                assert(co[k as int] == (t.x as int, t.y as int));
                assert(co.take(k + 1) =~= co.take(k as int).push(co[k as int]));
                assert(forall|q: int|
                    0 <= q < cands@.len() ==> #[trigger] pview(cands@)[q] == (
                        cands@[q].x as int,
                        cands@[q].y as int,
                    ));
                assert(pview(cands@)[cands@.len() - 1] == (t.x as int, t.y as int));
                let az = all_cands(pvs, nvs, rpv, j as int);
                assert(pview(cands@).len() == az.len() + k + 1);
                assert forall|q: int| 0 <= q < pview(cands@).len() implies pview(cands@)[q] == (az
                    + co.take(k + 1))[q] by {
                    assert(pview(cands@)[q] == (cands@[q].x as int, cands@[q].y as int));
                    if q < az.len() + k {
                        assert(pview(cands@)[q] == (az + co.take(k as int))[q]);
                        if q < az.len() {
                            assert((az + co.take(k as int))[q] == az[q]);
                            assert((az + co.take(k + 1))[q] == az[q]);
                        } else {
                            assert((az + co.take(k as int))[q] == co[q - az.len()]);
                            assert((az + co.take(k + 1))[q] == co[q - az.len()]);
                        }
                    } else {
                        assert((az + co.take(k + 1))[q] == co[k as int]);
                    }
                }
                assert(pview(cands@) =~= az + co.take(k + 1));
            }
            k += 1;
        }
        proof {
            assert(cands_of(pvs[j as int], nvs[j as int], rpv).take(m as int) =~= cands_of(
                pvs[j as int],
                nvs[j as int],
                rpv,
            ));
            assert(pview(cands@) == all_cands(pvs, nvs, rpv, j + 1));
        }
        j += 1;
    }
    let ghost callc = all_cands(pvs, nvs, rpv, n as int);
    let cn = cands.len();
    let mut best: Option<Point> = None;
    let mut i: usize = 0;
    while i < cn
        invariant
            i <= cn,
            cn == cands@.len(),
            n == placed@.len() == nfps@.len(),
            placed_ok(placed@),
            nfps_ok(nfps@),
            rpv == pview(rp.verts@),
            pvs == placed_views(placed@),
            nvs == nfps_views(nfps@),
            sheet_wf(*sheet),
            rp.wf(),
            coords_bounded(pview(rp.verts@), PART_BOUND as int),
            callc == pview(cands@),
            forall|q: int|
                0 <= q < cands@.len() ==> (-34359738368 <= (#[trigger] cands@[q]).x
                    <= 34359738368 && -34359738368 <= cands@[q].y <= 34359738368),
            best is Some <==> best_upto(callc, pvs, nvs, rpv, *sheet, i as int) is Some,
            best matches Some(t) ==> best_upto(callc, pvs, nvs, rpv, *sheet, i as int) == Some(
                (t.x as int, t.y as int),
            ),
        decreases cn - i,
    {
        proof {
            assert(callc[i as int] == (cands@[i as int].x as int, cands@[i as int].y as int));
        }
        let c = cands[i];
        let ok = is_feasible(placed, nfps, rp, sheet, c);
        let replace: bool = match best {
            Option::None => ok,
            Option::Some(b) => ok && (c.y < b.y || (c.y == b.y && c.x < b.x)),
        };
        if replace {
            best = Some(c);
        }
        i += 1;
    }
    best
}

/// A chosen candidate is always feasible.
proof fn lemma_best_feasible(
    cands: Seq<(int, int)>,
    placed: Seq<(Seq<(int, int)>, (int, int))>,
    nfps: Seq<Seq<(int, int)>>,
    rpv: Seq<(int, int)>,
    sheet: Sheet,
    m: int,
)
    requires
        best_upto(cands, placed, nfps, rpv, sheet, m) is Some,
    ensures
        feasible(placed, nfps, rpv, sheet, best_upto(cands, placed, nfps, rpv, sheet, m)->Some_0),
    decreases m,
{
    if m > 0 {
        if best_upto(cands, placed, nfps, rpv, sheet, m - 1) is Some {
            lemma_best_feasible(cands, placed, nfps, rpv, sheet, m - 1);
        }
    }
}

/// Once the evaluation of a gene prefix fails, the whole evaluation fails
/// with the same error.
proof fn lemma_pack_err_persists(
    genes: Seq<Placement>,
    parts: Seq<NestPart>,
    sheet: Sheet,
    i: int,
    n: int,
)
    requires
        0 <= i <= n,
        spec_pack_upto(genes, parts, sheet, i) is Err,
    ensures
        spec_pack_upto(genes, parts, sheet, n) is Err,
        spec_pack_upto(genes, parts, sheet, n)->Err_0 == spec_pack_upto(
            genes,
            parts,
            sheet,
            i,
        )->Err_0,
    decreases n - i,
{
    if i < n {
        lemma_pack_err_persists(genes, parts, sheet, i + 1, n);
    }
}

impl PlacementSequence {
    /// Evaluates the chromosome by greedy bottom-left fill: genes strictly in
    /// order, each part rotated by its gene angle, placed at the bottom-left
    /// feasible position given the no-fit polygons against everything already
    /// on the current sheet, opening a fresh sheet when nothing fits. The
    /// result is the stated function of the inputs alone, so evaluation is
    /// deterministic.
    pub fn pack(&self, parts: &Vec<NestPart>, sheet: &Sheet) -> (r: Result<
        PackingResult,
        GeomError,
    >)
        requires
            parts_wf(parts@),
            sheet_wf(*sheet),
            self.placements@.len() <= GENE_LIMIT,
            forall|j: int|
                0 <= j < self.placements@.len() ==> (#[trigger] self.placements@[j]).part_index
                    < parts@.len(),
        ensures
            pack_post(r, self.placements@, parts@, *sheet),
    {
        let ghost genes = self.placements@;
        let n = self.placements.len();
        let mut placed: Vec<(NestPolygon, Point)> = Vec::new();
        let mut coords: Vec<Point> = Vec::new();
        let mut sheets: usize = 1;
        let mut area: i128 = 0;
        let mut i: usize = 0;
        while i < n
            invariant
                i <= n,
                n == genes.len(),
                genes == self.placements@,
                n <= GENE_LIMIT,
                parts_wf(parts@),
                sheet_wf(*sheet),
                forall|j: int|
                    0 <= j < genes.len() ==> (#[trigger] genes[j]).part_index < parts@.len(),
                spec_pack_upto(genes, parts@, *sheet, i as int) is Ok,
                placed_ok(placed@),
                placed_views(placed@) == spec_pack_upto(
                    genes,
                    parts@,
                    *sheet,
                    i as int,
                )->Ok_0.placed,
                sheets as int == spec_pack_upto(genes, parts@, *sheet, i as int)->Ok_0.sheets,
                area as int == spec_pack_upto(genes, parts@, *sheet, i as int)->Ok_0.area,
                pview(coords@) == spec_pack_upto(genes, parts@, *sheet, i as int)->Ok_0.coords,
                coords@.len() == i,
                1 <= sheets <= i + 1,
                0 <= area <= (i as int) * 0x800000000000000000,
            decreases n - i,
        {
            let ghost st = spec_pack_upto(genes, parts@, *sheet, i as int)->Ok_0;
            let g = self.placements[i];
            let part = &parts[g.part_index];
            proof {
                assert(parts@[g.part_index as int].wf());
            }
            let ghost pv = pview(part.polygon.verts@);
            let rp = match rotated_polygon(part, g.angle) {
                Err(e) => {
                    proof {
                        assert(spec_pack_upto(genes, parts@, *sheet, i + 1) is Err);
                        lemma_pack_err_persists(genes, parts@, *sheet, i + 1, n as int);
                    }
                    return Err(e);
                },
                Ok(rp) => rp,
            };
            let ghost rpv = pview(rp.verts@);
            let nfps = match build_nfps(&placed, &rp) {
                Err(e) => {
                    proof {
                        assert(spec_pack_upto(genes, parts@, *sheet, i + 1) is Err);
                        lemma_pack_err_persists(genes, parts@, *sheet, i + 1, n as int);
                    }
                    return Err(e);
                },
                Ok(nf) => nf,
            };
            let a2 = crate::nest_polygon::ring_area2(&rp.verts);
            proof {
                lemma_area2_bound(rpv, rpv.len() as int, PART_BOUND as int);
                assert(rpv.len() as int * (2 * (PART_BOUND as int) * (PART_BOUND as int))
                    <= 16384 * (2 * (PART_BOUND as int) * (PART_BOUND as int)))
                    by (nonlinear_arith)
                    requires rpv.len() <= 16384,
                ;
                assert((i as int) * 0x800000000000000000 + 0x800000000000000000 == ((i + 1) as int)
                    * 0x800000000000000000) by (nonlinear_arith);
                assert((i as int) * 0x800000000000000000 <= 0x100000 * 0x800000000000000000)
                    by (nonlinear_arith)
                    requires i as int <= 0x100000,
                ;
            }
            match choose_position(&placed, &nfps, &rp, sheet) {
                Option::Some(t) => {
                    proof {
                        let cands = all_cands(
                            placed_views(placed@),
                            nfps_views(nfps@),
                            rpv,
                            placed@.len() as int,
                        );
                        lemma_best_feasible(
                            cands,
                            placed_views(placed@),
                            nfps_views(nfps@),
                            rpv,
                            *sheet,
                            cands.len() as int,
                        );
                        lemma_minmax_bounded(rpv, rpv.len() as int, PART_BOUND as int, true);
                        lemma_minmax_bounded(rpv, rpv.len() as int, PART_BOUND as int, false);
                        assert(-2 * PART_BOUND <= t.x <= 2 * PART_BOUND);
                        assert(-2 * PART_BOUND <= t.y <= 2 * PART_BOUND);
                    }
                    area = area + a2;
                    coords.push(t);
                    placed.push((rp, t));
                    sheets = sheets;
                    proof {
                        assert(placed_views(placed@) =~= st.placed.push((rpv, (t.x as int, t.y
                            as int))));
                        assert(pview(coords@) =~= st.coords.push((t.x as int, t.y as int)));
                        assert(spec_pack_upto(genes, parts@, *sheet, i + 1) is Ok);
                    }
                },
                Option::None => {
                    proof {
                        lemma_minmax_bounded(rpv, rpv.len() as int, PART_BOUND as int, true);
                        lemma_minmax_bounded(rpv, rpv.len() as int, PART_BOUND as int, false);
                    }
                    let t0 = Point { x: -rp.min_x, y: -rp.min_y };
                    if !(0 <= t0.x + rp.min_x && t0.x + rp.max_x <= sheet.length && 0 <= t0.y
                        + rp.min_y && t0.y + rp.max_y <= sheet.width) {
                        proof {
                            assert(spec_pack_upto(genes, parts@, *sheet, i + 1) is Err);
                            lemma_pack_err_persists(genes, parts@, *sheet, i + 1, n as int);
                        }
                        return Err(GeomError::UnsupportedGeometry);
                    }
                    area = area + a2;
                    coords.push(t0);
                    let mut fresh: Vec<(NestPolygon, Point)> = Vec::new();
                    fresh.push((rp, t0));
                    placed = fresh;
                    sheets = sheets + 1;
                    proof {
                        assert(placed_views(placed@) =~= seq![
                            (rpv, (t0.x as int, t0.y as int)),
                        ]);
                        assert(pview(coords@) =~= st.coords.push((t0.x as int, t0.y as int)));
                        assert(spec_pack_upto(genes, parts@, *sheet, i + 1) is Ok);
                    }
                },
            }
            i += 1;
        }
        let ghost st = spec_pack(genes, parts@, *sheet)->Ok_0;
        proof {
            assert(0 < (sheets as int) * 2 * (sheet.length as int) * (sheet.width as int)
                <= 0x200000 * 2 * 0x10000000 * 0x10000000) by (nonlinear_arith)
                requires
                    1 <= sheets as int <= 0x200000,
                    0 < sheet.length as int <= 0x10000000,
                    0 < sheet.width as int <= 0x10000000,
            ;
            assert(0 <= (area as int) * 1000000 <= 0x100000 * 0x800000000000000000 * 1000000)
                by (nonlinear_arith)
                requires 0 <= area as int <= 0x100000 * 0x800000000000000000,
            ;
        }
        proof {
            assert(0 < (sheets as int) * 2 <= 0x400000) by (nonlinear_arith)
                requires 1 <= sheets as int <= 0x200000,
            ;
            assert(0 < (sheets as int) * 2 * (sheet.length as int) <= 0x400000 * 0x10000000)
                by (nonlinear_arith)
                requires
                    0 < (sheets as int) * 2 <= 0x400000,
                    0 < sheet.length as int <= 0x10000000,
            ;
        }
        let denom: i128 = (sheets as i128) * 2 * (sheet.length as i128) * (sheet.width as i128);
        proof {
            vstd::arithmetic::div_mod::lemma_div_nonincreasing(area as int * 1000000, denom as int);
            vstd::arithmetic::div_mod::lemma_div_pos_is_pos(area as int * 1000000, denom as int);
        }
        let f: i128 = (area * 1000000) / denom;
        let fitness: i64 = if f > 9223372036854775807i128 {
            9223372036854775807i64
        } else {
            f as i64
        };
        Ok(PackingResult { fitness, sheet_count: sheets, placed_area2: area, placed_at: coords })
    }
}

} // verus!
