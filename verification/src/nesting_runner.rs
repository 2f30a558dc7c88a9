use vstd::prelude::*;

use crate::geometry::{coords_bounded, oriented, pview, ring_ok, Point};
use crate::job::{Error, ErrorType, Input, Part, Sheet};
use crate::nest_polygon::NestPolygon;

verus! {

/// Largest coordinate magnitude accepted for part contours and sheet
/// dimensions; keeps all placement arithmetic within machine bounds.
pub const PART_BOUND: i64 = 268435456;

/// Largest vertex count accepted for one part contour.
pub const PART_VERTS: usize = 16384;

/// A part template prepared for nesting: the required count, the
/// canonicalized contour, and the allowed rotation angles in degrees.
#[derive(Clone, Debug)]
pub struct NestPart {
    pub quantity: u32,
    pub polygon: NestPolygon,
    pub rotations: Vec<i32>,
}

impl NestPart {
    /// At least one copy wanted, at least one allowed rotation, and a
    /// canonical polygon within the part-size limits.
    pub open spec fn wf(&self) -> bool {
        &&& self.quantity >= 1
        &&& self.rotations@.len() >= 1
        &&& self.polygon.wf()
        &&& coords_bounded(pview(self.polygon.verts@), PART_BOUND as int)
        &&& self.polygon.verts@.len() <= PART_VERTS
    }
}

/// One acceptable part description: a positive quantity, at least one
/// rotation, and a contour that canonicalizes within the size limits.
pub open spec fn part_ok(p: Part) -> bool {
    &&& 1 <= p.quantity
    &&& p.rotations@.len() >= 1
    &&& 3 <= p.contour@.len() <= PART_VERTS
    &&& coords_bounded(pview(p.contour@), PART_BOUND as int)
    &&& ring_ok(pview(p.contour@))
}

/// The total quantity across the first `m` part descriptions.
pub open spec fn quantities_sum(ps: Seq<Part>, m: int) -> int
    decreases m,
{
    if m <= 0 {
        0
    } else {
        quantities_sum(ps, m - 1) + ps[m - 1].quantity as int
    }
}

/// An acceptable job input: at least one part and one sheet, a usable first
/// sheet, every part acceptable, and a total instance count the engine can
/// hold.
pub open spec fn input_ok(input: Input) -> bool {
    &&& 1 <= input.parts@.len() < 0x1_0000_0000
    &&& input.sheets@.len() >= 1
    &&& 0 < input.sheets@[0].length <= PART_BOUND
    &&& 0 < input.sheets@[0].width <= PART_BOUND
    &&& (forall|j: int| 0 <= j < input.parts@.len() ==> part_ok(#[trigger] input.parts@[j]))
    &&& 1 <= quantities_sum(input.parts@, input.parts@.len() as int)
        <= crate::packing::GENE_LIMIT
}

/// Every template in the list is well-formed.
pub open spec fn parts_wf(parts: Seq<NestPart>) -> bool {
    forall|k: int| 0 <= k < parts.len() ==> (#[trigger] parts[k]).wf()
}

/// A usable stock sheet: strictly positive dimensions within the size limit.
pub open spec fn sheet_wf(sheet: Sheet) -> bool {
    &&& 0 < sheet.length <= PART_BOUND
    &&& 0 < sheet.width <= PART_BOUND
}

/// The instance total left from the last position of a part list equals the
/// last part's remaining quantity.
proof fn lemma_last_quantity(t: Seq<NestPart>, inst: int)
    requires
        t.len() >= 1,
        0 <= inst <= t.last().quantity as int,
    ensures
        crate::genetic_algorithm::quantity_from(t, t.len() - 1, inst) == t.last().quantity as int
            - inst,
    decreases t.last().quantity as int - inst,
{
    if inst < t.last().quantity as int {
        lemma_last_quantity(t, inst + 1);
    } else {
        assert(crate::genetic_algorithm::quantity_from(t, t.len() as int, 0) == 0);
    }
}

/// Appending one template adds exactly its quantity to the job size.
proof fn lemma_job_push(s: Seq<NestPart>, p: NestPart, k: int, inst: int)
    requires
        0 <= k <= s.len(),
        k < s.len() ==> 0 <= inst <= s[k].quantity as int,
        k == s.len() ==> inst == 0,
    ensures
        crate::genetic_algorithm::quantity_from(s.push(p), k, inst)
            == crate::genetic_algorithm::quantity_from(s, k, inst) + p.quantity as int,
    decreases s.len() - k, (if 0 <= k < s.len() {
        s[k].quantity as int - inst
    } else {
        0
    }),
{
    if k == s.len() {
        lemma_last_quantity(s.push(p), 0);
        assert(s.push(p).last() == p);
    } else if inst >= s[k].quantity as int {
        lemma_job_push(s, p, k + 1, 0);
    } else {
        lemma_job_push(s, p, k, inst + 1);
    }
}

/// Turns a raw job input into the engine's part templates and stock sheet.
/// Succeeds exactly on acceptable inputs; every rejection is an
/// `InvalidInput` job error.
pub fn validate(input: &Input) -> (r: Result<(Vec<NestPart>, Sheet), Error>)
    ensures
        r is Ok <==> input_ok(*input),
        r matches Ok(v) ==> ({
            &&& parts_wf(v.0@)
            &&& 1 <= v.0@.len() < 0x1_0000_0000
            &&& v.0@.len() == input.parts@.len()
            &&& sheet_wf(v.1)
            &&& v.1 == input.sheets@[0]
            &&& 1 <= crate::genetic_algorithm::job_size(v.0@) <= crate::packing::GENE_LIMIT
            &&& forall|j: int|
                0 <= j < v.0@.len() ==> (#[trigger] v.0@[j]).quantity as int
                    == input.parts@[j].quantity as int && v.0@[j].rotations@
                    == input.parts@[j].rotations@ && pview(v.0@[j].polygon.verts@) == oriented(
                    pview(input.parts@[j].contour@),
                )
        }),
        r matches Err(e) ==> e.error_type == ErrorType::InvalidInput,
{
    let np = input.parts.len();
    if np == 0 || (np as u64) >= 0x1_0000_0000u64 {
        return Err(invalid_input());
    }
    if input.sheets.len() == 0 {
        return Err(invalid_input());
    }
    let sheet = input.sheets[0];
    if !(0 < sheet.length && sheet.length <= PART_BOUND && 0 < sheet.width && sheet.width
        <= PART_BOUND) {
        return Err(invalid_input());
    }
    let mut parts: Vec<NestPart> = Vec::new();
    let mut total: u64 = 0;
    let mut j: usize = 0;
    while j < np
        invariant
            j <= np,
            np == input.parts@.len(),
            1 <= np < 0x1_0000_0000,
            parts@.len() == j,
            total as int == quantities_sum(input.parts@, j as int),
            total as int <= (j as int) * 0x8000_0000,
            forall|q: int| 0 <= q < j ==> part_ok(#[trigger] input.parts@[q]),
            parts_wf(parts@),
            crate::genetic_algorithm::quantity_from(parts@, 0, 0) == total as int,
            forall|q: int|
                0 <= q < j ==> (#[trigger] parts@[q]).quantity as int == input.parts@[q].quantity
                    as int && parts@[q].rotations@ == input.parts@[q].rotations@ && pview(
                    parts@[q].polygon.verts@,
                ) == oriented(pview(input.parts@[q].contour@)),
        decreases np - j,
    {
        let part = &input.parts[j];
        if part.quantity < 1 || part.rotations.len() == 0 {
            return Err(invalid_input());
        }
        let nv = part.contour.len();
        if nv < 3 || nv > PART_VERTS {
            return Err(invalid_input());
        }
        let mut c: usize = 0;
        while c < nv
            invariant
                c <= nv,
                nv == input.parts@[j as int].contour@.len(),
                j < input.parts@.len(),
                forall|q: int|
                    0 <= q < c ==> (-PART_BOUND
                        <= (#[trigger] input.parts@[j as int].contour@[q]).x <= PART_BOUND
                        && -PART_BOUND <= input.parts@[j as int].contour@[q].y <= PART_BOUND),
            decreases nv - c,
        {
            let pt = input.parts[j].contour[c];
            if pt.x < -PART_BOUND || pt.x > PART_BOUND || pt.y < -PART_BOUND || pt.y > PART_BOUND {
                proof {
                    assert(pview(input.parts@[j as int].contour@)[c as int] == (
                        pt.x as int,
                        pt.y as int,
                    ));
                }
                return Err(invalid_input());
            }
            c += 1;
        }
        proof {
            assert forall|q: int|
                0 <= q < pview(input.parts@[j as int].contour@).len() implies -PART_BOUND as int
                <= (#[trigger] pview(input.parts@[j as int].contour@)[q]).0 <= PART_BOUND
                    as int && -PART_BOUND as int <= pview(input.parts@[j as int].contour@)[q].1
                <= PART_BOUND as int by {
                assert(pview(input.parts@[j as int].contour@)[q] == (
                    input.parts@[j as int].contour@[q].x as int,
                    input.parts@[j as int].contour@[q].y as int,
                ));
            }
            assert(coords_bounded(pview(input.parts@[j as int].contour@), PART_BOUND as int));
        }
        let polygon = match NestPolygon::new(copy_points(&input.parts[j].contour)) {
            Ok(p) => p,
            Err(_) => {
                return Err(invalid_input());
            },
        };
        let np_new = NestPart {
            quantity: part.quantity as u32,
            polygon,
            rotations: copy_rotations(&part.rotations),
        };
        proof {
            lemma_job_push(parts@, np_new, 0, 0);
            assert(quantities_sum(input.parts@, j + 1) == quantities_sum(input.parts@, j as int)
                + input.parts@[j as int].quantity as int);
            assert((j as int + 1) * 0x8000_0000 == (j as int) * 0x8000_0000 + 0x8000_0000)
                by (nonlinear_arith);
            assert((j as int) * 0x8000_0000 <= 0x1_0000_0000 * 0x8000_0000) by (nonlinear_arith)
                requires 0 <= j as int <= 0x1_0000_0000,
            ;
        }
        total = total + part.quantity as u64;
        parts.push(np_new);
        j += 1;
    }
    if total < 1 || total > crate::packing::GENE_LIMIT as u64 {
        return Err(invalid_input());
    }
    Ok((parts, sheet))
}

/// A fresh copy of a contour.
fn copy_points(v: &Vec<Point>) -> (r: Vec<Point>)
    ensures
        r@ == v@,
{
    let mut r: Vec<Point> = Vec::new();
    let mut i: usize = 0;
    while i < v.len()
        invariant
            i <= v@.len(),
            r@ == v@.take(i as int),
        decreases v@.len() - i,
    {
        r.push(v[i]);
        proof {
            assert(v@.take(i + 1) =~= v@.take(i as int).push(v@[i as int]));
        }
        i += 1;
    }
    proof {
        assert(v@.take(v@.len() as int) =~= v@);
    }
    r
}

/// A fresh copy of a rotation list.
fn copy_rotations(v: &Vec<i32>) -> (r: Vec<i32>)
    ensures
        r@ == v@,
{
    let mut r: Vec<i32> = Vec::new();
    let mut i: usize = 0;
    while i < v.len()
        invariant
            i <= v@.len(),
            r@ == v@.take(i as int),
        decreases v@.len() - i,
    {
        r.push(v[i]);
        proof {
            assert(v@.take(i + 1) =~= v@.take(i as int).push(v@[i as int]));
        }
        i += 1;
    }
    proof {
        assert(v@.take(v@.len() as int) =~= v@);
    }
    r
}

/// The uniform rejection for unusable job input.
fn invalid_input() -> (e: Error)
    ensures
        e.error_type == ErrorType::InvalidInput,
{
    Error { error_type: ErrorType::InvalidInput, message: String::new() }
}

} // verus!
