use vstd::prelude::*;

use crate::geometry::Point;
use crate::job::{GenerationResult, Placement, Sheet};
use crate::nest_polygon::GeomError;
use crate::nesting_runner::{parts_wf, sheet_wf, NestPart};
use crate::packing::{pack_post, spec_pack, PackingResult, PlacementSequence, GENE_LIMIT};
use rand::Rng;
use rayon::iter::{IntoParallelRefIterator, ParallelIterator};

verus! {

/// Generations without strict fitness improvement after which the search is
/// exhausted.
pub const NO_PROGRESS_LIMIT: usize = 6;

/// A gene is sound for the part list: it names an existing part, an instance
/// below that part's quantity, and one of its allowed rotations.
pub open spec fn gene_ok(p: Placement, parts: Seq<NestPart>) -> bool {
    &&& p.part_index < parts.len()
    &&& (p.nth_part as int) < parts[p.part_index as int].quantity as int
    &&& parts[p.part_index as int].rotations@.contains(p.angle)
}

/// How many genes of `s` name the pair (part `k`, instance `i`).
pub open spec fn pair_count(s: Seq<Placement>, k: int, i: int) -> nat
    decreases s.len(),
{
    if s.len() == 0 {
        0
    } else {
        pair_count(s.drop_last(), k, i) + (if s.last().part_index == k && s.last().nth_part == i {
            1nat
        } else {
            0nat
        })
    }
}

/// The permutation invariant: every gene is sound, and every (part,
/// instance) pair the job asks for appears exactly once.
pub open spec fn valid_chromosome(s: Seq<Placement>, parts: Seq<NestPart>) -> bool {
    &&& forall|j: int| 0 <= j < s.len() ==> gene_ok(#[trigger] s[j], parts)
    &&& forall|k: int, i: int|
        0 <= k < parts.len() && 0 <= i < parts[k].quantity as int ==> #[trigger] pair_count(
            s,
            k,
            i,
        ) == 1
}

pub proof fn lemma_count_push(s: Seq<Placement>, e: Placement, k: int, i: int)
    ensures
        pair_count(s.push(e), k, i) == pair_count(s, k, i) + (if e.part_index == k && e.nth_part
            == i {
            1nat
        } else {
            0nat
        }),
{
    assert(s.push(e).drop_last() =~= s);
}

pub proof fn lemma_count_concat(a: Seq<Placement>, b: Seq<Placement>, k: int, i: int)
    ensures
        pair_count(a + b, k, i) == pair_count(a, k, i) + pair_count(b, k, i),
    decreases b.len(),
{
    if b.len() == 0 {
        assert(a + b =~= a);
    } else {
        assert((a + b).drop_last() =~= a + b.drop_last());
        assert((a + b).last() == b.last());
        lemma_count_concat(a, b.drop_last(), k, i);
    }
}

/// A gene present in the sequence is counted at least once.
pub proof fn lemma_count_present(s: Seq<Placement>, j: int)
    requires
        0 <= j < s.len(),
    ensures
        pair_count(s, s[j].part_index as int, s[j].nth_part as int) >= 1,
    decreases s.len(),
{
    if j == s.len() - 1 {
    } else {
        lemma_count_present(s.drop_last(), j);
    }
}

/// The genes of `f` whose (part, instance) pair does not occur in `p`, in
/// their original order.
pub open spec fn excl(f: Seq<Placement>, p: Seq<Placement>) -> Seq<Placement>
    decreases f.len(),
{
    if f.len() == 0 {
        f
    } else {
        let rest = excl(f.drop_last(), p);
        if pair_count(p, f.last().part_index as int, f.last().nth_part as int) > 0 {
            rest
        } else {
            rest.push(f.last())
        }
    }
}

/// How many genes of `f` have their pair present in `p`.
pub open spec fn overlap(f: Seq<Placement>, p: Seq<Placement>) -> nat
    decreases f.len(),
{
    if f.len() == 0 {
        0
    } else {
        overlap(f.drop_last(), p) + (if pair_count(
            p,
            f.last().part_index as int,
            f.last().nth_part as int,
        ) > 0 {
            1nat
        } else {
            0nat
        })
    }
}

pub proof fn lemma_excl_len(f: Seq<Placement>, p: Seq<Placement>)
    ensures
        excl(f, p).len() + overlap(f, p) == f.len(),
    decreases f.len(),
{
    if f.len() > 0 {
        lemma_excl_len(f.drop_last(), p);
    }
}

/// Extending the prefix by one gene whose pair it does not yet hold raises
/// the overlap by that pair's count in `f`.
pub proof fn lemma_overlap_push(f: Seq<Placement>, p: Seq<Placement>, e: Placement)
    requires
        pair_count(p, e.part_index as int, e.nth_part as int) == 0,
    ensures
        overlap(f, p.push(e)) == overlap(f, p) + pair_count(
            f,
            e.part_index as int,
            e.nth_part as int,
        ),
    decreases f.len(),
{
    if f.len() > 0 {
        lemma_overlap_push(f.drop_last(), p, e);
        lemma_count_push(p, e, f.last().part_index as int, f.last().nth_part as int);
    }
}

/// A prefix of pairwise-distinct genes, each of whose pairs occurs exactly
/// once in `f`, overlaps `f` in exactly its own length.
pub proof fn lemma_overlap_full(f: Seq<Placement>, p: Seq<Placement>)
    requires
        forall|j: int|
            0 <= j < p.len() ==> pair_count(
                p,
                (#[trigger] p[j]).part_index as int,
                p[j].nth_part as int,
            ) == 1,
        forall|j: int|
            0 <= j < p.len() ==> pair_count(
                f,
                (#[trigger] p[j]).part_index as int,
                p[j].nth_part as int,
            ) == 1,
    ensures
        overlap(f, p) == p.len(),
    decreases p.len(),
{
    if p.len() == 0 {
        lemma_overlap_zero(f, p);
    } else {
        let p0 = p.drop_last();
        let e = p.last();
        lemma_count_push(p0, e, e.part_index as int, e.nth_part as int);
        assert(p0.push(e) =~= p);
        assert(pair_count(p0, e.part_index as int, e.nth_part as int) == 0);
        assert forall|j: int| 0 <= j < p0.len() implies pair_count(
            p0,
            (#[trigger] p0[j]).part_index as int,
            p0[j].nth_part as int,
        ) == 1 by {
            lemma_count_push(p0, e, p0[j].part_index as int, p0[j].nth_part as int);
            lemma_count_present(p0, j);
            assert(p[j] == p0[j]);
        }
        assert forall|j: int| 0 <= j < p0.len() implies pair_count(
            f,
            (#[trigger] p0[j]).part_index as int,
            p0[j].nth_part as int,
        ) == 1 by {
            assert(p[j] == p0[j]);
        }
        lemma_overlap_full(f, p0);
        lemma_overlap_push(f, p0, e);
    }
}

/// With an empty prefix nothing overlaps.
pub proof fn lemma_overlap_zero(f: Seq<Placement>, p: Seq<Placement>)
    requires
        p.len() == 0,
    ensures
        overlap(f, p) == 0,
    decreases f.len(),
{
    if f.len() > 0 {
        lemma_overlap_zero(f.drop_last(), p);
    }
}

/// Counting through the complement: a pair kept out of `p` keeps its count
/// from `f`; a pair present in `p` is filtered away entirely.
pub proof fn lemma_excl_count(f: Seq<Placement>, p: Seq<Placement>, k: int, i: int)
    ensures
        pair_count(excl(f, p), k, i) == (if pair_count(p, k, i) > 0 {
            0nat
        } else {
            pair_count(f, k, i)
        }),
    decreases f.len(),
{
    if f.len() > 0 {
        lemma_excl_count(f.drop_last(), p, k, i);
        let e = f.last();
        if pair_count(p, e.part_index as int, e.nth_part as int) > 0 {
        } else {
            lemma_count_push(excl(f.drop_last(), p), e, k, i);
        }
    }
}

/// Every gene of the complement comes from `f`, so it stays sound.
pub proof fn lemma_excl_genes_ok(f: Seq<Placement>, p: Seq<Placement>, parts: Seq<NestPart>)
    requires
        forall|j: int| 0 <= j < f.len() ==> gene_ok(#[trigger] f[j], parts),
    ensures
        forall|j: int| 0 <= j < excl(f, p).len() ==> gene_ok(#[trigger] excl(f, p)[j], parts),
    decreases f.len(),
{
    if f.len() > 0 {
        assert(forall|j: int| 0 <= j < f.len() - 1 ==> #[trigger] f.drop_last()[j] == f[j]);
        lemma_excl_genes_ok(f.drop_last(), p, parts);
        let r = excl(f, p);
        let r0 = excl(f.drop_last(), p);
        if pair_count(p, f.last().part_index as int, f.last().nth_part as int) > 0 {
        } else {
            assert(gene_ok(f.last(), parts));
            assert forall|j: int| 0 <= j < r.len() implies gene_ok(#[trigger] r[j], parts) by {
                if j < r.len() - 1 {
                    assert(r[j] == r0[j]);
                } else {
                    assert(r[j] == f.last());
                }
            }
        }
    }
}

/// One crossover child as a value: the first parent's genes before the cut,
/// then the second parent's remaining genes in their order.
pub open spec fn crossover_spec(a: Seq<Placement>, b: Seq<Placement>, cx: int) -> Seq<Placement> {
    a.take(cx) + excl(b, a.take(cx))
}

/// `a` arises from `b` by `steps` adjacent transpositions.
pub open spec fn swapped_k(b: Seq<Placement>, a: Seq<Placement>, steps: nat) -> bool
    decreases steps,
{
    if steps == 0 {
        a == b
    } else {
        exists|mid: Seq<Placement>, pos: int|
            swapped_k(b, mid, (steps - 1) as nat) && 0 <= pos && pos + 1 < mid.len() && a
                == #[trigger] mid.update(pos, mid[pos + 1]).update(pos + 1, mid[pos])
    }
}

/// `a` arises from `mid` by retagging rotations only: every gene keeps its
/// (part, instance) pair and carries one of its part's allowed angles.
pub open spec fn retagged(mid: Seq<Placement>, a: Seq<Placement>, parts: Seq<NestPart>) -> bool {
    &&& a.len() == mid.len()
    &&& forall|w: int|
        0 <= w < a.len() ==> ((#[trigger] a[w]).part_index == mid[w].part_index && a[w].nth_part
            == mid[w].nth_part && parts[a[w].part_index as int].rotations@.contains(a[w].angle))
}

/// The outcomes mutation can reach from `b`: some number of adjacent swaps
/// followed by a per-gene rotation retag within the allowed lists.
pub open spec fn mutation_image(b: Seq<Placement>, a: Seq<Placement>, parts: Seq<NestPart>) -> bool {
    exists|steps: nat, mid: Seq<Placement>|
        #[trigger] swapped_k(b, mid, steps) && retagged(mid, a, parts)
}

/// The chromosome `c` was bred from the population: it is the mutation image
/// of a crossover child of two distinct individuals.
pub open spec fn bred_from(
    c: PlacementSequence,
    pop: Seq<PlacementSequence>,
    parts: Seq<NestPart>,
) -> bool {
    exists|i: int, j: int, cx: int|
        #![auto]
        0 <= i < pop.len() && 0 <= j < pop.len() && i != j && 0 <= cx
            <= pop[i].placements@.len() && mutation_image(
            crossover_spec(pop[i].placements@, pop[j].placements@, cx),
            c.placements@,
            parts,
        )
}

/// Relies on rand's `Rng::gen_range` over `0..k`: a uniformly distributed
/// integer below `k`; panics only on an empty range, which the
/// precondition excludes.
#[verifier::external_body]
fn random_below(k: u64) -> (r: u64)
    requires
        1 <= k,
    ensures
        r < k,
{
    rand::thread_rng().gen_range(0..k)
}

/// The integer square root, as a specification value.
pub open spec fn sqrt_floor(s: int) -> int {
    choose|f: int| 0 <= f && #[trigger] (f * f) <= s && s < (f + 1) * (f + 1)
}

/// Any two integer square roots of the same value agree, so `sqrt_floor`
/// names the computed one.
pub proof fn lemma_sqrt_floor_unique(s: int, f: int)
    requires
        0 <= f,
        f * f <= s,
        s < (f + 1) * (f + 1),
    ensures
        sqrt_floor(s) == f,
{
    assert(exists|g: int| 0 <= g && #[trigger] (g * g) <= s && s < (g + 1) * (g + 1)) by {
        assert(0 <= f && f * f <= s && s < (f + 1) * (f + 1));
    }
    let g = sqrt_floor(s);
    assert(0 <= g && g * g <= s && s < (g + 1) * (g + 1));
    assert(g == f) by (nonlinear_arith)
        requires
            0 <= f,
            0 <= g,
            f * f <= s,
            s < (f + 1) * (f + 1),
            g * g <= s,
            s < (g + 1) * (g + 1),
    ;
}

/// The engine's closed-form selection map, evaluated exactly over the
/// integers: the uniform draw below 2^32 stands for the uniform real draw,
/// and the square root is the integer floor of the real one.
pub open spec fn wi_spec(n: int, draw: int) -> int {
    let m: int = 0x1_0000_0000;
    let s: int = 4 * n * n * (m - draw) + 8 * n * m + m;
    let f = sqrt_floor(s);
    let adj = if f * f == s {
        0int
    } else {
        1int
    };
    (65536 * (2 * n + 3) - f - adj) / 131072
}

/// Integer square root by bisection.
fn isqrt128(s: u128) -> (f: u128)
    requires
        s < 0x4_0000_0000_0000_0000_0000_0000,
    ensures
        (f as int) * (f as int) <= s as int,
        (s as int) < ((f as int) + 1) * ((f as int) + 1),
{
    let mut lo: u128 = 0;
    let mut hi: u128 = 0x2_0000_0000_0000;
    proof {
        assert((hi as int) * (hi as int) > s as int) by (nonlinear_arith)
            requires
                hi as int == 0x2_0000_0000_0000,
                s < 0x4_0000_0000_0000_0000_0000_0000,
        ;
    }
    while lo + 1 < hi
        invariant
            lo < hi <= 0x2_0000_0000_0000,
            (lo as int) * (lo as int) <= s as int,
            (s as int) < (hi as int) * (hi as int),
        decreases hi - lo,
    {
        let mid = lo + (hi - lo) / 2;
        proof {
            assert((mid as int) * (mid as int) < 0x4_0000_0000_0000_0000_0000_0000_0000)
                by (nonlinear_arith)
                requires 0 < (mid as int) <= 0x2_0000_0000_0000,
            ;
        }
        if mid * mid <= s {
            lo = mid;
        } else {
            hi = mid;
        }
    }
    lo
}

/// The closed-form weighted index: maps the uniform draw below 2^32
/// monotonically onto [0, n), exactly as `wi_spec` states. Over the
/// ascending fitness ordering this map concentrates most of its mass on the
/// lower indices — the shape of the selection formula itself.
pub fn weighted_index(n: usize, draw: u64) -> (r: usize)
    requires
        1 <= n <= 0x8000_0000,
        draw < 0x1_0000_0000,
    ensures
        r < n,
        r as int == wi_spec(n as int, draw as int),
{
    let n1: u128 = n as u128;
    let m: u128 = 0x1_0000_0000;
    let k: u128 = draw as u128;
    proof {
        assert((4 * (n1 as int) * (n1 as int) * (m as int - k as int) + 8 * (n1 as int) * (m
            as int) + (m as int)) < 0x4_0000_0000_0000_0000_0000_0000) by (nonlinear_arith)
            requires
                1 <= (n1 as int) <= 0x8000_0000,
                0 <= (k as int) < (m as int),
                m as int == 0x1_0000_0000,
        ;
        assert(4 * n1 as int * n1 as int * (m as int - k as int) + 8 * (n1 as int) * (m as int)
            + m as int > 9 * m as int) by (nonlinear_arith)
            requires
                1 <= n1 as int,
                0 <= (k as int) < (m as int),
                m as int == 0x1_0000_0000,
        ;
    }
    proof {
        assert(4 * (n1 as int) * (n1 as int) <= 0x1_0000_0000_0000_0000) by (nonlinear_arith)
            requires 1 <= (n1 as int) <= 0x8000_0000,
        ;
        assert(4 * (n1 as int) * (n1 as int) * (m as int - k as int)
            <= 0x1_0000_0000_0000_0000 * 0x1_0000_0000) by (nonlinear_arith)
            requires
                0 <= 4 * (n1 as int) * (n1 as int) <= 0x1_0000_0000_0000_0000,
                0 < m as int - k as int <= 0x1_0000_0000,
        ;
        assert(8 * (n1 as int) * (m as int) <= 0x4_0000_0000_0000_0000) by (nonlinear_arith)
            requires
                1 <= (n1 as int) <= 0x8000_0000,
                m as int == 0x1_0000_0000,
        ;
    }
    let s: u128 = 4 * n1 * n1 * (m - k) + 8 * n1 * m + m;
    let f = isqrt128(s);
    let a: u128 = 65536 * (2 * n1 + 3);
    proof {
        assert((a as int) * (a as int) > s as int) by (nonlinear_arith)
            requires
                a as int == 65536 * (2 * (n1 as int) + 3),
                s as int == 4 * (n1 as int) * (n1 as int) * (m as int - k as int) + 8 * (n1
                    as int) * (m as int) + m as int,
                1 <= n1 as int,
                0 <= (k as int) < (m as int),
                m as int == 0x1_0000_0000,
        ;
        assert(f < a) by (nonlinear_arith)
            requires
                (f as int) * (f as int) <= s as int,
                (s as int) < (a as int) * (a as int),
                0 <= f as int,
                0 < a as int,
        ;
        assert(s as int > 196608 * 196608) by (nonlinear_arith)
            requires
                s as int > 9 * m as int,
                m as int == 0x1_0000_0000,
        ;
        if (f as int) * (f as int) == s as int {
            assert(f > 196608) by (nonlinear_arith)
                requires
                    (f as int) * (f as int) == s as int,
                    s as int > 196608 * 196608,
                    0 <= f as int,
            ;
        } else {
            assert(f >= 196608) by (nonlinear_arith)
                requires
                    (s as int) < ((f as int) + 1) * ((f as int) + 1),
                    s as int > 196608 * 196608,
                    0 <= f as int,
            ;
        }
    }
    let delta: u128 = if f * f == s {
        0
    } else {
        1
    };
    let num: u128 = a - f - delta;
    proof {
        assert((num as int) < 131072 * (n1 as int));
        assert((num as int) / 131072 < (n1 as int)) by (nonlinear_arith)
            requires
                0 <= num as int,
                (num as int) < 131072 * (n1 as int),
                0 < n1 as int,
        ;
        lemma_sqrt_floor_unique(s as int, f as int);
    }
    (num / 131072) as usize
}

/// Weighted random selection over an ascending ordering of `n` individuals:
/// draws uniformly and applies the closed-form map `wi_spec`.
pub fn select_index(n: usize) -> (r: usize)
    requires
        1 <= n <= 0x8000_0000,
    ensures
        r < n,
        exists|d: int| 0 <= d < 0x1_0000_0000 && r as int == wi_spec(n as int, d),
{
    let draw = random_below(0x1_0000_0000);
    weighted_index(n, draw)
}

/// Relies on rayon's `par_iter().map().collect()`: the output vector has one
/// entry per individual, in order, and each entry is the result of the
/// verified evaluator on that individual, whose contract pins it to the
/// deterministic evaluation.
#[verifier::external_body]
fn par_pack(
    individuals: &Vec<PlacementSequence>,
    parts: &Vec<NestPart>,
    sheet: &Sheet,
) -> (r: Vec<Result<PackingResult, GeomError>>)
    requires
        parts_wf(parts@),
        sheet_wf(*sheet),
        forall|x: int|
            0 <= x < individuals@.len() ==> (#[trigger] individuals@[x]).placements@.len()
                <= GENE_LIMIT,
        forall|x: int, j: int|
            0 <= x < individuals@.len() && 0 <= j < individuals@[x].placements@.len() ==> (
            #[trigger] individuals@[x].placements@[j]).part_index < parts@.len(),
    ensures
        r@.len() == individuals@.len(),
        forall|x: int|
            0 <= x < r@.len() ==> pack_post(
                #[trigger] r@[x],
                individuals@[x].placements@,
                parts@,
                *sheet,
            ),
{
    individuals.par_iter().map(|ind| ind.pack(parts, sheet)).collect()
}

/// Membership of a (part, instance) pair among the first `upto` genes.
fn contains_pair(v: &Vec<Placement>, upto: usize, k: usize, i: u32) -> (r: bool)
    requires
        upto <= v@.len(),
    ensures
        r <==> pair_count(v@.take(upto as int), k as int, i as int) > 0,
{
    let mut j: usize = 0;
    while j < upto
        invariant
            j <= upto <= v@.len(),
            pair_count(v@.take(j as int), k as int, i as int) == 0,
        decreases upto - j,
    {
        proof {
            assert(v@.take(j + 1).drop_last() =~= v@.take(j as int));
        }
        if v[j].part_index == k && v[j].nth_part == i {
            proof {
                assert(pair_count(v@.take(j + 1), k as int, i as int) == 1);
                assert(v@.take(upto as int) =~= v@.take(j + 1) + v@.subrange(
                    j + 1,
                    upto as int,
                ));
                lemma_count_concat(
                    v@.take(j + 1),
                    v@.subrange(j + 1, upto as int),
                    k as int,
                    i as int,
                );
            }
            return true;
        }
        j += 1;
    }
    false
}

/// One crossover child: `first`'s genes before the cut, then `second`'s
/// genes in their own order with every pair already taken by the cut
/// excluded. Preserves the permutation invariant and the length.
fn crossover_child(
    first: &PlacementSequence,
    second: &PlacementSequence,
    cross: usize,
    Ghost(parts): Ghost<Seq<NestPart>>,
) -> (c: PlacementSequence)
    requires
        valid_chromosome(first.placements@, parts),
        valid_chromosome(second.placements@, parts),
        first.placements@.len() == second.placements@.len(),
        cross <= first.placements@.len(),
    ensures
        c.placements@ == first.placements@.take(cross as int) + excl(
            second.placements@,
            first.placements@.take(cross as int),
        ),
        valid_chromosome(c.placements@, parts),
        c.placements@.len() == first.placements@.len(),
{
    let n = first.placements.len();
    let ghost fs = first.placements@;
    let ghost ss = second.placements@;
    let ghost pfx = fs.take(cross as int);
    let mut out: Vec<Placement> = Vec::new();
    let mut i: usize = 0;
    while i < cross
        invariant
            i <= cross <= n,
            n == fs.len(),
            fs == first.placements@,
            out@ == fs.take(i as int),
        decreases cross - i,
    {
        out.push(first.placements[i]);
        proof {
            assert(fs.take(i + 1) =~= fs.take(i as int).push(fs[i as int]));
        }
        i += 1;
    }
    let mut w: usize = 0;
    while w < n
        invariant
            w <= n,
            n == fs.len() == ss.len(),
            fs == first.placements@,
            ss == second.placements@,
            cross <= n,
            pfx == fs.take(cross as int),
            out@ == pfx + excl(ss.take(w as int), pfx),
        decreases n - w,
    {
        let g = second.placements[w];
        proof {
            assert(ss.take(w + 1).drop_last() =~= ss.take(w as int));
            assert(ss.take(w + 1).last() == ss[w as int]);
        }
        if !contains_pair(&first.placements, cross, g.part_index, g.nth_part) {
            out.push(g);
        }
        proof {
            assert(out@ =~= pfx + excl(ss.take(w + 1), pfx));
        }
        w += 1;
    }
    proof {
        assert(ss.take(n as int) =~= ss);
        let ex = excl(ss, pfx);
        // every gene is sound
        lemma_excl_genes_ok(ss, pfx, parts);
        assert(forall|j: int| 0 <= j < cross ==> #[trigger] pfx[j] == fs[j]);
        assert forall|j: int| 0 <= j < out@.len() implies gene_ok(#[trigger] out@[j], parts) by {
            if j < cross {
                assert(out@[j] == fs[j]);
            } else {
                assert(out@[j] == ex[j - cross]);
            }
        }
        // each wanted pair appears exactly once
        assert forall|k: int, ii: int|
            0 <= k < parts.len() && 0 <= ii < parts[k].quantity as int implies #[trigger]
        pair_count(out@, k, ii) == 1 by {
            lemma_count_concat(pfx, ex, k, ii);
            lemma_excl_count(ss, pfx, k, ii);
            assert(fs =~= pfx + fs.subrange(cross as int, n as int));
            lemma_count_concat(pfx, fs.subrange(cross as int, n as int), k, ii);
            assert(pair_count(fs, k, ii) == 1);
            assert(pair_count(ss, k, ii) == 1);
        }
        // the length is preserved
        assert forall|j: int| 0 <= j < pfx.len() implies pair_count(
            pfx,
            (#[trigger] pfx[j]).part_index as int,
            pfx[j].nth_part as int,
        ) == 1 && pair_count(ss, pfx[j].part_index as int, pfx[j].nth_part as int) == 1 by {
            lemma_count_present(pfx, j);
            assert(fs =~= pfx + fs.subrange(cross as int, n as int));
            lemma_count_concat(
                pfx,
                fs.subrange(cross as int, n as int),
                pfx[j].part_index as int,
                pfx[j].nth_part as int,
            );
            assert(pfx[j] == fs[j]);
            assert(gene_ok(fs[j], parts));
            assert(pair_count(fs, pfx[j].part_index as int, pfx[j].nth_part as int) == 1);
            assert(pair_count(ss, pfx[j].part_index as int, pfx[j].nth_part as int) == 1);
        }
        lemma_overlap_full(ss, pfx);
        lemma_excl_len(ss, pfx);
    }
    PlacementSequence { placements: out }
}

/// The gene list of individual `i`, generated from parts in input order:
/// instances in order, the rotation of each gene drawn from `j` read as a
/// mixed-radix number over the rotation counts.
pub open spec fn genes_from(parts: Seq<NestPart>, k: int, inst: int, j: int) -> Seq<Placement>
    decreases parts.len() - k, (if 0 <= k < parts.len() {
        parts[k].quantity as int - inst
    } else {
        0
    }),
{
    if k < 0 || k >= parts.len() || j < 0 {
        Seq::empty()
    } else if inst < 0 || inst >= parts[k].quantity as int {
        genes_from(parts, k + 1, 0, j)
    } else {
        let rl = parts[k].rotations@.len() as int;
        seq![
            Placement {
                part_index: k as usize,
                nth_part: inst as u32,
                angle: parts[k].rotations@[j % rl],
            },
        ] + genes_from(parts, k, inst + 1, j / rl)
    }
}

/// The number of genes still to generate from position (`k`, `inst`).
pub open spec fn quantity_from(parts: Seq<NestPart>, k: int, inst: int) -> int
    decreases parts.len() - k, (if 0 <= k < parts.len() {
        parts[k].quantity as int - inst
    } else {
        0
    }),
{
    if k < 0 || k >= parts.len() {
        0
    } else if inst < 0 || inst >= parts[k].quantity as int {
        quantity_from(parts, k + 1, 0)
    } else {
        1 + quantity_from(parts, k, inst + 1)
    }
}

/// The total number of part instances the job asks for.
pub open spec fn job_size(parts: Seq<NestPart>) -> int {
    quantity_from(parts, 0, 0)
}

/// The generated gene list is a valid chromosome for the remaining pairs:
/// sound genes, each remaining pair exactly once, no other pair at all.
pub proof fn lemma_genes_from(parts: Seq<NestPart>, k: int, inst: int, j: int)
    requires
        parts_wf(parts),
        parts.len() < 0x1_0000_0000,
        0 <= k <= parts.len(),
        j >= 0,
        k < parts.len() ==> 0 <= inst <= parts[k].quantity as int,
        k == parts.len() ==> inst == 0,
    ensures
        genes_from(parts, k, inst, j).len() == quantity_from(parts, k, inst),
        forall|q: int|
            0 <= q < genes_from(parts, k, inst, j).len() ==> gene_ok(
                #[trigger] genes_from(parts, k, inst, j)[q],
                parts,
            ),
        forall|kk: int, ii: int|
            0 <= kk < parts.len() && 0 <= ii < parts[kk].quantity as int ==> #[trigger] pair_count(
                genes_from(parts, k, inst, j),
                kk,
                ii,
            ) == (if kk > k || (kk == k && ii >= inst) {
                1nat
            } else {
                0nat
            }),
    decreases parts.len() - k, (if 0 <= k < parts.len() {
        parts[k].quantity as int - inst
    } else {
        0
    }),
{
    if k >= parts.len() {
        assert forall|kk: int, ii: int|
            0 <= kk < parts.len() && 0 <= ii < parts[kk].quantity as int implies #[trigger]
        pair_count(genes_from(parts, k, inst, j), kk, ii) == 0nat by {
        }
    } else if inst >= parts[k].quantity as int {
        lemma_genes_from(parts, k + 1, 0, j);
    } else {
        let rl = parts[k].rotations@.len() as int;
        assert(parts[k].wf());
        vstd::arithmetic::div_mod::lemma_mod_bound(j, rl);
        vstd::arithmetic::div_mod::lemma_div_pos_is_pos(j, rl);
        let e = Placement {
            part_index: k as usize,
            nth_part: inst as u32,
            angle: parts[k].rotations@[j % rl],
        };
        let rest = genes_from(parts, k, inst + 1, j / rl);
        lemma_genes_from(parts, k, inst + 1, j / rl);
        assert(parts[k].rotations@.contains(parts[k].rotations@[j % rl]));
        assert(e.part_index as int == k);
        assert(e.nth_part as int == inst);
        assert(gene_ok(e, parts));
        assert(genes_from(parts, k, inst, j) == seq![e] + rest);
        assert forall|kk: int, ii: int|
            0 <= kk < parts.len() && 0 <= ii < parts[kk].quantity as int implies #[trigger]
        pair_count(genes_from(parts, k, inst, j), kk, ii) == (if kk > k || (kk == k && ii >= inst) {
            1nat
        } else {
            0nat
        }) by {
            reveal_with_fuel(pair_count, 3);
            lemma_count_concat(seq![e], rest, kk, ii);
            assert(seq![e].drop_last() =~= Seq::<Placement>::empty());
            assert(pair_count(seq![e], kk, ii) == (if kk == k && ii == inst {
                1nat
            } else {
                0nat
            }));
        }
    }
}

/// The genetic-algorithm search state: the immutable job data, the current
/// generation's chromosomes, and the convergence-tracking counters.
#[derive(Clone, Debug)]
pub struct Population {
    pub parts: Vec<NestPart>,
    pub sheet: Sheet,
    pub individuals: Vec<PlacementSequence>,
    pub generation: usize,
    pub last_improvement: usize,
    pub last_fitness: i64,
}

/// The fitness the deterministic evaluation assigns an individual.
pub open spec fn eval_fitness(ind: PlacementSequence, parts: Seq<NestPart>, sheet: Sheet) -> int {
    crate::packing::fitness_spec(
        spec_pack(ind.placements@, parts, sheet)->Ok_0.area,
        spec_pack(ind.placements@, parts, sheet)->Ok_0.sheets,
        sheet,
    )
}

/// `f` is the best fitness any individual of `p` evaluates to, and every
/// individual evaluates successfully.
pub open spec fn max_fitness(p: Population, f: int) -> bool {
    &&& forall|x: int|
        0 <= x < p.individuals@.len() ==> spec_pack(
            (#[trigger] p.individuals@[x]).placements@,
            p.parts@,
            p.sheet,
        ) is Ok && eval_fitness(p.individuals@[x], p.parts@, p.sheet) <= f
    &&& exists|x: int|
        0 <= x < p.individuals@.len() && eval_fitness(
            #[trigger] p.individuals@[x],
            p.parts@,
            p.sheet,
        ) == f
}

/// The reported leftover area of a layout: the consumed sheet area minus the
/// placed part area, halved back to plain units and clamped.
pub open spec fn leftover_spec(area: int, sheets: int, sheet: Sheet) -> int {
    let consumed = sheets * 2 * sheet.length * sheet.width;
    let spare = if consumed >= area {
        consumed - area
    } else {
        0
    };
    let half = spare / 2;
    if half > i64::MAX {
        i64::MAX as int
    } else {
        half
    }
}

/// The reported cut loss in parts per thousand, derived from the fitness
/// (utilization in parts per million).
pub open spec fn cut_loss_spec(fitness: int) -> int {
    let f = if fitness < 0 {
        0
    } else {
        fitness
    };
    if f >= 1000000 {
        0
    } else {
        1000 - f / 1000
    }
}

/// The generation report is built from this individual's evaluation: its
/// genes paired 1:1, in order, with the evaluated coordinates, plus the
/// sheet count and waste measures of that same evaluation.
pub open spec fn report_matches(
    g: GenerationResult,
    ind: PlacementSequence,
    parts: Seq<NestPart>,
    sheet: Sheet,
) -> bool {
    let pr = spec_pack(ind.placements@, parts, sheet);
    let st = pr->Ok_0;
    &&& pr is Ok
    &&& g.placements_and_location@.len() == ind.placements@.len()
    &&& (forall|w: int|
        0 <= w < g.placements_and_location@.len() ==> (#[trigger] g.placements_and_location@[
        w]).0 == ind.placements@[w] && (g.placements_and_location@[w].1.x as int,
        g.placements_and_location@[w].1.y as int) == st.coords[w])
    &&& g.sheet_count as int == st.sheets
    &&& g.last_sheet_left_over as int == leftover_spec(st.area, st.sheets, sheet)
    &&& g.cut_loss_permille as int == cut_loss_spec(
        crate::packing::fitness_spec(st.area, st.sheets, sheet),
    )
}

/// Convergence termination, unfolded over calls: when the stagnation counter
/// starts at zero (a fresh improvement) and every following generation fails
/// to improve — so each call adds one, as `next`'s contract states — the
/// counter reaches the no-progress limit after that many calls, and from
/// then on `next` returns `Ok(None)` and leaves the engine untouched.
pub proof fn lemma_stagnation_terminates(counters: Seq<int>)
    requires
        counters.len() == NO_PROGRESS_LIMIT + 1,
        counters[0] == 0,
        forall|k: int| 0 <= k < NO_PROGRESS_LIMIT ==> counters[k + 1] == #[trigger] counters[k]
            + 1,
    ensures
        counters[NO_PROGRESS_LIMIT as int] >= NO_PROGRESS_LIMIT,
{
    assert(counters[1] == counters[0] + 1);
    assert(counters[2] == counters[1] + 1);
    assert(counters[3] == counters[2] + 1);
    assert(counters[4] == counters[3] + 1);
    assert(counters[5] == counters[4] + 1);
    assert(counters[6] == counters[5] + 1);
}

impl Population {
    /// The engine's invariant: well-formed job data, at least two
    /// individuals, and every chromosome a permutation of the job's
    /// (part, instance) pairs.
    pub open spec fn wf(&self) -> bool {
        &&& parts_wf(self.parts@)
        &&& 1 <= self.parts@.len() < 0x1_0000_0000
        &&& sheet_wf(self.sheet)
        &&& 2 <= self.individuals@.len() <= 0x8000_0000
        &&& 1 <= job_size(self.parts@) <= GENE_LIMIT
        &&& forall|x: int|
            0 <= x < self.individuals@.len() ==> valid_chromosome(
                (#[trigger] self.individuals@[x]).placements@,
                self.parts@,
            ) && self.individuals@[x].placements@.len() == job_size(self.parts@)
    }

    /// Builds the initial population: individual `i`'s rotations are drawn
    /// by reading `i` as a mixed-radix number over the parts' rotation
    /// counts, so the first individuals cover distinct rotation choices.
    pub fn new(parts: Vec<NestPart>, sheet: Sheet, population_size: usize) -> (r: Population)
        requires
            parts_wf(parts@),
            1 <= parts@.len() < 0x1_0000_0000,
            sheet_wf(sheet),
            2 <= population_size <= 0x8000_0000,
            1 <= job_size(parts@) <= GENE_LIMIT,
        ensures
            r.wf(),
            r.parts@ == parts@,
            r.sheet == sheet,
            r.individuals@.len() == population_size,
            r.generation == 0,
            r.last_improvement == 0,
            r.last_fitness == 0,
            forall|x: int|
                0 <= x < population_size ==> (#[trigger] r.individuals@[x]).placements@
                    == genes_from(parts@, 0, 0, x),
    {
        let mut individuals: Vec<PlacementSequence> = Vec::new();
        let mut i: usize = 0;
        while i < population_size
            invariant
                i <= population_size,
                parts_wf(parts@),
                parts@.len() >= 1,
                individuals@.len() == i,
                forall|x: int|
                    0 <= x < i ==> (#[trigger] individuals@[x]).placements@ == genes_from(
                        parts@,
                        0,
                        0,
                        x,
                    ),
            decreases population_size - i,
        {
            let ind = Self::initial_individual(&parts, i);
            individuals.push(ind);
            i += 1;
        }
        let pn = parts.len();
        proof {
            assert(parts@.len() == pn as nat);
            assert forall|x: int| 0 <= x < population_size implies valid_chromosome(
                (#[trigger] individuals@[x]).placements@,
                parts@,
            ) && individuals@[x].placements@.len() == job_size(parts@) by {
                lemma_genes_from(parts@, 0, 0, x);
            }
        }
        Population {
            parts,
            sheet,
            individuals,
            generation: 0,
            last_improvement: 0,
            last_fitness: 0,
        }
    }

    /// One individual of the initial population.
    fn initial_individual(parts: &Vec<NestPart>, idx: usize) -> (r: PlacementSequence)
        requires
            parts_wf(parts@),
            parts@.len() >= 1,
        ensures
            r.placements@ == genes_from(parts@, 0, 0, idx as int),
    {
        let ghost full = genes_from(parts@, 0, 0, idx as int);
        let mut genes: Vec<Placement> = Vec::new();
        let mut j: usize = idx;
        let mut k: usize = 0;
        while k < parts.len()
            invariant
                k <= parts@.len(),
                parts_wf(parts@),
                genes@ + genes_from(parts@, k as int, 0, j as int) == full,
            decreases parts@.len() - k,
        {
            let part = &parts[k];
            let rl = part.rotations.len();
            proof {
                assert(parts@[k as int].wf());
            }
            let quantity = part.quantity;
            let mut inst: u32 = 0;
            while inst < quantity
                invariant
                    inst <= quantity,
                    k < parts@.len(),
                    quantity == parts@[k as int].quantity,
                    rl == parts@[k as int].rotations@.len(),
                    rl >= 1,
                    parts_wf(parts@),
                    genes@ + genes_from(parts@, k as int, inst as int, j as int) == full,
                decreases quantity - inst,
            {
                let angle = parts[k].rotations[j % rl];
                let e = Placement { part_index: k, nth_part: inst, angle };
                proof {
                    assert(genes_from(parts@, k as int, inst as int, j as int) == seq![e]
                        + genes_from(parts@, k as int, inst as int + 1, (j as int) / (rl as int)));
                    assert((genes@ + genes_from(parts@, k as int, inst as int, j as int))
                        =~= (genes@.push(e) + genes_from(
                        parts@,
                        k as int,
                        inst as int + 1,
                        (j as int) / (rl as int),
                    )));
                }
                genes.push(e);
                j = j / rl;
                inst += 1;
            }
            proof {
                assert(genes_from(parts@, k as int, quantity as int, j as int) == genes_from(
                    parts@,
                    k as int + 1,
                    0,
                    j as int,
                ));
            }
            k += 1;
        }
        proof {
            assert(genes_from(parts@, parts@.len() as int, 0, j as int) == Seq::<
                Placement,
            >::empty());
            assert(genes@ =~= full);
        }
        PlacementSequence { placements: genes }
    }

    /// Crossover: cut both parents at one random point away from the ends;
    /// each child takes one parent's prefix and fills up with the other
    /// parent's remaining genes in their order. Both children keep the
    /// permutation invariant and the parents' length.
    pub fn mate(&self, male: &PlacementSequence, female: &PlacementSequence) -> (r: (
        PlacementSequence,
        PlacementSequence,
    ))
        requires
            self.wf(),
            valid_chromosome(male.placements@, self.parts@),
            valid_chromosome(female.placements@, self.parts@),
            male.placements@.len() == female.placements@.len(),
        ensures
            valid_chromosome(r.0.placements@, self.parts@),
            valid_chromosome(r.1.placements@, self.parts@),
            r.0.placements@.len() == male.placements@.len(),
            r.1.placements@.len() == male.placements@.len(),
            exists|cx: int|
                #![auto]
                male.placements@.len() / 10 <= cx <= male.placements@.len()
                    - male.placements@.len() / 10 && r.0.placements@ == crossover_spec(
                    male.placements@,
                    female.placements@,
                    cx,
                ) && r.1.placements@ == crossover_spec(female.placements@, male.placements@, cx),
    {
        let n = male.placements.len();
        let ignore = n / 10;
        proof {
            assert(2 * (n as int / 10) <= n as int) by (nonlinear_arith)
                requires n as int >= 0,
            ;
        }
        let span = n - 2 * ignore;
        let off = random_below(span as u64 + 1) as usize;
        let cross = ignore + off;
        let c1 = crossover_child(male, female, cross, Ghost(self.parts@));
        let c2 = crossover_child(female, male, cross, Ghost(self.parts@));
        proof {
            assert(c1.placements@ == crossover_spec(
                male.placements@,
                female.placements@,
                cross as int,
            ));
            assert(c2.placements@ == crossover_spec(
                female.placements@,
                male.placements@,
                cross as int,
            ));
        }
        (c1, c2)
    }

    /// Mutation: a left-to-right pass of adjacent swaps, each taken with
    /// probability one in ten, then an independent chance per gene to move
    /// to a different allowed rotation. The multiset of (part, instance)
    /// pairs — and so the permutation invariant and the length — is
    /// untouched.
    pub fn mutate(&self, individual: &PlacementSequence) -> (r: PlacementSequence)
        requires
            self.wf(),
            valid_chromosome(individual.placements@, self.parts@),
        ensures
            valid_chromosome(r.placements@, self.parts@),
            r.placements@.len() == individual.placements@.len(),
            mutation_image(individual.placements@, r.placements@, self.parts@),
    {
        let ghost orig = individual.placements@;
        let n = individual.placements.len();
        let mut genes: Vec<Placement> = individual.placements.clone();
        proof {
            assert(genes@ == individual.placements@);
        }
        let ghost mut steps: nat = 0;
        let mut i: usize = 0;
        while n > 0 && i < n - 1
            invariant
                n == genes@.len(),
                n == individual.placements@.len(),
                orig == individual.placements@,
                self.wf(),
                valid_chromosome(genes@, self.parts@),
                swapped_k(orig, genes@, steps),
            decreases n - i,
        {
            if random_below(10) == 0 {
                let ghost before = genes@;
                let a = genes[i];
                let b = genes[i + 1];
                genes.set(i, b);
                genes.set(i + 1, a);
                proof {
                    lemma_swap_valid(before, genes@, i as int, self.parts@);
                    assert(genes@ == before.update(i as int, before[i + 1]).update(
                        i + 1,
                        before[i as int],
                    ));
                    steps = steps + 1;
                    assert(swapped_k(orig, genes@, steps));
                }
            }
            i += 1;
        }
        let ghost mid = genes@;
        proof {
            assert(retagged(mid, genes@, self.parts@));
        }
        let mut w: usize = 0;
        while w < n
            invariant
                n == genes@.len(),
                n == individual.placements@.len(),
                orig == individual.placements@,
                self.wf(),
                valid_chromosome(genes@, self.parts@),
                swapped_k(orig, mid, steps),
                retagged(mid, genes@, self.parts@),
            decreases n - w,
        {
            if random_below(10) == 0 {
                let g = genes[w];
                let rl = self.parts[g.part_index].rotations.len();
                if rl >= 2 {
                    let idx = Self::rotation_index(&self.parts[g.part_index].rotations, g.angle);
                    let off = random_below(rl as u64 - 1) as usize;
                    let new_idx = if off < rl - idx {
                        idx + off
                    } else {
                        idx - (rl - off)
                    };
                    let new_angle = self.parts[g.part_index].rotations[new_idx];
                    let ghost before = genes@;
                    let e = Placement { part_index: g.part_index, nth_part: g.nth_part, angle: new_angle };
                    genes.set(w, e);
                    proof {
                        assert(self.parts@[g.part_index as int].rotations@.contains(new_angle));
                        lemma_retag_valid(before, genes@, w as int, self.parts@);
                        assert(retagged(mid, genes@, self.parts@));
                    }
                }
            }
            w += 1;
        }
        proof {
            assert(mutation_image(orig, genes@, self.parts@));
        }
        PlacementSequence { placements: genes }
    }

    /// The position of an angle inside a rotation list that contains it.
    fn rotation_index(rotations: &Vec<i32>, angle: i32) -> (r: usize)
        requires
            rotations@.contains(angle),
        ensures
            r < rotations@.len(),
            rotations@[r as int] == angle,
    {
        let mut j: usize = 0;
        while j < rotations.len()
            invariant
                j <= rotations@.len(),
                rotations@.contains(angle),
                forall|q: int| 0 <= q < j ==> rotations@[q] != angle,
            decreases rotations@.len() - j,
        {
            if rotations[j] == angle {
                return j;
            }
            j += 1;
        }
        proof {
            let k = choose|k: int| 0 <= k < rotations@.len() && rotations@[k] == angle;
            assert(false);
        }
        unreached()
    }
}

/// Stable-enough insertion sort of (fitness, index) pairs by ascending
/// fitness; the output is a permutation of the input.
fn sort_pairs(v: &Vec<(i64, usize)>) -> (r: Vec<(i64, usize)>)
    requires
        forall|p: int, q: int| 0 <= p < q < v@.len() ==> (#[trigger] v@[p]).1 != (#[trigger] v@[q]).1,
    ensures
        r@.len() == v@.len(),
        forall|p: int, q: int| 0 <= p < q < r@.len() ==> (#[trigger] r@[p]).0 <= (#[trigger] r@[q]).0,
        r@.to_multiset() == v@.to_multiset(),
        forall|p: int, q: int| 0 <= p < q < r@.len() ==> (#[trigger] r@[p]).1 != (#[trigger] r@[q]).1,
{
    broadcast use vstd::seq_lib::group_to_multiset_ensures;

    let n = v.len();
    let mut out: Vec<(i64, usize)> = Vec::new();
    let mut i: usize = 0;
    proof {
        assert(v@.take(0) =~= Seq::<(i64, usize)>::empty());
        assert(out@.to_multiset() =~= v@.take(0).to_multiset());
    }
    while i < n
        invariant
            i <= n,
            n == v@.len(),
            out@.len() == i,
            forall|p: int, q: int|
                0 <= p < q < v@.len() ==> (#[trigger] v@[p]).1 != (#[trigger] v@[q]).1,
            forall|p: int, q: int|
                0 <= p < q < out@.len() ==> (#[trigger] out@[p]).0 <= (#[trigger] out@[q]).0,
            forall|p: int, q: int|
                0 <= p < q < out@.len() ==> (#[trigger] out@[p]).1 != (#[trigger] out@[q]).1,
            out@.to_multiset() == v@.take(i as int).to_multiset(),
        decreases n - i,
    {
        broadcast use vstd::seq_lib::group_to_multiset_ensures;

        let x = v[i];
        let mut pos: usize = 0;
        while pos < out.len() && out[pos].0 <= x.0
            invariant
                pos <= out@.len(),
                forall|p: int| 0 <= p < pos ==> (#[trigger] out@[p]).0 <= x.0,
                forall|p: int, q: int|
                    0 <= p < q < out@.len() ==> (#[trigger] out@[p]).0 <= (#[trigger] out@[q]).0,
            decreases out@.len() - pos,
        {
            pos += 1;
        }
        let ghost before = out@;
        proof {
            // every element already placed comes from an earlier input
            // position, whose index tag differs from this one
            assert forall|p: int| 0 <= p < before.len() implies (#[trigger] before[p]).1
                != x.1 by {
                broadcast use vstd::seq_lib::group_to_multiset_ensures;

                assert(before.contains(before[p]));
                assert(before.to_multiset().count(before[p]) > 0);
                assert(v@.take(i as int).to_multiset().count(before[p]) > 0);
                assert(v@.take(i as int).contains(before[p]));
                let y = choose|y: int|
                    0 <= y < v@.take(i as int).len() && v@.take(i as int)[y] == before[p];
                assert(v@[y] == before[p]);
                assert(v@[y].1 != v@[i as int].1);
            }
        }
        out.insert(pos, x);
        proof {
            assert(out@ == before.insert(pos as int, x));
            assert(out@.to_multiset() =~= before.to_multiset().insert(x));
            assert forall|p: int, q: int| 0 <= p < q < out@.len() implies (#[trigger] out@[p]).1
                != (#[trigger] out@[q]).1 by {
                if q < pos {
                    assert(out@[p] == before[p] && out@[q] == before[q]);
                } else if p < pos && q == pos {
                    assert(out@[p] == before[p] && out@[q] == x);
                } else if p < pos && q > pos {
                    assert(out@[p] == before[p] && out@[q] == before[q - 1]);
                } else if p == pos {
                    assert(out@[p] == x && out@[q] == before[q - 1]);
                } else {
                    assert(out@[p] == before[p - 1] && out@[q] == before[q - 1]);
                }
            }
            assert(v@.take(i + 1) =~= v@.take(i as int).push(v@[i as int]));
            assert(v@.take(i + 1).to_multiset() =~= v@.take(i as int).to_multiset().insert(x));
            assert forall|p: int, q: int|
                0 <= p < q < out@.len() implies (#[trigger] out@[p]).0 <= (#[trigger] out@[q]).0 by {
                if q < pos {
                    assert(out@[p] == before[p] && out@[q] == before[q]);
                } else if p < pos && q == pos {
                    assert(out@[p] == before[p]);
                } else if p < pos && q > pos {
                    assert(out@[p] == before[p] && out@[q] == before[q - 1]);
                } else if p == pos {
                    assert(out@[q] == before[q - 1]);
                    assert(before[pos as int].0 > x.0 || pos as int == before.len());
                    assert(before[q - 1].0 >= before[pos as int].0 || q - 1 == pos);
                } else {
                    assert(out@[p] == before[p - 1] && out@[q] == before[q - 1]);
                }
            }
        }
        i += 1;
    }
    proof {
        assert(v@.take(n as int) =~= v@);
    }
    out
}

impl Population {
    /// Builds the next generation: repeatedly select two distinct parents by
    /// fitness-weighted choice over the ascending ordering, cross them over,
    /// mutate both children, and keep filling until the population size is
    /// reached again.
    fn next_population(&self, order: &Vec<(i64, usize)>) -> (r: Vec<PlacementSequence>)
        requires
            self.wf(),
            order@.len() == self.individuals@.len(),
            forall|q: int| 0 <= q < order@.len() ==> (#[trigger] order@[q]).1 < self.individuals@.len(),
            forall|p: int, q: int|
                0 <= p < q < order@.len() ==> (#[trigger] order@[p]).1 != (#[trigger] order@[q]).1,
        ensures
            r@.len() == self.individuals@.len(),
            forall|x: int|
                0 <= x < r@.len() ==> valid_chromosome(
                    (#[trigger] r@[x]).placements@,
                    self.parts@,
                ) && r@[x].placements@.len() == job_size(self.parts@),
            forall|x: int|
                0 <= x < r@.len() ==> bred_from(
                    #[trigger] r@[x],
                    self.individuals@,
                    self.parts@,
                ),
    {
        let n = self.individuals.len();
        let mut out: Vec<PlacementSequence> = Vec::new();
        while out.len() < n
            invariant
                self.wf(),
                n == self.individuals@.len(),
                order@.len() == n,
                forall|q: int| 0 <= q < order@.len() ==> (#[trigger] order@[q]).1 < n,
                out@.len() <= n,
                forall|p: int, q: int|
                    0 <= p < q < order@.len() ==> (#[trigger] order@[p]).1 != (
                    #[trigger] order@[q]).1,
                forall|x: int|
                    0 <= x < out@.len() ==> valid_chromosome(
                        (#[trigger] out@[x]).placements@,
                        self.parts@,
                    ) && out@[x].placements@.len() == job_size(self.parts@),
                forall|x: int|
                    0 <= x < out@.len() ==> bred_from(
                        #[trigger] out@[x],
                        self.individuals@,
                        self.parts@,
                    ),
            decreases n - out.len(),
        {
            let male_ix = select_index(n);
            let mut female_ix = select_index(n - 1);
            if female_ix == male_ix {
                female_ix += 1;
            }
            let ghost mi = order@[male_ix as int].1 as int;
            let ghost fi = order@[female_ix as int].1 as int;
            proof {
                if male_ix < female_ix {
                    assert(order@[male_ix as int].1 != order@[female_ix as int].1);
                } else {
                    assert(order@[female_ix as int].1 != order@[male_ix as int].1);
                }
                assert(mi != fi);
            }
            let male = &self.individuals[order[male_ix].1];
            let female = &self.individuals[order[female_ix].1];
            let (c1, c2) = self.mate(male, female);
            let ghost cx = choose|cx: int|
                #![auto]
                male.placements@.len() / 10 <= cx <= male.placements@.len()
                    - male.placements@.len() / 10 && c1.placements@ == crossover_spec(
                    male.placements@,
                    female.placements@,
                    cx,
                ) && c2.placements@ == crossover_spec(female.placements@, male.placements@, cx);
            let m1 = self.mutate(&c1);
            proof {
                assert(mutation_image(
                    crossover_spec(
                        self.individuals@[mi].placements@,
                        self.individuals@[fi].placements@,
                        cx,
                    ),
                    m1.placements@,
                    self.parts@,
                ));
                assert(bred_from(m1, self.individuals@, self.parts@));
            }
            out.push(m1);
            if out.len() < n {
                let m2 = self.mutate(&c2);
                proof {
                    assert(mutation_image(
                        crossover_spec(
                            self.individuals@[fi].placements@,
                            self.individuals@[mi].placements@,
                            cx,
                        ),
                        m2.placements@,
                        self.parts@,
                    ));
                    assert(bred_from(m2, self.individuals@, self.parts@));
                }
                out.push(m2);
            }
        }
        out
    }

    /// One generation step. Evaluates every chromosome in parallel, reports
    /// the fittest layout, tracks stagnation, and replaces the population.
    /// Once the stagnation counter reaches the no-progress limit the engine
    /// is exhausted: it returns `Ok(None)` now and on every later call,
    /// without touching its state. An evaluation failure aborts the
    /// generation with the evaluator's error.
    pub fn next(&mut self) -> (r: Result<Option<GenerationResult>, GeomError>)
        requires
            old(self).wf(),
        ensures
            final(self).wf(),
            final(self).parts@ == old(self).parts@,
            final(self).sheet == old(self).sheet,
            final(self).individuals@.len() == old(self).individuals@.len(),
            old(self).last_improvement >= NO_PROGRESS_LIMIT ==> r == Ok::<
                Option<GenerationResult>,
                GeomError,
            >(None) && *final(self) == *old(self),
            r is Err ==> *final(self) == *old(self) && exists|x: int|
                0 <= x < old(self).individuals@.len() && spec_pack(
                    (#[trigger] old(self).individuals@[x]).placements@,
                    old(self).parts@,
                    old(self).sheet,
                ) is Err,
            r is Ok && old(self).last_improvement < NO_PROGRESS_LIMIT ==> exists|f: int, x: int|
                #![trigger max_fitness(*old(self), f), old(self).individuals@[x]]
                {
                    &&& max_fitness(*old(self), f)
                    &&& 0 <= x < old(self).individuals@.len()
                    &&& eval_fitness(old(self).individuals@[x], old(self).parts@, old(self).sheet)
                        == f
                    &&& (f > old(self).last_fitness ==> final(self).last_fitness == f
                        && final(self).last_improvement == 0)
                    &&& (f <= old(self).last_fitness ==> final(self).last_fitness
                        == old(self).last_fitness && final(self).last_improvement
                        == old(self).last_improvement + 1)
                    &&& (r->Ok_0 matches Some(g) ==> report_matches(
                        g,
                        old(self).individuals@[x],
                        old(self).parts@,
                        old(self).sheet,
                    ))
                },
            r is Ok && old(self).last_improvement < NO_PROGRESS_LIMIT ==> ((r->Ok_0 is None)
                <==> final(self).last_improvement >= NO_PROGRESS_LIMIT),
            r is Ok && old(self).last_improvement < NO_PROGRESS_LIMIT && old(self).generation
                < usize::MAX ==> final(self).generation == old(self).generation + 1,
            r is Ok && old(self).last_improvement < NO_PROGRESS_LIMIT ==> forall|x: int|
                0 <= x < final(self).individuals@.len() ==> bred_from(
                    #[trigger] final(self).individuals@[x],
                    old(self).individuals@,
                    old(self).parts@,
                ),
            r matches Ok(Some(g)) ==> g.placements_and_location@.len() == job_size(
                old(self).parts@,
            ) && g.sheet_count >= 1,
    {
        if self.last_improvement >= NO_PROGRESS_LIMIT {
            return Ok(None);
        }
        let n = self.individuals.len();
        proof {
            assert forall|x: int, j: int|
                0 <= x < self.individuals@.len() && 0 <= j
                    < self.individuals@[x].placements@.len() implies (#[trigger] self.individuals@[
            x].placements@[j]).part_index < self.parts@.len() by {
                assert(valid_chromosome(self.individuals@[x].placements@, self.parts@));
                assert(gene_ok(self.individuals@[x].placements@[j], self.parts@));
            }
        }
        let evals = par_pack(&self.individuals, &self.parts, &self.sheet);
        let mut fits: Vec<(i64, usize)> = Vec::new();
        let mut x: usize = 0;
        while x < n
            invariant
                x <= n,
                *self == *old(self),
                old(self).last_improvement < NO_PROGRESS_LIMIT,
                n == self.individuals@.len(),
                evals@.len() == n,
                self.wf(),
                forall|y: int|
                    0 <= y < n ==> pack_post(
                        #[trigger] evals@[y],
                        self.individuals@[y].placements@,
                        self.parts@,
                        self.sheet,
                    ),
                fits@.len() == x,
                forall|y: int|
                    0 <= y < x ==> spec_pack(
                        (#[trigger] self.individuals@[y]).placements@,
                        self.parts@,
                        self.sheet,
                    ) is Ok,
                forall|y: int|
                    0 <= y < x ==> (#[trigger] fits@[y]) == (
                        evals@[y]->Ok_0.fitness,
                        y as usize,
                    ),
                forall|y: int|
                    0 <= y < x ==> (#[trigger] fits@[y]).0 == eval_fitness(
                        self.individuals@[y],
                        self.parts@,
                        self.sheet,
                    ) && fits@[y].1 == y,
            decreases n - x,
        {
            match &evals[x] {
                Err(e) => {
                    return Err(*e);
                },
                Ok(res) => {
                    fits.push((res.fitness, x));
                },
            }
            x += 1;
        }
        let order = sort_pairs(&fits);
        let ghost fmax = order@[order@.len() - 1].0 as int;
        proof {
            broadcast use vstd::seq_lib::group_to_multiset_ensures;

            assert forall|y: int|
                0 <= y < n implies eval_fitness(
                #[trigger] self.individuals@[y],
                self.parts@,
                self.sheet,
            ) <= fmax by {
                assert(fits@[y] == (fits@[y].0, fits@[y].1));
                assert(fits@.contains(fits@[y]));
                assert(fits@.to_multiset().count(fits@[y]) > 0);
                assert(order@.to_multiset().count(fits@[y]) > 0);
                assert(order@.contains(fits@[y]));
                let pos = choose|p: int| 0 <= p < order@.len() && order@[p] == fits@[y];
                assert(order@[pos].0 <= order@[order@.len() - 1].0);
            }
            let last = order@[order@.len() - 1];
            assert(order@.contains(last));
            assert(order@.to_multiset().count(last) > 0);
            assert(fits@.to_multiset().count(last) > 0);
            assert(fits@.contains(last));
            let w = choose|p: int| 0 <= p < fits@.len() && fits@[p] == last;
            assert(fits@[w].1 == w);
            assert(eval_fitness(self.individuals@[w], self.parts@, self.sheet) == fmax);
            assert(max_fitness(*self, fmax as int));
        }
        let fittest_ix = order[order.len() - 1].1;
        let fittest_fitness = order[order.len() - 1].0;
        proof {
            let last = order@[order@.len() - 1];
            assert(order@.contains(last));
            broadcast use vstd::seq_lib::group_to_multiset_ensures;

            assert(fits@.to_multiset().count(last) > 0);
            assert(fits@.contains(last));
            let w = choose|p: int| 0 <= p < fits@.len() && fits@[p] == last;
            assert(last.1 == w && 0 <= w < n);
            assert(eval_fitness(self.individuals@[fittest_ix as int], self.parts@, self.sheet)
                == fmax);
        }
        let report = self.build_report(&evals, fittest_ix);
        proof {
            assert(report_matches(
                report,
                old(self).individuals@[fittest_ix as int],
                old(self).parts@,
                old(self).sheet,
            ));
        }
        proof {
            broadcast use vstd::seq_lib::group_to_multiset_ensures;

            assert(max_fitness(*old(self), fmax));
            assert forall|q: int| 0 <= q < order@.len() implies (#[trigger] order@[q]).1 < n by {
                assert(order@.contains(order@[q]));
                assert(order@.to_multiset().count(order@[q]) > 0);
                assert(fits@.to_multiset().count(order@[q]) > 0);
                assert(fits@.contains(order@[q]));
                let y = choose|p2: int| 0 <= p2 < fits@.len() && fits@[p2] == order@[q];
                assert(fits@[y].1 == y);
            }
        }
        let newpop = self.next_population(&order);
        self.individuals = newpop;
        if self.generation < usize::MAX {
            self.generation = self.generation + 1;
        }
        if self.last_fitness < fittest_fitness {
            self.last_fitness = fittest_fitness;
            self.last_improvement = 0;
        } else {
            self.last_improvement = self.last_improvement + 1;
        }
        if self.last_improvement >= NO_PROGRESS_LIMIT {
            return Ok(None);
        }
        Ok(Some(report))
    }

    /// The generation report for the chosen fittest individual: its genes
    /// paired with their placed coordinates, the sheets consumed, and the
    /// waste measures of the layout.
    fn build_report(
        &self,
        evals: &Vec<Result<PackingResult, GeomError>>,
        fittest_ix: usize,
    ) -> (g: GenerationResult)
        requires
            self.wf(),
            evals@.len() == self.individuals@.len(),
            fittest_ix < evals@.len(),
            forall|y: int|
                0 <= y < evals@.len() ==> pack_post(
                    #[trigger] evals@[y],
                    self.individuals@[y].placements@,
                    self.parts@,
                    self.sheet,
                ),
            evals@[fittest_ix as int] is Ok,
        ensures
            g.placements_and_location@.len() == job_size(self.parts@),
            g.sheet_count >= 1,
            report_matches(g, self.individuals@[fittest_ix as int], self.parts@, self.sheet),
    {
        proof {
            assert(pack_post(
                evals@[fittest_ix as int],
                self.individuals@[fittest_ix as int].placements@,
                self.parts@,
                self.sheet,
            ));
            assert(self.individuals@[fittest_ix as int].placements@.len() == job_size(
                self.parts@,
            ));
        }
        let res = match &evals[fittest_ix] {
            Ok(res) => res,
            Err(_) => {
                unreached()
            },
        };
        let genes = &self.individuals[fittest_ix].placements;
        let ghost coords = crate::geometry::pview(res.placed_at@);
        let m = genes.len();
        let mut pal: Vec<(Placement, Point)> = Vec::new();
        let mut w: usize = 0;
        while w < m
            invariant
                w <= m,
                m == res.placed_at@.len(),
                m == genes@.len(),
                coords == crate::geometry::pview(res.placed_at@),
                pal@.len() == w,
                forall|w2: int|
                    0 <= w2 < w ==> (#[trigger] pal@[w2]).0 == genes@[w2] && (
                    pal@[w2].1.x as int,
                    pal@[w2].1.y as int,
                ) == coords[w2],
            decreases m - w,
        {
            proof {
                assert(coords[w as int] == (
                    res.placed_at@[w as int].x as int,
                    res.placed_at@[w as int].y as int,
                ));
            }
            pal.push((genes[w], res.placed_at[w]));
            w += 1;
        }
        proof {
            assert(1 <= res.sheet_count as int <= 0x200000);
            assert(0 < (res.sheet_count as int) * 2 <= 0x400000) by (nonlinear_arith)
                requires 1 <= res.sheet_count as int <= 0x200000,
            ;
            assert(0 < (res.sheet_count as int) * 2 * (self.sheet.length as int) <= 0x400000
                * 0x10000000) by (nonlinear_arith)
                requires
                    0 < (res.sheet_count as int) * 2 <= 0x400000,
                    0 < self.sheet.length as int <= 0x10000000,
            ;
            assert(0 < (res.sheet_count as int) * 2 * (self.sheet.length as int) * (
            self.sheet.width as int) <= 0x400000 * 0x10000000 * 0x10000000) by (nonlinear_arith)
                requires
                    0 < (res.sheet_count as int) * 2 * (self.sheet.length as int) <= 0x400000
                        * 0x10000000,
                    0 < self.sheet.width as int <= 0x10000000,
            ;
        }
        let consumed: i128 = (res.sheet_count as i128) * 2 * (self.sheet.length as i128) * (
        self.sheet.width as i128);
        let spare: i128 = if consumed >= res.placed_area2 {
            consumed - res.placed_area2
        } else {
            0
        };
        let leftover: i64 = if spare / 2 > 9223372036854775807i128 {
            9223372036854775807i64
        } else {
            (spare / 2) as i64
        };
        let fit_floor: i64 = if res.fitness < 0 {
            0
        } else {
            res.fitness
        };
        let loss_permille: i32 = if fit_floor >= 1000000 {
            0
        } else {
            (1000 - fit_floor / 1000) as i32
        };
        GenerationResult {
            sheet_count: res.sheet_count as i32,
            last_sheet_left_over: leftover,
            cut_loss_permille: loss_permille,
            placements_and_location: pal,
        }
    }
}

/// Swapping two adjacent genes preserves chromosome validity.
proof fn lemma_swap_valid(before: Seq<Placement>, after: Seq<Placement>, i: int, parts: Seq<NestPart>)
    requires
        valid_chromosome(before, parts),
        0 <= i,
        i + 1 < before.len(),
        after == before.update(i, before[i + 1]).update(i + 1, before[i]),
    ensures
        valid_chromosome(after, parts),
{
    let a = before[i];
    let b = before[i + 1];
    let hd = before.take(i);
    let tl = before.skip(i + 2);
    assert(before =~= hd + (seq![a, b] + tl));
    assert(after =~= hd + (seq![b, a] + tl));
    assert forall|k: int, ii: int|
        0 <= k < parts.len() && 0 <= ii < parts[k].quantity as int implies #[trigger] pair_count(
        after,
        k,
        ii,
    ) == 1nat by {
        lemma_count_concat(hd, seq![a, b] + tl, k, ii);
        lemma_count_concat(seq![a, b], tl, k, ii);
        lemma_count_concat(hd, seq![b, a] + tl, k, ii);
        lemma_count_concat(seq![b, a], tl, k, ii);
        assert(seq![a, b].drop_last() =~= seq![a]);
        assert(seq![b, a].drop_last() =~= seq![b]);
        assert(seq![a].drop_last() =~= Seq::<Placement>::empty());
        assert(seq![b].drop_last() =~= Seq::<Placement>::empty());
        reveal_with_fuel(pair_count, 4);
        assert(pair_count(seq![a, b], k, ii) == pair_count(seq![b, a], k, ii));
    }
    assert forall|j: int| 0 <= j < after.len() implies gene_ok(#[trigger] after[j], parts) by {
        if j == i {
            assert(after[j] == before[i + 1]);
        } else if j == i + 1 {
            assert(after[j] == before[i]);
        } else {
            assert(after[j] == before[j]);
        }
    }
}

/// Replacing one gene's rotation with another allowed one preserves
/// chromosome validity.
proof fn lemma_retag_valid(before: Seq<Placement>, after: Seq<Placement>, w: int, parts: Seq<NestPart>)
    requires
        valid_chromosome(before, parts),
        0 <= w < before.len(),
        after.len() == before.len(),
        after == before.update(w, after[w]),
        after[w].part_index == before[w].part_index,
        after[w].nth_part == before[w].nth_part,
        parts[after[w].part_index as int].rotations@.contains(after[w].angle),
    ensures
        valid_chromosome(after, parts),
{
    let hd = before.take(w);
    let tl = before.skip(w + 1);
    assert(before =~= hd + (seq![before[w]] + tl));
    assert(after =~= hd + (seq![after[w]] + tl));
    assert forall|k: int, ii: int|
        0 <= k < parts.len() && 0 <= ii < parts[k].quantity as int implies #[trigger] pair_count(
        after,
        k,
        ii,
    ) == 1nat by {
        lemma_count_concat(hd, seq![before[w]] + tl, k, ii);
        lemma_count_concat(seq![before[w]], tl, k, ii);
        lemma_count_concat(hd, seq![after[w]] + tl, k, ii);
        lemma_count_concat(seq![after[w]], tl, k, ii);
        assert(seq![before[w]].drop_last() =~= Seq::<Placement>::empty());
        assert(seq![after[w]].drop_last() =~= Seq::<Placement>::empty());
        reveal_with_fuel(pair_count, 4);
    }
    assert forall|j: int| 0 <= j < after.len() implies gene_ok(#[trigger] after[j], parts) by {
        if j != w {
            assert(after[j] == before[j]);
        }
    }
}

} // verus!
