//! The spatial partitioner.
//!
//! One step splits a bounding box at an interior point into four quadrant
//! regions and classifies every arc: an arc whose source or sink wire name
//! matches a reserved pattern is special whatever its geometry; an arc
//! whose two endpoints lie strictly inside the same quadrant belongs to
//! that quadrant; every other arc straddles the split and is special.
//! The five output lists always hold the input arcs exactly once.
//!
//! The chosen split is validated against the resource geometry: the pips
//! claimed for each quadrant must lie inside that quadrant's box. An
//! inconsistent claim is a fatal invariant violation, surfaced as an
//! error, and the step is proved never to produce one.

use vstd::prelude::*;
use vstd::multiset::Multiset;
use crate::design::{Context, RouteArc};
use crate::geom::{lemma_quadrant_interiors_disjoint, lemma_strict_in_contained_box, ne_box, nw_box, se_box, split_in_box, sw_box, BBox, Coord};
use crate::pattern::{matches_any, matches_any_pattern, views_of};

verus! {

broadcast use vstd::seq_lib::group_to_multiset_ensures, vstd::multiset::group_multiset_axioms;

/// ASCII bytes of the quadrant tags in hierarchical worker names.
pub const NAME_SEP: u8 = 95;

pub const TAG_N: u8 = 78;

pub const TAG_E: u8 = 69;

pub const TAG_S: u8 = 83;

pub const TAG_W: u8 = 87;

/// The configured reserved-resource name patterns: carry-chain slice
/// outputs, slice join resources, memory-interface pads, and one
/// board-specific pad, written as ASCII byte strings.
pub open spec fn default_reserved_patterns() -> Seq<Seq<u8>> {
    seq![
        seq![70u8, 67, 79, 95, 83, 76, 73, 67, 69],
        seq![81u8, 54, 95, 83, 76, 73, 67, 69],
        seq![74u8],
        seq![68u8, 68, 82],
        seq![
            88u8,
            49,
            50,
            54,
            47,
            89,
            50,
            48,
            47,
            80,
            65,
            68,
            68,
            79,
            68,
            95,
            80,
            73,
            79,
        ],
    ]
}

/// The default reserved-pattern set as runtime values.
pub fn reserved_patterns() -> (r: Vec<Vec<u8>>)
    ensures
        views_of(r@) == default_reserved_patterns(),
{
    let mut r: Vec<Vec<u8>> = Vec::new();
    let p0: Vec<u8> = vec![70u8, 67, 79, 95, 83, 76, 73, 67, 69];
    let p1: Vec<u8> = vec![81u8, 54, 95, 83, 76, 73, 67, 69];
    let p2: Vec<u8> = vec![74u8];
    let p3: Vec<u8> = vec![68u8, 68, 82];
    let p4: Vec<u8> = vec![
        88u8,
        49,
        50,
        54,
        47,
        89,
        50,
        48,
        47,
        80,
        65,
        68,
        68,
        79,
        68,
        95,
        80,
        73,
        79,
    ];
    r.push(p0);
    r.push(p1);
    r.push(p2);
    r.push(p3);
    r.push(p4);
    proof {
        assert(views_of(r@) =~~= default_reserved_patterns());
    }
    r
}

/// Where one classification step places an arc.
#[derive(Clone, Copy, Debug, PartialEq, Eq, Structural)]
pub enum ArcSlot {
    Ne,
    Se,
    Sw,
    Nw,
    Special,
}

/// The quadrant a point lies strictly inside of, relative to a split
/// point; points on a split line belong to no quadrant.
pub open spec fn point_slot(c: Coord, x: u64, y: u64) -> ArcSlot {
    if c.x < x && c.y < y {
        ArcSlot::Ne
    } else if c.x > x && c.y < y {
        ArcSlot::Se
    } else if c.x > x && c.y > y {
        ArcSlot::Sw
    } else if c.x < x && c.y > y {
        ArcSlot::Nw
    } else {
        ArcSlot::Special
    }
}

/// An arc touches a reserved resource when the name of its source or
/// sink wire matches one of the configured patterns.
pub open spec fn arc_reserved(a: RouteArc, ctx: Context, pats: Seq<Seq<u8>>) -> bool {
    matches_any(ctx.wires@[a.source_wire as int].name@, pats) || matches_any(
        ctx.wires@[a.sink_wire as int].name@,
        pats,
    )
}

/// Full classification of one arc for a split at `(x, y)`.
pub open spec fn arc_slot(a: RouteArc, ctx: Context, pats: Seq<Seq<u8>>, x: u64, y: u64) -> ArcSlot {
    if arc_reserved(a, ctx, pats) {
        ArcSlot::Special
    } else {
        let s = point_slot(a.source_loc, x, y);
        let t = point_slot(a.sink_loc, x, y);
        if s == t {
            s
        } else {
            ArcSlot::Special
        }
    }
}

/// A reserved-pattern arc is special at every split point, so at every
/// recursion depth, independent of its geometric quadrant membership.
pub proof fn lemma_reserved_always_special(
    a: RouteArc,
    ctx: Context,
    pats: Seq<Seq<u8>>,
    x: u64,
    y: u64,
)
    requires
        arc_reserved(a, ctx, pats),
    ensures
        arc_slot(a, ctx, pats, x, y) == ArcSlot::Special,
{
}

/// The box of the quadrant an arc slot names.
pub open spec fn slot_box(slot: ArcSlot, b: BBox, x: u64, y: u64) -> BBox {
    match slot {
        ArcSlot::Ne => ne_box(b, x, y),
        ArcSlot::Se => se_box(b, x, y),
        ArcSlot::Sw => sw_box(b, x, y),
        ArcSlot::Nw => nw_box(b, x, y),
        ArcSlot::Special => b,
    }
}

/// A point classified into a quadrant lies in that quadrant's box
/// whenever it lies in the parent box at all.
pub proof fn lemma_point_slot_in_quadrant(b: BBox, x: u64, y: u64, c: Coord)
    requires
        b.wf(),
        split_in_box(b, x, y),
        b.spec_contains(c),
    ensures
        slot_box(point_slot(c, x, y), b, x, y).spec_contains(c),
{
}

/// Runtime classification of a point against a split.
fn point_slot_exec(c: Coord, x: u64, y: u64) -> (r: ArcSlot)
    ensures
        r == point_slot(c, x, y),
{
    if c.x < x && c.y < y {
        ArcSlot::Ne
    } else if c.x > x && c.y < y {
        ArcSlot::Se
    } else if c.x > x && c.y > y {
        ArcSlot::Sw
    } else if c.x < x && c.y > y {
        ArcSlot::Nw
    } else {
        ArcSlot::Special
    }
}

/// Runtime test for a reserved arc.
fn arc_reserved_exec(a: &RouteArc, ctx: &Context, pats: &Vec<Vec<u8>>) -> (r: bool)
    requires
        a.wf(*ctx),
    ensures
        r == arc_reserved(*a, *ctx, views_of(pats@)),
{
    matches_any_pattern(&ctx.wires[a.source_wire].name, pats) || matches_any_pattern(
        &ctx.wires[a.sink_wire].name,
        pats,
    )
}

/// Runtime classification of one arc.
pub fn classify_arc(a: &RouteArc, ctx: &Context, pats: &Vec<Vec<u8>>, x: u64, y: u64) -> (r:
    ArcSlot)
    requires
        a.wf(*ctx),
    ensures
        r == arc_slot(*a, *ctx, views_of(pats@), x, y),
{
    if arc_reserved_exec(a, ctx, pats) {
        ArcSlot::Special
    } else {
        let s = point_slot_exec(a.source_loc, x, y);
        let t = point_slot_exec(a.sink_loc, x, y);
        if s == t {
            s
        } else {
            ArcSlot::Special
        }
    }
}

/// The combined contents of the five classification buckets.
pub open spec fn buckets_multiset(
    ne: Seq<RouteArc>,
    se: Seq<RouteArc>,
    sw: Seq<RouteArc>,
    nw: Seq<RouteArc>,
    special: Seq<RouteArc>,
) -> Multiset<RouteArc> {
    ne.to_multiset().add(se.to_multiset()).add(sw.to_multiset()).add(nw.to_multiset()).add(
        special.to_multiset(),
    )
}

/// All arcs of a sequence keep their wire ids inside `ctx`.
pub open spec fn arcs_wf(arcs: Seq<RouteArc>, ctx: Context) -> bool {
    forall|i: int| 0 <= i < arcs.len() ==> (#[trigger] arcs[i]).wf(ctx)
}

/// Every element of `bucket` occurs in `all`.
pub open spec fn from_arcs(bucket: Seq<RouteArc>, all: Seq<RouteArc>) -> bool {
    forall|i: int| 0 <= i < bucket.len() ==> all.contains(#[trigger] bucket[i])
}

/// A list comes from itself.
pub proof fn lemma_from_arcs_refl(a: Seq<RouteArc>)
    ensures
        from_arcs(a, a),
{
    assert forall|i: int| 0 <= i < a.len() implies a.contains(#[trigger] a[i]) by {
        assert(a[i] == a[i]);
    }
}

/// Coming-from is transitive.
pub proof fn lemma_from_arcs_trans(a: Seq<RouteArc>, b: Seq<RouteArc>, c: Seq<RouteArc>)
    requires
        from_arcs(a, b),
        from_arcs(b, c),
    ensures
        from_arcs(a, c),
{
    assert forall|i: int| 0 <= i < a.len() implies c.contains(#[trigger] a[i]) by {
        let j = choose|j: int| 0 <= j < b.len() && b[j] == a[i];
        assert(c.contains(b[j]));
    }
}

/// Concatenation preserves coming-from.
pub proof fn lemma_from_arcs_concat(a: Seq<RouteArc>, b: Seq<RouteArc>, c: Seq<RouteArc>)
    requires
        from_arcs(a, c),
        from_arcs(b, c),
    ensures
        from_arcs(a + b, c),
{
    assert forall|i: int| 0 <= i < (a + b).len() implies c.contains(#[trigger] (a + b)[i]) by {
        if i < a.len() {
            assert((a + b)[i] == a[i]);
        } else {
            assert((a + b)[i] == b[i - a.len()]);
        }
    }
}

/// Every region task's arcs come from `all`.
pub open spec fn tasks_from(ts: Seq<RegionTask>, all: Seq<RouteArc>) -> bool {
    forall|t: int| 0 <= t < ts.len() ==> from_arcs((#[trigger] ts[t]).arcs@, all)
}

/// Classify every arc of `arcs` against the split at `(x, y)`.
///
/// The five returned lists hold the input arcs exactly once — no arc is
/// duplicated or dropped — and each list holds exactly the arcs whose
/// classification names it.
pub fn partition_arcs(
    ctx: &Context,
    arcs: &Vec<RouteArc>,
    pats: &Vec<Vec<u8>>,
    x: u64,
    y: u64,
) -> (r: (Vec<RouteArc>, Vec<RouteArc>, Vec<RouteArc>, Vec<RouteArc>, Vec<RouteArc>))
    requires
        arcs_wf(arcs@, *ctx),
    ensures
        buckets_multiset(r.0@, r.1@, r.2@, r.3@, r.4@) == arcs@.to_multiset(),
        forall|i: int|
            0 <= i < r.0@.len() ==> arc_slot(#[trigger] r.0@[i], *ctx, views_of(pats@), x, y)
                == ArcSlot::Ne,
        forall|i: int|
            0 <= i < r.1@.len() ==> arc_slot(#[trigger] r.1@[i], *ctx, views_of(pats@), x, y)
                == ArcSlot::Se,
        forall|i: int|
            0 <= i < r.2@.len() ==> arc_slot(#[trigger] r.2@[i], *ctx, views_of(pats@), x, y)
                == ArcSlot::Sw,
        forall|i: int|
            0 <= i < r.3@.len() ==> arc_slot(#[trigger] r.3@[i], *ctx, views_of(pats@), x, y)
                == ArcSlot::Nw,
        forall|i: int|
            0 <= i < r.4@.len() ==> arc_slot(#[trigger] r.4@[i], *ctx, views_of(pats@), x, y)
                == ArcSlot::Special,
        arcs_wf(r.0@, *ctx) && arcs_wf(r.1@, *ctx) && arcs_wf(r.2@, *ctx) && arcs_wf(r.3@, *ctx)
            && arcs_wf(r.4@, *ctx),
        from_arcs(r.0@, arcs@) && from_arcs(r.1@, arcs@) && from_arcs(r.2@, arcs@) && from_arcs(
            r.3@,
            arcs@,
        ) && from_arcs(r.4@, arcs@),
        r.0@.len() + r.1@.len() + r.2@.len() + r.3@.len() + r.4@.len() == arcs@.len(),
{
    let mut ne: Vec<RouteArc> = Vec::new();
    let mut se: Vec<RouteArc> = Vec::new();
    let mut sw: Vec<RouteArc> = Vec::new();
    let mut nw: Vec<RouteArc> = Vec::new();
    let mut special: Vec<RouteArc> = Vec::new();
    let mut i: usize = 0;
    while i < arcs.len()
        invariant
            arcs_wf(arcs@, *ctx),
            0 <= i <= arcs@.len(),
            buckets_multiset(ne@, se@, sw@, nw@, special@) == arcs@.take(i as int).to_multiset(),
            forall|t: int|
                0 <= t < ne@.len() ==> arc_slot(#[trigger] ne@[t], *ctx, views_of(pats@), x, y)
                    == ArcSlot::Ne,
            forall|t: int|
                0 <= t < se@.len() ==> arc_slot(#[trigger] se@[t], *ctx, views_of(pats@), x, y)
                    == ArcSlot::Se,
            forall|t: int|
                0 <= t < sw@.len() ==> arc_slot(#[trigger] sw@[t], *ctx, views_of(pats@), x, y)
                    == ArcSlot::Sw,
            forall|t: int|
                0 <= t < nw@.len() ==> arc_slot(#[trigger] nw@[t], *ctx, views_of(pats@), x, y)
                    == ArcSlot::Nw,
            forall|t: int|
                0 <= t < special@.len() ==> arc_slot(
                    #[trigger] special@[t],
                    *ctx,
                    views_of(pats@),
                    x,
                    y,
                ) == ArcSlot::Special,
            arcs_wf(ne@, *ctx) && arcs_wf(se@, *ctx) && arcs_wf(sw@, *ctx) && arcs_wf(nw@, *ctx)
                && arcs_wf(special@, *ctx),
            from_arcs(ne@, arcs@) && from_arcs(se@, arcs@) && from_arcs(sw@, arcs@) && from_arcs(
                nw@,
                arcs@,
            ) && from_arcs(special@, arcs@),
            ne@.len() + se@.len() + sw@.len() + nw@.len() + special@.len() == i,
        decreases arcs@.len() - i,
    {
        let a = arcs[i];
        proof {
            assert(arcs@.take(i + 1).drop_last() =~= arcs@.take(i as int));
            assert(arcs@.take(i + 1).last() == a);
            assert(arcs@.take(i + 1) =~= arcs@.take(i as int).push(a));
            assert(arcs@.contains(a)) by {
                assert(arcs@[i as int] == a);
            }
        }
        let slot = classify_arc(&a, ctx, pats, x, y);
        let ghost before = buckets_multiset(ne@, se@, sw@, nw@, special@);
        match slot {
            ArcSlot::Ne => ne.push(a),
            ArcSlot::Se => se.push(a),
            ArcSlot::Sw => sw.push(a),
            ArcSlot::Nw => nw.push(a),
            ArcSlot::Special => special.push(a),
        }
        proof {
            assert(buckets_multiset(ne@, se@, sw@, nw@, special@) =~= before.insert(a));
            assert(arcs@.take(i + 1).to_multiset() =~= arcs@.take(i as int).to_multiset().insert(
                a,
            ));
        }
        i += 1;
    }
    proof {
        assert(arcs@.take(arcs@.len() as int) =~= arcs@);
    }
    (ne, se, sw, nw, special)
}

/// The partitioner's fatal failure: the chosen split claimed resource
/// geometry outside the quadrant it assigned it to.
#[derive(Clone, Copy, Debug, PartialEq, Eq, Structural)]
pub enum PartitionError {
    SplitGeometryViolation,
}

/// Choose a split point inside the box. The policy is the geometric
/// center; balancing the arc count instead is an allowed variation of
/// the same contract.
pub fn find_partition_point(b: BBox) -> (r: (u64, u64))
    requires
        b.wf(),
        b.max.x - b.min.x >= 2,
        b.max.y - b.min.y >= 2,
    ensures
        split_in_box(b, r.0, r.1),
{
    let x = b.min.x + (b.max.x - b.min.x) / 2;
    let y = b.min.y + (b.max.y - b.min.y) / 2;
    (x, y)
}

/// The pip ids a quadrant claims: exactly the pips whose location lies
/// in the quadrant's box.
pub fn claim_pips_in_box(ctx: &Context, b: BBox) -> (r: Vec<usize>)
    ensures
        forall|t: int|
            0 <= t < r@.len() ==> #[trigger] r@[t] < ctx.pips@.len() && b.spec_contains(
                ctx.pips@[r@[t] as int].loc,
            ),
        forall|p: int|
            0 <= p < ctx.pips@.len() && b.spec_contains(#[trigger] ctx.pips@[p].loc)
                ==> r@.contains(p as usize),
{
    let mut r: Vec<usize> = Vec::new();
    let mut p: usize = 0;
    while p < ctx.pips.len()
        invariant
            0 <= p <= ctx.pips@.len(),
            forall|t: int|
                0 <= t < r@.len() ==> #[trigger] r@[t] < ctx.pips@.len() && b.spec_contains(
                    ctx.pips@[r@[t] as int].loc,
                ),
            forall|q: int|
                0 <= q < p && b.spec_contains(#[trigger] ctx.pips@[q].loc) ==> r@.contains(
                    q as usize,
                ),
        decreases ctx.pips@.len() - p,
    {
        let loc = ctx.pips[p].loc;
        if b.contains(loc) {
            let ghost old_r = r@;
            r.push(p);
            proof {
                assert(r@[r@.len() - 1] == p);
                assert forall|v: usize| old_r.contains(v) implies #[trigger] r@.contains(v) by {
                    let w = choose|w: int| 0 <= w < old_r.len() && old_r[w] == v;
                    assert(r@[w] == v);
                }
            }
        }
        p += 1;
    }
    r
}

/// The sanity check on one quadrant's geometry claim: every claimed pip
/// must lie inside the quadrant's box.
pub fn sanity_check_claim(ctx: &Context, claimed: &Vec<usize>, b: BBox) -> (r: bool)
    requires
        forall|t: int| 0 <= t < claimed@.len() ==> #[trigger] claimed@[t] < ctx.pips@.len(),
    ensures
        r == (forall|t: int|
            0 <= t < claimed@.len() ==> b.spec_contains(
                ctx.pips@[#[trigger] claimed@[t] as int].loc,
            )),
{
    let mut t: usize = 0;
    while t < claimed.len()
        invariant
            0 <= t <= claimed@.len(),
            forall|s: int| 0 <= s < claimed@.len() ==> #[trigger] claimed@[s] < ctx.pips@.len(),
            forall|s: int|
                0 <= s < t ==> b.spec_contains(ctx.pips@[#[trigger] claimed@[s] as int].loc),
        decreases claimed@.len() - t,
    {
        if !b.contains(ctx.pips[claimed[t]].loc) {
            return false;
        }
        t += 1;
    }
    true
}

/// One full partition step: the split point, the four quadrant arc
/// lists, the special list, and the geometry sanity check.
pub struct PartitionStep {
    pub x: u64,
    pub y: u64,
    pub ne: Vec<RouteArc>,
    pub se: Vec<RouteArc>,
    pub sw: Vec<RouteArc>,
    pub nw: Vec<RouteArc>,
    pub special: Vec<RouteArc>,
}

/// Choose a split point for `b`, classify every arc against it, and
/// validate the split against the pip geometry of the four quadrants.
///
/// A split whose geometry claim were inconsistent would be a fatal
/// invariant violation; the error variant reports it, and the
/// postcondition shows this step never produces one.
pub fn find_partition_point_and_sanity_check(
    ctx: &Context,
    arcs: &Vec<RouteArc>,
    pats: &Vec<Vec<u8>>,
    b: BBox,
) -> (r: Result<PartitionStep, PartitionError>)
    requires
        arcs_wf(arcs@, *ctx),
        b.wf(),
        b.max.x - b.min.x >= 2,
        b.max.y - b.min.y >= 2,
    ensures
        r is Ok,
        split_in_box(b, r->Ok_0.x, r->Ok_0.y),
        buckets_multiset(r->Ok_0.ne@, r->Ok_0.se@, r->Ok_0.sw@, r->Ok_0.nw@, r->Ok_0.special@)
            == arcs@.to_multiset(),
        forall|i: int|
            0 <= i < r->Ok_0.ne@.len() ==> arc_slot(
                #[trigger] r->Ok_0.ne@[i],
                *ctx,
                views_of(pats@),
                r->Ok_0.x,
                r->Ok_0.y,
            ) == ArcSlot::Ne,
        forall|i: int|
            0 <= i < r->Ok_0.se@.len() ==> arc_slot(
                #[trigger] r->Ok_0.se@[i],
                *ctx,
                views_of(pats@),
                r->Ok_0.x,
                r->Ok_0.y,
            ) == ArcSlot::Se,
        forall|i: int|
            0 <= i < r->Ok_0.sw@.len() ==> arc_slot(
                #[trigger] r->Ok_0.sw@[i],
                *ctx,
                views_of(pats@),
                r->Ok_0.x,
                r->Ok_0.y,
            ) == ArcSlot::Sw,
        forall|i: int|
            0 <= i < r->Ok_0.nw@.len() ==> arc_slot(
                #[trigger] r->Ok_0.nw@[i],
                *ctx,
                views_of(pats@),
                r->Ok_0.x,
                r->Ok_0.y,
            ) == ArcSlot::Nw,
        forall|i: int|
            0 <= i < r->Ok_0.special@.len() ==> arc_slot(
                #[trigger] r->Ok_0.special@[i],
                *ctx,
                views_of(pats@),
                r->Ok_0.x,
                r->Ok_0.y,
            ) == ArcSlot::Special,
        arcs_wf(r->Ok_0.ne@, *ctx) && arcs_wf(r->Ok_0.se@, *ctx) && arcs_wf(r->Ok_0.sw@, *ctx)
            && arcs_wf(r->Ok_0.nw@, *ctx) && arcs_wf(r->Ok_0.special@, *ctx),
        from_arcs(r->Ok_0.ne@, arcs@) && from_arcs(r->Ok_0.se@, arcs@) && from_arcs(
            r->Ok_0.sw@,
            arcs@,
        ) && from_arcs(r->Ok_0.nw@, arcs@) && from_arcs(r->Ok_0.special@, arcs@),
{
    let (x, y) = find_partition_point(b);
    let (ne, se, sw, nw, special) = partition_arcs(ctx, arcs, pats, x, y);
    let boxes: [BBox; 4] = [
        BBox { min: b.min, max: Coord { x, y } },
        BBox { min: Coord { x, y: b.min.y }, max: Coord { x: b.max.x, y } },
        BBox { min: Coord { x, y }, max: b.max },
        BBox { min: Coord { x: b.min.x, y }, max: Coord { x, y: b.max.y } },
    ];
    let mut q: usize = 0;
    while q < 4
        invariant
            0 <= q <= 4,
        decreases 4 - q,
    {
        let claimed = claim_pips_in_box(ctx, boxes[q]);
        if !sanity_check_claim(ctx, &claimed, boxes[q]) {
            return Err(PartitionError::SplitGeometryViolation);
        }
        q += 1;
    }
    Ok(PartitionStep { x, y, ne, se, sw, nw, special })
}

/// Pull every reserved-pattern arc out of the list before any geometric
/// partitioning: arcs on such resources are routed in the final serial
/// pass whatever their geometry. The two returned lists hold the input
/// arcs exactly once.
pub fn prefilter_reserved_arcs(
    ctx: &Context,
    arcs: &Vec<RouteArc>,
    pats: &Vec<Vec<u8>>,
) -> (r: (Vec<RouteArc>, Vec<RouteArc>))
    requires
        arcs_wf(arcs@, *ctx),
    ensures
        r.0@.to_multiset().add(r.1@.to_multiset()) == arcs@.to_multiset(),
        r.0@.len() + r.1@.len() == arcs@.len(),
        forall|i: int| 0 <= i < r.0@.len() ==> !arc_reserved(#[trigger] r.0@[i], *ctx, views_of(pats@)),
        forall|i: int| 0 <= i < r.1@.len() ==> arc_reserved(#[trigger] r.1@[i], *ctx, views_of(pats@)),
        arcs_wf(r.0@, *ctx) && arcs_wf(r.1@, *ctx),
        from_arcs(r.0@, arcs@) && from_arcs(r.1@, arcs@),
{
    let mut keep: Vec<RouteArc> = Vec::new();
    let mut special: Vec<RouteArc> = Vec::new();
    let mut i: usize = 0;
    while i < arcs.len()
        invariant
            arcs_wf(arcs@, *ctx),
            0 <= i <= arcs@.len(),
            keep@.to_multiset().add(special@.to_multiset()) == arcs@.take(i as int).to_multiset(),
            keep@.len() + special@.len() == i,
            forall|t: int|
                0 <= t < keep@.len() ==> !arc_reserved(#[trigger] keep@[t], *ctx, views_of(pats@)),
            forall|t: int|
                0 <= t < special@.len() ==> arc_reserved(
                    #[trigger] special@[t],
                    *ctx,
                    views_of(pats@),
                ),
            arcs_wf(keep@, *ctx) && arcs_wf(special@, *ctx),
            from_arcs(keep@, arcs@) && from_arcs(special@, arcs@),
        decreases arcs@.len() - i,
    {
        let a = arcs[i];
        proof {
            assert(arcs@.take(i + 1).drop_last() =~= arcs@.take(i as int));
            assert(arcs@.take(i + 1) =~= arcs@.take(i as int).push(a));
            assert(arcs@.contains(a)) by {
                assert(arcs@[i as int] == a);
            }
        }
        let ghost before = keep@.to_multiset().add(special@.to_multiset());
        if arc_reserved_exec(&a, ctx, pats) {
            special.push(a);
        } else {
            keep.push(a);
        }
        proof {
            assert(keep@.to_multiset().add(special@.to_multiset()) =~= before.insert(a));
            assert(arcs@.take(i + 1).to_multiset() =~= arcs@.take(i as int).to_multiset().insert(
                a,
            ));
        }
        i += 1;
    }
    proof {
        assert(arcs@.take(arcs@.len() as int) =~= arcs@);
    }
    (keep, special)
}

/// Both endpoints of every arc lie in the box (boundary included).
pub open spec fn arcs_in_bbox(arcs: Seq<RouteArc>, b: BBox) -> bool {
    forall|i: int|
        0 <= i < arcs.len() ==> b.spec_contains((#[trigger] arcs[i]).source_loc) && b.spec_contains(
            arcs[i].sink_loc,
        )
}

/// One region of the recursive partition: a bounding box, the arcs to
/// route inside it, and the hierarchical name path that identifies the
/// worker in diagnostics.
pub struct RegionTask {
    pub bbox: BBox,
    pub arcs: Vec<RouteArc>,
    pub name: Vec<u8>,
}

/// The combined arc contents of a sequence of region tasks.
pub open spec fn tasks_multiset(ts: Seq<RegionTask>) -> Multiset<RouteArc>
    decreases ts.len(),
{
    if ts.len() == 0 {
        Multiset::empty()
    } else {
        tasks_multiset(ts.drop_last()).add(ts.last().arcs@.to_multiset())
    }
}

/// `tasks_multiset` distributes over concatenation of task lists.
pub proof fn lemma_tasks_multiset_concat(a: Seq<RegionTask>, b: Seq<RegionTask>)
    ensures
        tasks_multiset(a + b) == tasks_multiset(a).add(tasks_multiset(b)),
    decreases b.len(),
{
    if b.len() == 0 {
        assert(a + b =~= a);
        assert(tasks_multiset(a + b) =~= tasks_multiset(a).add(tasks_multiset(b)));
    } else {
        lemma_tasks_multiset_concat(a, b.drop_last());
        assert((a + b).drop_last() =~= a + b.drop_last());
        assert((a + b).last() == b.last());
        assert(tasks_multiset(a + b) =~= tasks_multiset(a).add(tasks_multiset(b)));
    }
}

/// No point lies strictly inside two different region tasks' boxes, so
/// workers that mutate only resources strictly inside their own box
/// never touch the same resource.
pub open spec fn tasks_interiors_disjoint(ts: Seq<RegionTask>) -> bool {
    forall|t1: int, t2: int, c: Coord|
        0 <= t1 < ts.len() && 0 <= t2 < ts.len() && t1 != t2 ==> !((#[trigger] ts[t1].bbox.spec_contains_strict(c)) && (#[trigger] ts[t2].bbox.spec_contains_strict(c)))
}

/// Every task box of the list has both corners inside `outer`.
pub open spec fn tasks_boxes_in(ts: Seq<RegionTask>, outer: BBox) -> bool {
    forall|t: int|
        0 <= t < ts.len() ==> outer.spec_contains((#[trigger] ts[t]).bbox.min) && outer.spec_contains(
            ts[t].bbox.max,
        )
}

/// The recursion stops and keeps a region whole when the depth is spent,
/// the region is small enough, or its box cannot be split.
pub open spec fn partition_leaf_case(
    arcs: Seq<RouteArc>,
    b: BBox,
    depth: u32,
    min_arcs: usize,
) -> bool {
    depth == 0 || arcs.len() <= min_arcs || b.max.x - b.min.x < 2 || b.max.y - b.min.y < 2
}

/// A task's strict interior stays inside its group's quadrant box.
proof fn lemma_task_interior_in_quadrant(g: Seq<RegionTask>, qb: BBox, t: int, c: Coord)
    requires
        tasks_boxes_in(g, qb),
        0 <= t < g.len(),
        g[t].bbox.spec_contains_strict(c),
    ensures
        qb.spec_contains_strict(c),
{
    lemma_strict_in_contained_box(g[t].bbox, qb, c);
}

/// Every task's box is well formed and contained in `b`, its arcs stay
/// inside its box, and their wire ids stay inside `ctx`.
pub open spec fn tasks_wf(ts: Seq<RegionTask>, ctx: Context, b: BBox) -> bool {
    forall|t: int|
        0 <= t < ts.len() ==> (#[trigger] ts[t]).bbox.wf() && b.spec_contains(ts[t].bbox.min)
            && b.spec_contains(ts[t].bbox.max) && arcs_wf(ts[t].arcs@, ctx) && arcs_in_bbox(
            ts[t].arcs@,
            ts[t].bbox,
        )
}

/// Append a three-letter quadrant tag to a hierarchical name path.
fn child_name(name: &Vec<u8>, a: u8, b: u8) -> (r: Vec<u8>)
{
    let mut r = name.clone();
    r.push(NAME_SEP);
    r.push(a);
    r.push(b);
    r
}

/// Recursively partition `arcs` inside `b` down to `depth` levels.
///
/// Recursion stops early on a region with at most `min_arcs` arcs or a
/// box too small to split; such a region becomes a leaf task. The leaf
/// tasks and the special list together hold the input arcs exactly once,
/// and every leaf's arcs lie inside that leaf's box.
pub fn partition_recursive(
    ctx: &Context,
    pats: &Vec<Vec<u8>>,
    arcs: Vec<RouteArc>,
    b: BBox,
    depth: u32,
    min_arcs: usize,
    name: Vec<u8>,
) -> (r: (Vec<RegionTask>, Vec<RouteArc>))
    requires
        arcs_wf(arcs@, *ctx),
        arcs_in_bbox(arcs@, b),
        b.wf(),
    ensures
        tasks_multiset(r.0@).add(r.1@.to_multiset()) == arcs@.to_multiset(),
        tasks_wf(r.0@, *ctx, b),
        arcs_wf(r.1@, *ctx),
        tasks_from(r.0@, arcs@),
        from_arcs(r.1@, arcs@),
        r.0@.len() >= 1,
        partition_leaf_case(arcs@, b, depth, min_arcs) ==> r.0@.len() == 1 && r.0@[0].bbox == b
            && r.0@[0].arcs@ == arcs@ && r.0@[0].name@ == name@ && r.1@.len() == 0,
        !partition_leaf_case(arcs@, b, depth, min_arcs) ==> r.0@.len() >= 4,
        tasks_interiors_disjoint(r.0@),
    decreases depth,
{
    if depth == 0 || arcs.len() <= min_arcs || b.max.x - b.min.x < 2 || b.max.y - b.min.y < 2 {
        let task = RegionTask { bbox: b, arcs, name };
        let tasks = vec![task];
        let none_special: Vec<RouteArc> = Vec::new();
        proof {
            assert(tasks@.drop_last() =~= Seq::<RegionTask>::empty());
            assert(none_special@.to_multiset() =~= Multiset::<RouteArc>::empty()) by {
                assert forall|a: RouteArc| none_special@.to_multiset().count(a) == 0 by {
                    assert(!none_special@.contains(a));
                }
            }
            assert(tasks_multiset(Seq::<RegionTask>::empty()) == Multiset::<RouteArc>::empty());
            assert(tasks@.len() == 1 && tasks@.last() == task);
            assert(tasks_multiset(tasks@) == tasks_multiset(Seq::<RegionTask>::empty()).add(
                task.arcs@.to_multiset(),
            ));
            assert(tasks_multiset(tasks@).add(none_special@.to_multiset())
                =~= tasks@[0].arcs@.to_multiset());
            lemma_from_arcs_refl(tasks@[0].arcs@);
            assert(tasks_interiors_disjoint(tasks@));
        }
        return (tasks, none_special);
    }
    let step = match find_partition_point_and_sanity_check(ctx, &arcs, pats, b) {
        Ok(step) => step,
        Err(_) => {
            proof {
                assert(false);
            }
            return (Vec::new(), arcs);
        },
    };
    let x = step.x;
    let y = step.y;
    proof {
        lemma_step_arcs_in_quadrants(*ctx, views_of(pats@), step.ne@, arcs@, b, x, y, ArcSlot::Ne);
        lemma_step_arcs_in_quadrants(*ctx, views_of(pats@), step.se@, arcs@, b, x, y, ArcSlot::Se);
        lemma_step_arcs_in_quadrants(*ctx, views_of(pats@), step.sw@, arcs@, b, x, y, ArcSlot::Sw);
        lemma_step_arcs_in_quadrants(*ctx, views_of(pats@), step.nw@, arcs@, b, x, y, ArcSlot::Nw);
    }
    let ghost input_ms = arcs@.to_multiset();
    let ghost step_special = step.special@;
    let ghost b_ne = step.ne@;
    let ghost b_se = step.se@;
    let ghost b_sw = step.sw@;
    let ghost b_nw = step.nw@;
    let (mut tasks, mut special) = partition_recursive(
        ctx,
        pats,
        step.ne,
        BBox { min: b.min, max: Coord { x, y } },
        depth - 1,
        min_arcs,
        child_name(&name, TAG_N, TAG_E),
    );
    let (mut t2, mut s2) = partition_recursive(
        ctx,
        pats,
        step.se,
        BBox { min: Coord { x, y: b.min.y }, max: Coord { x: b.max.x, y } },
        depth - 1,
        min_arcs,
        child_name(&name, TAG_S, TAG_E),
    );
    let (mut t3, mut s3) = partition_recursive(
        ctx,
        pats,
        step.sw,
        BBox { min: Coord { x, y }, max: b.max },
        depth - 1,
        min_arcs,
        child_name(&name, TAG_S, TAG_W),
    );
    let (mut t4, mut s4) = partition_recursive(
        ctx,
        pats,
        step.nw,
        BBox { min: Coord { x: b.min.x, y }, max: Coord { x, y: b.max.y } },
        depth - 1,
        min_arcs,
        child_name(&name, TAG_N, TAG_W),
    );
    let ghost g_t1 = tasks@;
    let ghost g_t2 = t2@;
    let ghost g_t3 = t3@;
    let ghost g_t4 = t4@;
    let ghost g_s1 = special@;
    let ghost g_s2 = s2@;
    let ghost g_s3 = s3@;
    let ghost g_s4 = s4@;
    tasks.append(&mut t2);
    tasks.append(&mut t3);
    tasks.append(&mut t4);
    special.append(&mut s2);
    special.append(&mut s3);
    special.append(&mut s4);
    let mut misc = step.special;
    special.append(&mut misc);
    proof {
        lemma_tasks_multiset_concat(g_t1, g_t2);
        lemma_tasks_multiset_concat(g_t1 + g_t2, g_t3);
        lemma_tasks_multiset_concat(g_t1 + g_t2 + g_t3, g_t4);
        vstd::seq_lib::lemma_multiset_commutative(g_s1, g_s2);
        vstd::seq_lib::lemma_multiset_commutative(g_s1 + g_s2, g_s3);
        vstd::seq_lib::lemma_multiset_commutative(g_s1 + g_s2 + g_s3, g_s4);
        vstd::seq_lib::lemma_multiset_commutative(g_s1 + g_s2 + g_s3 + g_s4, step_special);
        assert(tasks_multiset(tasks@).add(special@.to_multiset()) =~= input_ms);
        assert forall|t: int| 0 <= t < tasks@.len() implies (#[trigger] tasks@[t]).bbox.wf()
            && b.spec_contains(tasks@[t].bbox.min) && b.spec_contains(tasks@[t].bbox.max)
            && arcs_wf(tasks@[t].arcs@, *ctx) && arcs_in_bbox(tasks@[t].arcs@, tasks@[t].bbox)
            && from_arcs(tasks@[t].arcs@, arcs@) by {
            if t < g_t1.len() {
                assert(tasks@[t] == g_t1[t]);
                lemma_from_arcs_trans(g_t1[t].arcs@, b_ne, arcs@);
            } else if t < g_t1.len() + g_t2.len() {
                assert(tasks@[t] == g_t2[t - g_t1.len()]);
                lemma_from_arcs_trans(g_t2[t - g_t1.len()].arcs@, b_se, arcs@);
            } else if t < g_t1.len() + g_t2.len() + g_t3.len() {
                assert(tasks@[t] == g_t3[t - g_t1.len() - g_t2.len()]);
                lemma_from_arcs_trans(g_t3[t - g_t1.len() - g_t2.len()].arcs@, b_sw, arcs@);
            } else {
                assert(tasks@[t] == g_t4[t - g_t1.len() - g_t2.len() - g_t3.len()]);
                lemma_from_arcs_trans(
                    g_t4[t - g_t1.len() - g_t2.len() - g_t3.len()].arcs@,
                    b_nw,
                    arcs@,
                );
            }
        }
        assert(from_arcs(special@, arcs@)) by {
            lemma_from_arcs_trans(g_s1, b_ne, arcs@);
            lemma_from_arcs_trans(g_s2, b_se, arcs@);
            lemma_from_arcs_trans(g_s3, b_sw, arcs@);
            lemma_from_arcs_trans(g_s4, b_nw, arcs@);
            lemma_from_arcs_concat(g_s1, g_s2, arcs@);
            lemma_from_arcs_concat(g_s1 + g_s2, g_s3, arcs@);
            lemma_from_arcs_concat(g_s1 + g_s2 + g_s3, g_s4, arcs@);
            lemma_from_arcs_concat(g_s1 + g_s2 + g_s3 + g_s4, step_special, arcs@);
            assert(special@ =~= g_s1 + g_s2 + g_s3 + g_s4 + step_special);
        }
        let qb1 = BBox { min: b.min, max: Coord { x, y } };
        let qb2 = BBox { min: Coord { x, y: b.min.y }, max: Coord { x: b.max.x, y } };
        let qb3 = BBox { min: Coord { x, y }, max: b.max };
        let qb4 = BBox { min: Coord { x: b.min.x, y }, max: Coord { x, y: b.max.y } };
        assert(qb1 == ne_box(b, x, y) && qb2 == se_box(b, x, y) && qb3 == sw_box(b, x, y) && qb4
            == nw_box(b, x, y));
        assert(tasks_boxes_in(g_t1, qb1) && tasks_boxes_in(g_t2, qb2) && tasks_boxes_in(g_t3, qb3)
            && tasks_boxes_in(g_t4, qb4));
        let n1 = g_t1.len() as int;
        let n2 = g_t2.len() as int;
        let n3 = g_t3.len() as int;
        assert forall|t1: int, t2: int, c: Coord|
            0 <= t1 < tasks@.len() && 0 <= t2 < tasks@.len() && t1 != t2 implies !((
        tasks@[t1]).bbox.spec_contains_strict(c) && (tasks@[t2]).bbox.spec_contains_strict(
            c,
        )) by {
            if tasks@[t1].bbox.spec_contains_strict(c) && tasks@[t2].bbox.spec_contains_strict(c) {
                lemma_quadrant_interiors_disjoint(b, x, y, c);
                if t1 < n1 {
                    assert(tasks@[t1] == g_t1[t1]);
                    lemma_task_interior_in_quadrant(g_t1, qb1, t1, c);
                } else if t1 < n1 + n2 {
                    assert(tasks@[t1] == g_t2[t1 - n1]);
                    lemma_task_interior_in_quadrant(g_t2, qb2, t1 - n1, c);
                } else if t1 < n1 + n2 + n3 {
                    assert(tasks@[t1] == g_t3[t1 - n1 - n2]);
                    lemma_task_interior_in_quadrant(g_t3, qb3, t1 - n1 - n2, c);
                } else {
                    assert(tasks@[t1] == g_t4[t1 - n1 - n2 - n3]);
                    lemma_task_interior_in_quadrant(g_t4, qb4, t1 - n1 - n2 - n3, c);
                }
                if t2 < n1 {
                    assert(tasks@[t2] == g_t1[t2]);
                    lemma_task_interior_in_quadrant(g_t1, qb1, t2, c);
                } else if t2 < n1 + n2 {
                    assert(tasks@[t2] == g_t2[t2 - n1]);
                    lemma_task_interior_in_quadrant(g_t2, qb2, t2 - n1, c);
                } else if t2 < n1 + n2 + n3 {
                    assert(tasks@[t2] == g_t3[t2 - n1 - n2]);
                    lemma_task_interior_in_quadrant(g_t3, qb3, t2 - n1 - n2, c);
                } else {
                    assert(tasks@[t2] == g_t4[t2 - n1 - n2 - n3]);
                    lemma_task_interior_in_quadrant(g_t4, qb4, t2 - n1 - n2 - n3, c);
                }
                assert(false);
            }
        }
    }
    (tasks, special)
}

/// Arcs classified into a quadrant lie inside that quadrant's box
/// whenever they lie in the parent box.
proof fn lemma_step_arcs_in_quadrants(
    ctx: Context,
    pats: Seq<Seq<u8>>,
    bucket: Seq<RouteArc>,
    all: Seq<RouteArc>,
    b: BBox,
    x: u64,
    y: u64,
    slot: ArcSlot,
)
    requires
        b.wf(),
        split_in_box(b, x, y),
        slot != ArcSlot::Special,
        arcs_in_bbox(all, b),
        from_arcs(bucket, all),
        forall|i: int| 0 <= i < bucket.len() ==> arc_slot(#[trigger] bucket[i], ctx, pats, x, y) == slot,
    ensures
        arcs_in_bbox(bucket, slot_box(slot, b, x, y)),
        slot_box(slot, b, x, y).wf(),
        b.spec_contains(slot_box(slot, b, x, y).min),
        b.spec_contains(slot_box(slot, b, x, y).max),
{
    assert forall|i: int| 0 <= i < bucket.len() implies slot_box(slot, b, x, y).spec_contains(
        (#[trigger] bucket[i]).source_loc,
    ) && slot_box(slot, b, x, y).spec_contains(bucket[i].sink_loc) by {
        let j = choose|j: int| 0 <= j < all.len() && all[j] == bucket[i];
        assert(b.spec_contains(bucket[i].source_loc) && b.spec_contains(bucket[i].sink_loc));
        assert(point_slot(bucket[i].source_loc, x, y) == slot);
        assert(point_slot(bucket[i].sink_loc, x, y) == slot);
        lemma_point_slot_in_quadrant(b, x, y, bucket[i].source_loc);
        lemma_point_slot_in_quadrant(b, x, y, bucket[i].sink_loc);
    }
}

} // verus!
