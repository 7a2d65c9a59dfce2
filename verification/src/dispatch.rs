//! The routing pipeline: extraction, reserved-resource pre-filtering,
//! recursive spatial partitioning, one routing pass per region, and a
//! final serial pass over the accumulated special arcs.
//!
//! Region tasks are independent by the partitioner's guarantees, so a
//! host may run them in any order or in parallel; this dispatcher runs
//! them in sequence against one resource state, which the serial
//! special pass then finishes. The outcome preserves every extracted
//! arc: committed and failed counts always sum to the extracted total.

use vstd::prelude::*;
use crate::design::{Context, Nets, RouteArc};
use crate::extract::{extract_arcs_from_nets, extracted};
use crate::partition::{
    arcs_in_bbox, arcs_wf, from_arcs, lemma_from_arcs_concat, lemma_from_arcs_trans,
    lemma_tasks_multiset_concat, partition_recursive, prefilter_reserved_arcs, tasks_from,
    tasks_multiset,
};
use crate::geom::BBox;
use crate::router::{
    all_directly_connected, arc_terminal, committed_count, no_route_exists, pip_connects,
    valid_path, ArcOutcome, RouteStats, Router, RouterThread,
};

verus! {

broadcast use vstd::seq_lib::group_to_multiset_ensures, vstd::multiset::group_multiset_axioms;

/// ASCII bytes of the serial special-pass worker's name.
pub const MISC_M: u8 = 77;

pub const MISC_I: u8 = 73;

pub const MISC_S: u8 = 83;

pub const MISC_C: u8 = 67;

/// A list drawn from a fully connectable list is itself fully
/// connectable.
proof fn lemma_connected_through(ctx: Context, sub: Seq<RouteArc>, sup: Seq<RouteArc>)
    requires
        from_arcs(sub, sup),
        all_directly_connected(ctx, sup),
    ensures
        all_directly_connected(ctx, sub),
{
    assert forall|i: int|
        0 <= i < sub.len() implies (#[trigger] sub[i]).source_wire == sub[i].sink_wire
        || pip_connects(ctx, sub[i].source_wire, sub[i].sink_wire) by {
        let j = choose|j: int| 0 <= j < sup.len() && sup[j] == sub[i];
        assert(sup[j].source_wire == sup[j].sink_wire || pip_connects(
            ctx,
            sup[j].source_wire,
            sup[j].sink_wire,
        ));
    }
}

/// The structured result of one routing invocation. The run succeeds
/// only when every arc committed and every worker's negotiation
/// converged within its budget. Exhausting the rip-up budget is a
/// routing failure for the arcs still riding over-subscribed wires:
/// they are ripped up and counted among the failed arcs.
#[derive(Clone, Copy, Debug, PartialEq, Eq, Structural)]
pub struct RouteOutcome {
    pub success: bool,
    pub committed: usize,
    pub failed: usize,
    pub total_arcs: usize,
    pub converged: bool,
}

/// One worker's share of the outcome, under its hierarchical name: its
/// box, its arc list, the terminal outcome of each arc (with the
/// committed path, for the host to take up), and the tallies. The
/// serial special pass reports as one more region.
pub struct RegionReport {
    pub name: Vec<u8>,
    pub bbox: BBox,
    pub arcs: Vec<RouteArc>,
    pub outcomes: Vec<ArcOutcome>,
    pub stats: RouteStats,
}

/// A report accounts for its region exactly: one terminal outcome per
/// arc, a committed arc's path legal inside the region's box, an arc
/// failed precisely when no legal path exists for it there or it was
/// ripped up at budget exhaustion (`congested`), and tallies matching
/// the outcomes. A converged region failed no arc for congestion.
pub open spec fn report_consistent(ctx: Context, rep: RegionReport) -> bool {
    &&& rep.outcomes@.len() == rep.arcs@.len()
    &&& rep.stats.committed == committed_count(rep.outcomes@)
    &&& rep.stats.committed + rep.stats.failed == rep.arcs@.len()
    &&& forall|i: int|
        0 <= i < rep.outcomes@.len() ==> arc_terminal((#[trigger] rep.outcomes@[i]).state)
    &&& forall|i: int|
        0 <= i < rep.outcomes@.len() ==> ((#[trigger] rep.outcomes@[i]).state is Failed
            <==> no_route_exists(ctx, rep.arcs@[i], rep.bbox) || rep.outcomes@[i].congested)
    &&& forall|i: int|
        0 <= i < rep.outcomes@.len() && (#[trigger] rep.outcomes@[i]).congested
            ==> rep.outcomes@[i].state is Failed && !no_route_exists(ctx, rep.arcs@[i], rep.bbox)
    &&& (rep.stats.converged ==> forall|i: int|
        0 <= i < rep.outcomes@.len() ==> !(#[trigger] rep.outcomes@[i]).congested)
    &&& forall|i: int|
        0 <= i < rep.outcomes@.len() && (#[trigger] rep.outcomes@[i]).path is Some ==> valid_path(
            ctx,
            rep.outcomes@[i].path->0@,
            rep.arcs@[i].source_wire,
            rep.arcs@[i].sink_wire,
            rep.bbox,
        )
}

/// The shape of a run's report list: at least one region plus the
/// serial special pass; the special pass comes last and covers the
/// full grid; every region box lies on the grid, holds its own arcs,
/// and overlaps no other region's interior.
pub open spec fn region_reports_wf(rs: Seq<RegionReport>, ctx: Context) -> bool {
    &&& rs.len() >= 2
    &&& rs[rs.len() - 1].bbox == ctx.grid_box()
    &&& forall|t: int|
        0 <= t < rs.len() - 1 ==> ctx.grid_box().spec_contains((#[trigger] rs[t]).bbox.min)
            && ctx.grid_box().spec_contains(rs[t].bbox.max) && rs[t].bbox.wf() && arcs_in_bbox(
            rs[t].arcs@,
            rs[t].bbox,
        )
    &&& forall|t1: int, t2: int, c: crate::geom::Coord|
        0 <= t1 < rs.len() - 1 && 0 <= t2 < rs.len() - 1 && t1 != t2 ==> !((
        #[trigger] rs[t1].bbox.spec_contains_strict(c)) && (
        #[trigger] rs[t2].bbox.spec_contains_strict(c)))
}

/// Every region's negotiation converged.
pub open spec fn reports_all_converged(rs: Seq<RegionReport>) -> bool {
    forall|t: int| 0 <= t < rs.len() ==> (#[trigger] rs[t]).stats.converged
}

/// A copy of an arc list, for handing a region's arcs out beside its
/// outcomes.
fn copy_arcs(v: &Vec<RouteArc>) -> (r: Vec<RouteArc>)
    ensures
        r@ == v@,
{
    let mut r: Vec<RouteArc> = Vec::new();
    let mut i: usize = 0;
    while i < v.len()
        invariant
            0 <= i <= v@.len(),
            r@ == v@.take(i as int),
        decreases v@.len() - i,
    {
        r.push(v[i]);
        proof {
            assert(v@.take(i + 1).drop_last() =~= v@.take(i as int));
        }
        i += 1;
    }
    proof {
        assert(v@.take(v@.len() as int) =~= v@);
    }
    r
}

/// The combined arc contents of a list of region reports.
pub open spec fn reports_arcs_multiset(rs: Seq<RegionReport>) -> vstd::multiset::Multiset<
    RouteArc,
>
    decreases rs.len(),
{
    if rs.len() == 0 {
        vstd::multiset::Multiset::empty()
    } else {
        reports_arcs_multiset(rs.drop_last()).add(rs.last().arcs@.to_multiset())
    }
}

/// The committed arcs a list of region reports accounts for.
pub open spec fn reports_committed(rs: Seq<RegionReport>) -> int
    decreases rs.len(),
{
    if rs.len() == 0 {
        0
    } else {
        reports_committed(rs.drop_last()) + rs.last().stats.committed
    }
}

/// The failed arcs a list of region reports accounts for.
pub open spec fn reports_failed(rs: Seq<RegionReport>) -> int
    decreases rs.len(),
{
    if rs.len() == 0 {
        0
    } else {
        reports_failed(rs.drop_last()) + rs.last().stats.failed
    }
}

/// Route a whole design: every extracted arc is driven to a terminal
/// state, and the outcome accounts for each exactly once. The last
/// report is the serial special pass, run after every region over the
/// full grid box.
///
/// `depth` bounds the partition recursion, `min_arcs` stops it early on
/// small regions, and `budget` caps the rip-up iterations per worker.
/// The call reads the snapshot and mutates only its own routing state,
/// so it may be repeated against the same snapshot; the host-side
/// transfer of net ownership is the caller's one-time step.
pub fn route_design(
    ctx: &Context,
    nets: &Nets,
    pressure: u32,
    history_factor: u32,
    patterns: &Vec<Vec<u8>>,
    depth: u32,
    min_arcs: usize,
    budget: u32,
) -> (r: (RouteOutcome, Vec<RegionReport>))
    requires
        ctx.wf(),
        nets.wf(*ctx),
    ensures
        r.0.total_arcs == extracted(nets.nets@).len(),
        r.0.committed + r.0.failed == r.0.total_arcs,
        r.0.success <==> r.0.failed == 0 && r.0.converged,
        r.0.converged == reports_all_converged(r.1@),
        r.0.converged && all_directly_connected(*ctx, extracted(nets.nets@)) ==> r.0.failed == 0,
        reports_committed(r.1@) == r.0.committed,
        reports_failed(r.1@) == r.0.failed,
        reports_arcs_multiset(r.1@) == extracted(nets.nets@).to_multiset(),
        forall|t: int| 0 <= t < r.1@.len() ==> report_consistent(*ctx, #[trigger] r.1@[t]),
        region_reports_wf(r.1@, *ctx),
{
    let arcs = extract_arcs_from_nets(ctx, nets);
    let ghost all_view = arcs@;
    let ghost conn = all_directly_connected(*ctx, arcs@);
    let total_arcs = arcs.len();
    let (keep, reserved_special) = prefilter_reserved_arcs(ctx, &arcs, patterns);
    let n_keep = keep.len();
    let grid = ctx.grid_bbox();
    let ghost keep_view = keep@;
    proof {
        assert(crate::partition::arcs_in_bbox(keep@, grid));
    }
    let (tasks, mut boundary_special) = partition_recursive(
        ctx,
        patterns,
        keep,
        grid,
        depth,
        min_arcs,
        Vec::new(),
    );
    let ghost tasks_total = tasks_multiset(tasks@).len();
    proof {
        assert(tasks_multiset(tasks@).add(boundary_special@.to_multiset()).len()
            == keep_view.to_multiset().len());
        assert(keep_view.to_multiset().len() == keep_view.len());
        assert(boundary_special@.to_multiset().len() == boundary_special@.len());
        assert(tasks_total + boundary_special@.len() == n_keep);
        if conn {
            lemma_connected_through(*ctx, keep_view, all_view);
        }
    }
    let router = Router::new(pressure, history_factor);
    let mut state = router.init_state(ctx);
    let mut committed: usize = 0;
    let mut failed: usize = 0;
    let mut all_converged: bool = true;
    let mut reports: Vec<RegionReport> = Vec::new();
    let mut k: usize = 0;
    while k < tasks.len()
        invariant
            ctx.wf(),
            state.wf(*ctx),
            0 <= k <= tasks@.len(),
            crate::partition::tasks_wf(tasks@, *ctx, grid),
            committed + failed == tasks_multiset(tasks@.take(k as int)).len(),
            tasks_multiset(tasks@.take(k as int)).len() <= tasks_total,
            tasks_total == tasks_multiset(tasks@).len(),
            tasks_total <= n_keep,
            tasks_from(tasks@, keep_view),
            conn ==> all_directly_connected(*ctx, keep_view),
            conn && all_converged ==> failed == 0,
            reports@.len() == k,
            forall|t: int|
                0 <= t < k ==> (#[trigger] reports@[t]).bbox == tasks@[t].bbox
                    && reports@[t].arcs@ == tasks@[t].arcs@,
            reports_committed(reports@) == committed,
            reports_failed(reports@) == failed,
            reports_arcs_multiset(reports@) == tasks_multiset(tasks@.take(k as int)),
            all_converged == reports_all_converged(reports@),
            forall|t: int| 0 <= t < reports@.len() ==> report_consistent(*ctx, #[trigger] reports@[t]),
        decreases tasks@.len() - k,
    {
        proof {
            assert(tasks@.take(k + 1).drop_last() =~= tasks@.take(k as int));
            assert(tasks@.take(k + 1).last() == tasks@[k as int]);
            assert(tasks@ =~= tasks@.take(k + 1) + tasks@.skip(k + 1));
            lemma_tasks_multiset_concat(tasks@.take(k + 1), tasks@.skip(k + 1));
            assert(tasks@[k as int].arcs@.to_multiset().len() == tasks@[k as int].arcs@.len());
        }
        proof {
            if conn {
                lemma_connected_through(*ctx, tasks@[k as int].arcs@, keep_view);
            }
        }
        let task = &tasks[k];
        let mut thread = RouterThread::new(task.bbox, task.name.clone());
        let (outcomes, stats) = router.route(ctx, &mut state, &mut thread, &task.arcs, budget);
        proof {
            assert(tasks_multiset(tasks@.take(k + 1)) == tasks_multiset(
                tasks@.take(k as int),
            ).add(tasks@[k as int].arcs@.to_multiset()));
            assert(tasks_multiset(tasks@.take(k + 1)).len() == tasks_multiset(
                tasks@.take(k as int),
            ).len() + tasks@[k as int].arcs@.len());
            assert(tasks_multiset(tasks@).len() == tasks_multiset(tasks@.take(k + 1)).len()
                + tasks_multiset(tasks@.skip(k + 1)).len());
            assert(tasks_multiset(tasks@.take(k + 1)).len() <= tasks_total);
            assert(stats.committed + stats.failed == tasks@[k as int].arcs@.len());
        }
        committed = committed + stats.committed;
        failed = failed + stats.failed;
        all_converged = all_converged && stats.converged;
        let ghost reports_before = reports@;
        let report = RegionReport {
            name: task.name.clone(),
            bbox: task.bbox,
            arcs: copy_arcs(&task.arcs),
            outcomes,
            stats,
        };
        reports.push(report);
        proof {
            assert(reports@.drop_last() =~= reports_before);
            assert(report_consistent(*ctx, reports@[reports@.len() - 1]));
            assert(reports_arcs_multiset(reports@) =~= tasks_multiset(tasks@.take(k + 1)));
        }
        k += 1;
    }
    proof {
        assert(tasks@.take(tasks@.len() as int) =~= tasks@);
    }
    let mut special = reserved_special;
    let ghost reserved_view = special@;
    let ghost boundary_view = boundary_special@;
    special.append(&mut boundary_special);
    proof {
        assert(arcs_wf(special@, *ctx)) by {
            assert(forall|i: int|
                0 <= i < reserved_view.len() ==> (#[trigger] special@[i]) == reserved_view[i]);
        }
        assert(from_arcs(special@, all_view)) by {
            lemma_from_arcs_trans(boundary_view, keep_view, all_view);
            lemma_from_arcs_concat(reserved_view, boundary_view, all_view);
            assert(special@ =~= reserved_view + boundary_view);
        }
        if conn {
            lemma_connected_through(*ctx, special@, all_view);
        }
    }
    let mut misc_name: Vec<u8> = Vec::new();
    misc_name.push(MISC_M);
    misc_name.push(MISC_I);
    misc_name.push(MISC_S);
    misc_name.push(MISC_C);
    let mut misc_thread = RouterThread::new(grid, misc_name);
    let (misc_outcomes, misc_stats) = router.route(
        ctx,
        &mut state,
        &mut misc_thread,
        &special,
        budget,
    );
    let committed_all = committed + misc_stats.committed;
    let failed_all = failed + misc_stats.failed;
    let converged_all = all_converged && misc_stats.converged;
    let ghost reports_before = reports@;
    let misc_report_name = misc_thread.name;
    let ghost special_view = special@;
    let misc_report = RegionReport {
        name: misc_report_name,
        bbox: grid,
        arcs: special,
        outcomes: misc_outcomes,
        stats: misc_stats,
    };
    reports.push(misc_report);
    proof {
        assert(reports@.drop_last() =~= reports_before);
        assert(report_consistent(*ctx, reports@[reports@.len() - 1]));
        assert(reports_arcs_multiset(reports@) =~= extracted(nets.nets@).to_multiset()) by {
            vstd::seq_lib::lemma_multiset_commutative(reserved_view, boundary_view);
            assert(special_view =~= reserved_view + boundary_view);
            assert(reports_arcs_multiset(reports_before) == tasks_multiset(tasks@));
        }
        assert(region_reports_wf(reports@, *ctx)) by {
            assert(reports@.len() == tasks@.len() + 1);
            assert(reports@[reports@.len() - 1].bbox == ctx.grid_box());
            assert forall|t: int|
                0 <= t < reports@.len() - 1 implies ctx.grid_box().spec_contains(
                (#[trigger] reports@[t]).bbox.min,
            ) && ctx.grid_box().spec_contains(reports@[t].bbox.max) && reports@[t].bbox.wf()
                && arcs_in_bbox(reports@[t].arcs@, reports@[t].bbox) by {
                assert(reports@[t] == reports_before[t]);
                assert(reports@[t].bbox == tasks@[t].bbox && reports@[t].arcs@
                    == tasks@[t].arcs@);
                assert((#[trigger] tasks@[t]).bbox.wf() && grid.spec_contains(tasks@[t].bbox.min)
                    && grid.spec_contains(tasks@[t].bbox.max) && arcs_in_bbox(
                    tasks@[t].arcs@,
                    tasks@[t].bbox,
                ));
            }
            assert forall|t1: int, t2: int, c: crate::geom::Coord|
                0 <= t1 < reports@.len() - 1 && 0 <= t2 < reports@.len() - 1 && t1 != t2 implies !((
            #[trigger] reports@[t1].bbox.spec_contains_strict(c)) && (
            #[trigger] reports@[t2].bbox.spec_contains_strict(c))) by {
                if reports@[t1].bbox.spec_contains_strict(c)
                    && reports@[t2].bbox.spec_contains_strict(c) {
                    assert(reports@[t1] == reports_before[t1] && reports@[t2]
                        == reports_before[t2]);
                    assert(tasks@[t1].bbox.spec_contains_strict(c));
                    assert(tasks@[t2].bbox.spec_contains_strict(c));
                }
            }
        }
    }
    (
        RouteOutcome {
            success: failed_all == 0 && converged_all,
            committed: committed_all,
            failed: failed_all,
            total_arcs,
            converged: converged_all,
        },
        reports,
    )
}

} // verus!
