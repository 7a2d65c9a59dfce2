use awooter::design::{Context, Driver, Net, Nets, Pip, RouteArc, SinkPin, Wire};
use awooter::dispatch::route_design;
use awooter::geom::{BBox, Coord};
use awooter::partition::{
    classify_arc, find_partition_point, find_partition_point_and_sanity_check,
    partition_recursive, prefilter_reserved_arcs, ArcSlot,
};
use awooter::router::{ArcState, Router, RouterThread, WorkerPhase};

fn wire(name: &str, x: u64, y: u64, base_delay: u64, capacity: u64) -> Wire {
    Wire { name: name.as_bytes().to_vec(), loc: Coord { x, y }, base_delay, capacity }
}

fn pip(from: usize, to: usize, x: u64, y: u64) -> Pip {
    Pip { from, to, loc: Coord { x, y } }
}

/// A 4x4 grid with two non-global nets, one in the quadrant holding the
/// minimum corner and one in the quadrant holding the maximum corner.
/// Net 0 has two sink pins with one candidate wire each; net 1 has one
/// sink pin with two candidate wires.
fn synthetic_design() -> (Context, Nets) {
    // Each source wire drives two arcs, so it carries capacity 2.
    let wires = vec![
        wire("NE_SRC", 1, 1, 1, 2),
        wire("NE_SNK_A", 1, 1, 1, 1),
        wire("NE_SNK_B", 1, 1, 1, 1),
        wire("SW_SRC", 3, 3, 1, 2),
        wire("SW_SNK_A", 3, 3, 1, 1),
        wire("SW_SNK_B", 3, 3, 1, 1),
    ];
    let pips = vec![
        pip(0, 1, 1, 1),
        pip(0, 2, 1, 1),
        pip(3, 4, 3, 3),
        pip(3, 5, 3, 3),
    ];
    let ctx = Context { width: 4, height: 4, wires, pips };
    let net0 = Net {
        name: b"net_ne".to_vec(),
        is_global: false,
        driver: Some(Driver { loc: Coord { x: 1, y: 1 }, source_wire: 0 }),
        users: vec![
            SinkPin { loc: Coord { x: 1, y: 1 }, wires: vec![1] },
            SinkPin { loc: Coord { x: 1, y: 1 }, wires: vec![2] },
        ],
    };
    let net1 = Net {
        name: b"net_sw".to_vec(),
        is_global: false,
        driver: Some(Driver { loc: Coord { x: 3, y: 3 }, source_wire: 3 }),
        users: vec![SinkPin { loc: Coord { x: 3, y: 3 }, wires: vec![4, 5] }],
    };
    (ctx, Nets { nets: vec![net0, net1] })
}

#[test]
fn extraction_counts_sink_pin_candidates() {
    let (ctx, nets) = synthetic_design();
    let arcs = awooter::extract::extract_arcs_from_nets(&ctx, &nets);
    assert_eq!(arcs.len(), 4);
    assert_eq!(arcs[0].source_wire, 0);
    assert_eq!(arcs[0].sink_wire, 1);
    assert_eq!(arcs[1].sink_wire, 2);
    assert_eq!(arcs[2].source_wire, 3);
    assert_eq!(arcs[2].sink_wire, 4);
    assert_eq!(arcs[3].sink_wire, 5);
    assert!(arcs.iter().all(|a| a.net < 2));
}

#[test]
fn extraction_is_idempotent() {
    let (ctx, nets) = synthetic_design();
    let first = awooter::extract::extract_arcs_from_nets(&ctx, &nets);
    let second = awooter::extract::extract_arcs_from_nets(&ctx, &nets);
    assert_eq!(first, second);
}

#[test]
fn global_net_contributes_no_arcs() {
    let (ctx, mut nets) = synthetic_design();
    nets.nets[0].is_global = true;
    nets.nets[1].is_global = true;
    let arcs = awooter::extract::extract_arcs_from_nets(&ctx, &nets);
    assert_eq!(arcs.len(), 0);
}

#[test]
fn driverless_net_contributes_no_arcs() {
    let (ctx, mut nets) = synthetic_design();
    nets.nets[0].driver = None;
    let arcs = awooter::extract::extract_arcs_from_nets(&ctx, &nets);
    assert_eq!(arcs.len(), 2);
    assert!(arcs.iter().all(|a| a.net == 1));
}

#[test]
fn partition_coverage_no_arc_lost_or_duplicated() {
    let (ctx, nets) = synthetic_design();
    let arcs = awooter::extract::extract_arcs_from_nets(&ctx, &nets);
    let pats: Vec<Vec<u8>> = Vec::new();
    let grid = BBox { min: Coord { x: 0, y: 0 }, max: Coord { x: 4, y: 4 } };
    let step = find_partition_point_and_sanity_check(&ctx, &arcs, &pats, grid).unwrap();
    let total = step.ne.len() + step.se.len() + step.sw.len() + step.nw.len() + step.special.len();
    assert_eq!(total, arcs.len());
    let mut recombined: Vec<RouteArc> = Vec::new();
    recombined.extend_from_slice(&step.ne);
    recombined.extend_from_slice(&step.se);
    recombined.extend_from_slice(&step.sw);
    recombined.extend_from_slice(&step.nw);
    recombined.extend_from_slice(&step.special);
    for a in &arcs {
        let in_input = arcs.iter().filter(|b| **b == *a).count();
        let in_output = recombined.iter().filter(|b| **b == *a).count();
        assert_eq!(in_input, in_output);
    }
}

#[test]
fn partition_separates_quadrants_with_empty_special() {
    let (ctx, nets) = synthetic_design();
    let arcs = awooter::extract::extract_arcs_from_nets(&ctx, &nets);
    let pats: Vec<Vec<u8>> = Vec::new();
    let grid = BBox { min: Coord { x: 0, y: 0 }, max: Coord { x: 4, y: 4 } };
    let step = find_partition_point_and_sanity_check(&ctx, &arcs, &pats, grid).unwrap();
    assert_eq!((step.x, step.y), (2, 2));
    assert_eq!(step.ne.len(), 2);
    assert_eq!(step.sw.len(), 2);
    assert_eq!(step.se.len(), 0);
    assert_eq!(step.nw.len(), 0);
    assert_eq!(step.special.len(), 0);
}

#[test]
fn straddling_arc_is_special() {
    let (ctx, _nets) = synthetic_design();
    let pats: Vec<Vec<u8>> = Vec::new();
    // Endpoints in different quadrants relative to the split at (2, 2).
    let a = RouteArc {
        source_wire: 0,
        source_loc: Coord { x: 1, y: 1 },
        sink_wire: 3,
        sink_loc: Coord { x: 3, y: 3 },
        net: 0,
    };
    assert_eq!(classify_arc(&a, &ctx, &pats, 2, 2), ArcSlot::Special);
    // An endpoint exactly on a split line belongs to no quadrant.
    let b = RouteArc {
        source_wire: 0,
        source_loc: Coord { x: 2, y: 1 },
        sink_wire: 1,
        sink_loc: Coord { x: 1, y: 1 },
        net: 0,
    };
    assert_eq!(classify_arc(&b, &ctx, &pats, 2, 2), ArcSlot::Special);
}

#[test]
fn reserved_pattern_is_special_at_every_split() {
    let (ctx, nets) = synthetic_design();
    let pats: Vec<Vec<u8>> = vec![b"SW_SRC".to_vec()];
    // Both endpoints deep inside one quadrant, yet the source wire name
    // matches a reserved pattern: special at any split point.
    let a = RouteArc {
        source_wire: 3,
        source_loc: Coord { x: 3, y: 3 },
        sink_wire: 4,
        sink_loc: Coord { x: 3, y: 3 },
        net: 1,
    };
    for (x, y) in [(1, 1), (2, 2), (3, 3), (1, 3)] {
        assert_eq!(classify_arc(&a, &ctx, &pats, x, y), ArcSlot::Special);
    }
    let arcs = awooter::extract::extract_arcs_from_nets(&ctx, &nets);
    let (keep, special) = prefilter_reserved_arcs(&ctx, &arcs, &pats);
    assert_eq!(special.len(), 2);
    assert_eq!(keep.len(), 2);
    assert!(special.iter().all(|s| s.source_wire == 3));
}

#[test]
fn quadrant_boxes_tile_the_parent() {
    let grid = BBox { min: Coord { x: 0, y: 0 }, max: Coord { x: 4, y: 4 } };
    let (x, y) = find_partition_point(grid);
    assert!(grid.min.x < x && x < grid.max.x);
    assert!(grid.min.y < y && y < grid.max.y);
    // Half-open extents of the four quadrants sum to the parent extent.
    let parent = (grid.max.x - grid.min.x) * (grid.max.y - grid.min.y);
    let sum = (x - grid.min.x) * (y - grid.min.y) + (grid.max.x - x) * (y - grid.min.y)
        + (x - grid.min.x) * (grid.max.y - y) + (grid.max.x - x) * (grid.max.y - y);
    assert_eq!(parent, sum);
    // Every grid point of the parent lies in at least one closed
    // quadrant box, and interior points of quadrants do not overlap.
    let ne = BBox { min: grid.min, max: Coord { x, y } };
    let se = BBox { min: Coord { x, y: grid.min.y }, max: Coord { x: grid.max.x, y } };
    let sw = BBox { min: Coord { x, y }, max: grid.max };
    let nw = BBox { min: Coord { x: grid.min.x, y }, max: Coord { x, y: grid.max.y } };
    for px in 0..=4u64 {
        for py in 0..=4u64 {
            let c = Coord { x: px, y: py };
            let covered = ne.contains(c) || se.contains(c) || sw.contains(c) || nw.contains(c);
            assert_eq!(covered, grid.contains(c));
        }
    }
}

#[test]
fn recursive_partition_preserves_arc_count() {
    let (ctx, nets) = synthetic_design();
    let arcs = awooter::extract::extract_arcs_from_nets(&ctx, &nets);
    let n = arcs.len();
    let pats: Vec<Vec<u8>> = Vec::new();
    let grid = BBox { min: Coord { x: 0, y: 0 }, max: Coord { x: 4, y: 4 } };
    let (tasks, special) = partition_recursive(&ctx, &pats, arcs, grid, 2, 0, Vec::new());
    let spread: usize = tasks.iter().map(|t| t.arcs.len()).sum();
    assert_eq!(spread + special.len(), n);
    for t in &tasks {
        for a in &t.arcs {
            assert!(t.bbox.contains(a.source_loc));
            assert!(t.bbox.contains(a.sink_loc));
        }
    }
}

#[test]
fn cost_rises_with_pressure_on_used_resource() {
    let (ctx, _nets) = synthetic_design();
    let low = Router::new(2, 1);
    let high = Router::new(3, 1);
    let mut state_low = low.init_state(&ctx);
    let mut state_high = high.init_state(&ctx);
    let path = vec![0usize];
    awooter::router::commit_path(&mut state_low, &path);
    awooter::router::commit_path(&mut state_high, &path);
    // usage 1 on wire 0: higher pressure means strictly higher cost.
    assert!(state_low.cost_of(&ctx, 0) < state_high.cost_of(&ctx, 0));
    // usage 0 on wire 1: pressure does not matter.
    assert_eq!(state_low.cost_of(&ctx, 1), state_high.cost_of(&ctx, 1));
    // base delay 1, pressure 2 * usage 1, history 1 * 0: exact cost.
    assert_eq!(state_low.cost_of(&ctx, 0), 3);
}

#[test]
fn cost_rises_with_history_weight_on_congested_resource() {
    let (ctx, _nets) = synthetic_design();
    let low = Router::new(1, 2);
    let high = Router::new(1, 5);
    let mut state_low = low.init_state(&ctx);
    let mut state_high = high.init_state(&ctx);
    let hot = vec![0usize];
    awooter::router::bump_history(&mut state_low, &hot);
    awooter::router::bump_history(&mut state_high, &hot);
    assert!(state_low.cost_of(&ctx, 0) < state_high.cost_of(&ctx, 0));
    assert_eq!(state_low.cost_of(&ctx, 0), 3);
    assert_eq!(state_high.cost_of(&ctx, 0), 6);
}

#[test]
fn worker_routes_all_arcs_to_committed() {
    let (ctx, nets) = synthetic_design();
    let arcs = awooter::extract::extract_arcs_from_nets(&ctx, &nets);
    let router = Router::new(1, 1);
    let mut state = router.init_state(&ctx);
    let grid = BBox { min: Coord { x: 0, y: 0 }, max: Coord { x: 4, y: 4 } };
    let mut thread = RouterThread::new(grid, b"ALL".to_vec());
    assert_eq!(thread.phase, WorkerPhase::Pending);
    let (outcomes, stats) = router.route(&ctx, &mut state, &mut thread, &arcs, 4);
    assert_eq!(thread.phase, WorkerPhase::Done);
    assert!(stats.converged);
    assert_eq!(outcomes.len(), 4);
    for (i, o) in outcomes.iter().enumerate() {
        assert_eq!(o.state, ArcState::Committed);
        let p = o.path.as_ref().unwrap();
        assert_eq!(p[0], arcs[i].source_wire);
        assert_eq!(*p.last().unwrap(), arcs[i].sink_wire);
    }
    assert_eq!(stats.committed, 4);
    assert_eq!(stats.failed, 0);
}

#[test]
fn unreachable_sink_fails_without_aborting_worker() {
    let (ctx, _nets) = synthetic_design();
    let router = Router::new(1, 1);
    let mut state = router.init_state(&ctx);
    let grid = BBox { min: Coord { x: 0, y: 0 }, max: Coord { x: 4, y: 4 } };
    let mut thread = RouterThread::new(grid, b"MIX".to_vec());
    let arcs = vec![
        // No pip leads from the first quadrant's source to the other
        // quadrant's sink wire: this arc must fail.
        RouteArc {
            source_wire: 0,
            source_loc: Coord { x: 1, y: 1 },
            sink_wire: 4,
            sink_loc: Coord { x: 3, y: 3 },
            net: 0,
        },
        // A routable arc beside it still succeeds.
        RouteArc {
            source_wire: 0,
            source_loc: Coord { x: 1, y: 1 },
            sink_wire: 1,
            sink_loc: Coord { x: 1, y: 1 },
            net: 0,
        },
    ];
    let (outcomes, stats) = router.route(&ctx, &mut state, &mut thread, &arcs, 2);
    assert_eq!(outcomes[0].state, ArcState::Failed);
    assert!(outcomes[0].path.is_none());
    assert_eq!(outcomes[1].state, ArcState::Committed);
    assert_eq!(stats.committed, 1);
    assert_eq!(stats.failed, 1);
}

#[test]
fn end_to_end_synthetic_grid_routes_every_arc() {
    let (ctx, nets) = synthetic_design();
    let pats: Vec<Vec<u8>> = Vec::new();
    let (outcome, reports) = route_design(&ctx, &nets, 1, 1, &pats, 1, 0, 4);
    assert!(outcome.success);
    assert!(outcome.converged);
    assert_eq!(outcome.total_arcs, 4);
    assert_eq!(outcome.committed, 4);
    assert_eq!(outcome.failed, 0);
    // Four leaf regions plus the serial special pass, none failing.
    assert_eq!(reports.len(), 5);
    assert!(reports.iter().all(|r| r.stats.failed == 0));
    assert_eq!(reports.iter().map(|r| r.stats.committed).sum::<usize>(), 4);
    assert_eq!(reports.last().unwrap().name, b"MISC".to_vec());
}

#[test]
fn end_to_end_reports_failures_without_aborting() {
    let (mut ctx, nets) = synthetic_design();
    // Remove every pip: nothing can be routed, yet the run completes
    // and accounts for each arc.
    ctx.pips = Vec::new();
    let pats: Vec<Vec<u8>> = Vec::new();
    let (outcome, reports) = route_design(&ctx, &nets, 1, 1, &pats, 1, 0, 2);
    assert!(!outcome.success);
    assert_eq!(outcome.total_arcs, 4);
    assert_eq!(outcome.committed, 0);
    assert_eq!(outcome.failed, 4);
    // Nothing committed, so nothing is over capacity either.
    assert!(outcome.converged);
    // The breakdown names the regions that failed and returns each
    // arc's terminal outcome.
    assert_eq!(reports.iter().map(|r| r.stats.failed).sum::<usize>(), 4);
    for r in &reports {
        assert_eq!(r.outcomes.len(), r.arcs.len());
        assert!(r.outcomes.iter().all(|o| o.state == ArcState::Failed && o.path.is_none()));
    }
}

#[test]
fn snapshot_accessors_report_model_values() {
    let (ctx, nets) = synthetic_design();
    assert_eq!(ctx.grid_dim_x(), 4);
    assert_eq!(ctx.grid_dim_y(), 4);
    assert_eq!(ctx.name_of_wire(0).as_slice(), b"NE_SRC");
    assert_eq!(ctx.name_of_wire(5).as_slice(), b"SW_SNK_B");
    assert_eq!(nets.len(), 2);
    assert_eq!(nets.name_from_index(1).as_slice(), b"net_sw");
    let grid = ctx.grid_bbox();
    assert_eq!(grid.min, Coord::new(0, 0));
    assert_eq!(grid.max, Coord::new(4, 4));
    let a = RouteArc::new(0, Coord::new(1, 1), 1, Coord::new(1, 1), 0);
    assert_eq!(a.source_wire(), 0);
    assert_eq!(a.sink_wire(), 1);
    let lo = Coord::new(3, 1).min_with(Coord::new(1, 3));
    let hi = Coord::new(3, 1).max_with(Coord::new(1, 3));
    assert_eq!((lo.x, lo.y), (1, 1));
    assert_eq!((hi.x, hi.y), (3, 3));
}

#[test]
fn negotiation_resolves_contention_via_history() {
    // Two arcs can share a cheap middle wire or take distinct expensive
    // detours. The first pass routes both through the shared wire and
    // over-subscribes it; the rip-up pass raises its history cost and
    // requeues arcs until the wire is back within capacity, and the
    // next pass sends the requeued arc over its detour and converges.
    let wires = vec![
        wire("S1", 1, 1, 1, 1),
        wire("T1", 1, 1, 1, 1),
        wire("S2", 1, 1, 1, 1),
        wire("T2", 1, 1, 1, 1),
        wire("MID", 1, 1, 1, 1),
        wire("DETOUR_A", 1, 1, 5, 1),
        wire("DETOUR_B", 1, 1, 5, 1),
    ];
    let pips = vec![
        pip(0, 4, 1, 1),
        pip(4, 1, 1, 1),
        pip(0, 5, 1, 1),
        pip(5, 1, 1, 1),
        pip(2, 4, 1, 1),
        pip(4, 3, 1, 1),
        pip(2, 6, 1, 1),
        pip(6, 3, 1, 1),
    ];
    let ctx = Context { width: 4, height: 4, wires, pips };
    let arcs = vec![
        RouteArc {
            source_wire: 0,
            source_loc: Coord { x: 1, y: 1 },
            sink_wire: 1,
            sink_loc: Coord { x: 1, y: 1 },
            net: 0,
        },
        RouteArc {
            source_wire: 2,
            source_loc: Coord { x: 1, y: 1 },
            sink_wire: 3,
            sink_loc: Coord { x: 1, y: 1 },
            net: 1,
        },
    ];
    let router = Router::new(1, 10);
    let mut state = router.init_state(&ctx);
    let grid = BBox { min: Coord { x: 0, y: 0 }, max: Coord { x: 4, y: 4 } };
    let mut thread = RouterThread::new(grid, b"NEG".to_vec());
    let (outcomes, stats) = router.route(&ctx, &mut state, &mut thread, &arcs, 4);
    assert!(stats.converged);
    assert_eq!(stats.committed, 2);
    assert_eq!(stats.failed, 0);
    // The first arc moved to its detour; the second keeps the shared
    // wire, now exactly at capacity, and its history records the
    // congestion that was negotiated away.
    assert_eq!(outcomes[0].path.as_ref().unwrap().as_slice(), &[0, 5, 1]);
    assert_eq!(outcomes[1].path.as_ref().unwrap().as_slice(), &[2, 4, 3]);
    assert_eq!(state.counters[4].usage, 1);
    assert_eq!(state.counters[4].history, 1);
}


#[test]
fn budget_exhaustion_is_reported_as_failure() {
    // Two arcs must share one capacity-one wire with no alternative:
    // negotiation can never converge, and exhausting the rip-up budget
    // is a routing failure for the arcs still over-subscribed.
    let wires = vec![
        wire("S1", 1, 1, 1, 1),
        wire("T1", 1, 1, 1, 1),
        wire("S2", 1, 1, 1, 1),
        wire("T2", 1, 1, 1, 1),
        wire("ONLY", 1, 1, 1, 1),
    ];
    let pips = vec![pip(0, 4, 1, 1), pip(4, 1, 1, 1), pip(2, 4, 1, 1), pip(4, 3, 1, 1)];
    let ctx = Context { width: 4, height: 4, wires, pips };
    let net0 = Net {
        name: b"n0".to_vec(),
        is_global: false,
        driver: Some(Driver { loc: Coord { x: 1, y: 1 }, source_wire: 0 }),
        users: vec![SinkPin { loc: Coord { x: 1, y: 1 }, wires: vec![1] }],
    };
    let net1 = Net {
        name: b"n1".to_vec(),
        is_global: false,
        driver: Some(Driver { loc: Coord { x: 1, y: 1 }, source_wire: 2 }),
        users: vec![SinkPin { loc: Coord { x: 1, y: 1 }, wires: vec![3] }],
    };
    let nets = Nets { nets: vec![net0, net1] };
    let pats: Vec<Vec<u8>> = Vec::new();
    let (outcome, reports) = route_design(&ctx, &nets, 1, 1, &pats, 1, 0, 1);
    assert_eq!(outcome.total_arcs, 2);
    // At exhaustion the first arc still riding the over-subscribed wire
    // is ripped up and counted failed; with its usage given back, the
    // wire is at capacity and the second arc keeps its path.
    assert_eq!(outcome.committed, 1);
    assert_eq!(outcome.failed, 1);
    assert!(!outcome.converged);
    assert!(!outcome.success);
    assert!(reports.iter().any(|r| !r.stats.converged));
    let congested: usize = reports
        .iter()
        .flat_map(|r| r.outcomes.iter())
        .filter(|o| o.congested)
        .count();
    assert_eq!(congested, 1);
    for r in &reports {
        for o in &r.outcomes {
            if o.congested {
                assert_eq!(o.state, ArcState::Failed);
                assert!(o.path.is_none());
            }
        }
    }
}
