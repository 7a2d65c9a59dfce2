//! The negotiated-congestion router.
//!
//! A shared read-mostly configuration (the two cost weights) and a
//! per-run mutable resource state (per-wire usage and history counters)
//! drive a best-path search per arc. After an initial pass, resources
//! used beyond their capacity raise their history cost, the arcs using
//! them are ripped up and rerouted, and the process repeats until no
//! resource is over capacity or the iteration budget is exhausted.
//! Exhausting the budget is a routing failure for the arcs still in
//! conflict: their paths are ripped up and they are counted among the
//! failed arcs, reported, never fatal.

use vstd::prelude::*;
use crate::design::{Context, RouteArc};
use crate::geom::BBox;
use crate::partition::arcs_wf;

verus! {

broadcast use vstd::seq_lib::group_to_multiset_ensures, vstd::multiset::group_multiset_axioms, vstd::multiset::group_multiset_properties;

/// The congestion counters of one routing resource (one wire).
#[derive(Clone, Copy, Debug, PartialEq, Eq, Structural)]
pub struct ResourceCounters {
    pub usage: u64,
    pub history: u64,
    pub capacity: u64,
}

/// The cost of routing through a resource: its base delay, plus the
/// pressure-weighted current usage, plus the history-weighted
/// accumulated congestion.
pub open spec fn spec_cost(base: u64, usage: u64, history: u64, pressure: u32, hist_w: u32) -> int {
    base + pressure * usage + hist_w * history
}

/// Raising the pressure factor never lowers a resource's cost, and
/// strictly raises it when the resource has nonzero usage.
pub proof fn lemma_cost_monotone_pressure(
    base: u64,
    usage: u64,
    history: u64,
    p1: u32,
    p2: u32,
    hist_w: u32,
)
    requires
        p1 <= p2,
    ensures
        spec_cost(base, usage, history, p1, hist_w) <= spec_cost(base, usage, history, p2, hist_w),
        usage > 0 && p1 < p2 ==> spec_cost(base, usage, history, p1, hist_w) < spec_cost(
            base,
            usage,
            history,
            p2,
            hist_w,
        ),
{
    assert(p1 * usage <= p2 * usage) by (nonlinear_arith)
        requires
            p1 <= p2,
    ;
    assert(usage > 0 && p1 < p2 ==> p1 * usage < p2 * usage) by (nonlinear_arith);
}

/// Raising the history factor never lowers a resource's cost, and
/// strictly raises it when the resource has nonzero history.
pub proof fn lemma_cost_monotone_history(
    base: u64,
    usage: u64,
    history: u64,
    pressure: u32,
    h1: u32,
    h2: u32,
)
    requires
        h1 <= h2,
    ensures
        spec_cost(base, usage, history, pressure, h1) <= spec_cost(
            base,
            usage,
            history,
            pressure,
            h2,
        ),
        history > 0 && h1 < h2 ==> spec_cost(base, usage, history, pressure, h1) < spec_cost(
            base,
            usage,
            history,
            pressure,
            h2,
        ),
{
    assert(h1 * history <= h2 * history) by (nonlinear_arith)
        requires
            h1 <= h2,
    ;
    assert(history > 0 && h1 < h2 ==> h1 * history < h2 * history) by (nonlinear_arith);
}

/// The mutable routing state of one run: one counter record per wire of
/// the context, plus the two scalar weights of the cost function.
pub struct RoutingResourceState {
    pub counters: Vec<ResourceCounters>,
    pub pressure: u32,
    pub history_factor: u32,
}

impl RoutingResourceState {
    /// One counter record per wire.
    pub open spec fn wf(self, ctx: Context) -> bool {
        self.counters@.len() == ctx.wires@.len()
    }

    /// Fresh state: zero usage and history everywhere, each wire's own
    /// capacity, and the given weights.
    pub fn new(ctx: &Context, pressure: u32, history_factor: u32) -> (s: RoutingResourceState)
        ensures
            s.wf(*ctx),
            s.pressure == pressure,
            s.history_factor == history_factor,
            forall|w: int|
                0 <= w < s.counters@.len() ==> #[trigger] s.counters@[w] == (ResourceCounters {
                    usage: 0,
                    history: 0,
                    capacity: ctx.wires@[w].capacity,
                }),
    {
        let mut counters: Vec<ResourceCounters> = Vec::new();
        let mut w: usize = 0;
        while w < ctx.wires.len()
            invariant
                0 <= w <= ctx.wires@.len(),
                counters@.len() == w,
                forall|t: int|
                    0 <= t < w ==> #[trigger] counters@[t] == (ResourceCounters {
                        usage: 0,
                        history: 0,
                        capacity: ctx.wires@[t].capacity,
                    }),
            decreases ctx.wires@.len() - w,
        {
            counters.push(ResourceCounters {
                usage: 0,
                history: 0,
                capacity: ctx.wires[w].capacity,
            });
            w += 1;
        }
        RoutingResourceState { counters, pressure, history_factor }
    }

    /// The congestion cost of wire `w` under the current counters and
    /// weights.
    pub fn cost_of(&self, ctx: &Context, w: usize) -> (r: u128)
        requires
            self.wf(*ctx),
            w < ctx.wires@.len(),
        ensures
            r == spec_cost(
                ctx.wires@[w as int].base_delay,
                self.counters@[w as int].usage,
                self.counters@[w as int].history,
                self.pressure,
                self.history_factor,
            ),
    {
        let c = self.counters[w];
        let base = ctx.wires[w].base_delay;
        let pw: u128 = self.pressure as u128;
        let hw: u128 = self.history_factor as u128;
        let us: u128 = c.usage as u128;
        let hi: u128 = c.history as u128;
        proof {
            assert(pw * us <= 0xffff_ffffu128 * 0xffff_ffff_ffff_ffffu128) by (nonlinear_arith)
                requires
                    pw <= 0xffff_ffffu128,
                    us <= 0xffff_ffff_ffff_ffffu128,
            ;
            assert(hw * hi <= 0xffff_ffffu128 * 0xffff_ffff_ffff_ffffu128) by (nonlinear_arith)
                requires
                    hw <= 0xffff_ffffu128,
                    hi <= 0xffff_ffff_ffff_ffffu128,
            ;
        }
        let p_term: u128 = pw * us;
        let h_term: u128 = hw * hi;
        (base as u128) + p_term + h_term
    }

    /// The wires currently used beyond their capacity.
    pub fn find_overused(&self) -> (r: Vec<usize>)
        ensures
            forall|t: int|
                0 <= t < r@.len() ==> #[trigger] r@[t] < self.counters@.len()
                    && self.counters@[r@[t] as int].usage > self.counters@[r@[t] as int].capacity,
            forall|w: int|
                0 <= w < self.counters@.len() && (#[trigger] self.counters@[w]).usage
                    > self.counters@[w].capacity ==> r@.contains(w as usize),
    {
        let mut r: Vec<usize> = Vec::new();
        let mut w: usize = 0;
        while w < self.counters.len()
            invariant
                0 <= w <= self.counters@.len(),
                forall|t: int|
                    0 <= t < r@.len() ==> #[trigger] r@[t] < self.counters@.len()
                        && self.counters@[r@[t] as int].usage > self.counters@[r@[t]
                        as int].capacity,
                forall|q: int|
                    0 <= q < w && (#[trigger] self.counters@[q]).usage > self.counters@[q].capacity
                        ==> r@.contains(q as usize),
            decreases self.counters@.len() - w,
        {
            let c = self.counters[w];
            if c.usage > c.capacity {
                let ghost old_r = r@;
                r.push(w);
                proof {
                    assert(r@[r@.len() - 1] == w);
                    assert forall|v: usize| old_r.contains(v) implies #[trigger] r@.contains(
                        v,
                    ) by {
                        let t = choose|t: int| 0 <= t < old_r.len() && old_r[t] == v;
                        assert(r@[t] == v);
                    }
                }
            }
            w += 1;
        }
        r
    }

    /// No wire is used beyond its capacity.
    pub open spec fn no_overuse(self) -> bool {
        forall|w: int|
            0 <= w < self.counters@.len() ==> (#[trigger] self.counters@[w]).usage
                <= self.counters@[w].capacity
    }
}

/// Fold another worker's counters into this state, wire by wire: the
/// logically global resource view after independent workers ran over
/// disjoint regions. Usage and history add, saturating; capacities and
/// weights stay this state's own.
pub fn absorb_counters(state: &mut RoutingResourceState, other: &RoutingResourceState)
    requires
        old(state).counters@.len() == other.counters@.len(),
    ensures
        final(state).counters@.len() == old(state).counters@.len(),
        final(state).pressure == old(state).pressure,
        final(state).history_factor == old(state).history_factor,
        forall|w: usize|
            w < old(state).counters@.len() ==> (#[trigger] final(state).counters@[w as int]).usage
                == sat64(old(state).counters@[w as int].usage + other.counters@[w as int].usage)
                && final(state).counters@[w as int].history == sat64(
                old(state).counters@[w as int].history + other.counters@[w as int].history,
            ) && final(state).counters@[w as int].capacity == old(state).counters@[w as int].capacity,
{
    let ghost orig = state.counters@;
    let mut w: usize = 0;
    while w < state.counters.len()
        invariant
            orig == old(state).counters@,
            orig.len() == other.counters@.len(),
            state.counters@.len() == orig.len(),
            state.pressure == old(state).pressure,
            state.history_factor == old(state).history_factor,
            0 <= w <= orig.len(),
            forall|t: usize|
                t < w ==> (#[trigger] state.counters@[t as int]).usage == sat64(
                    orig[t as int].usage + other.counters@[t as int].usage,
                ) && state.counters@[t as int].history == sat64(
                    orig[t as int].history + other.counters@[t as int].history,
                ) && state.counters@[t as int].capacity == orig[t as int].capacity,
            forall|t: usize|
                w <= t < orig.len() ==> #[trigger] state.counters@[t as int] == orig[t as int],
        decreases orig.len() - w,
    {
        let c = state.counters[w];
        let o = other.counters[w];
        let usage: u64 = if c.usage <= u64::MAX - o.usage {
            c.usage + o.usage
        } else {
            u64::MAX
        };
        let history: u64 = if c.history <= u64::MAX - o.history {
            c.history + o.history
        } else {
            u64::MAX
        };
        state.counters[w] = ResourceCounters { usage, history, capacity: c.capacity };
        w += 1;
    }
}

/// `x`, saturated into a 64-bit counter.
pub open spec fn sat64(x: int) -> int {
    if x > u64::MAX {
        u64::MAX as int
    } else {
        x
    }
}

/// Mark every wire of a found path used once more (the commit step of
/// the per-arc state machine). Usage counters saturate; history,
/// capacity and the weights are untouched.
pub fn commit_path(state: &mut RoutingResourceState, path: &Vec<usize>)
    requires
        forall|i: int| 0 <= i < path@.len() ==> #[trigger] path@[i] < old(state).counters@.len(),
    ensures
        final(state).counters@.len() == old(state).counters@.len(),
        final(state).pressure == old(state).pressure,
        final(state).history_factor == old(state).history_factor,
        forall|w: usize|
            w < old(state).counters@.len() ==> (#[trigger] final(state).counters@[w as int]).usage
                == sat64(
                old(state).counters@[w as int].usage + path@.to_multiset().count(w),
            ) && final(state).counters@[w as int].history == old(state).counters@[w as int].history
                && final(state).counters@[w as int].capacity == old(state).counters@[w as int].capacity,
{
    let ghost orig = state.counters@;
    let mut j: usize = 0;
    while j < path.len()
        invariant
            forall|i: int| 0 <= i < path@.len() ==> #[trigger] path@[i] < orig.len(),
            0 <= j <= path@.len(),
            state.counters@.len() == orig.len(),
            state.pressure == old(state).pressure,
            state.history_factor == old(state).history_factor,
            orig == old(state).counters@,
            forall|w: usize|
                w < orig.len() ==> (#[trigger] state.counters@[w as int]).usage == sat64(
                    orig[w as int].usage + path@.take(j as int).to_multiset().count(w),
                ) && state.counters@[w as int].history == orig[w as int].history
                    && state.counters@[w as int].capacity == orig[w as int].capacity,
        decreases path@.len() - j,
    {
        let w = path[j];
        proof {
            assert(path@.take(j + 1).drop_last() =~= path@.take(j as int));
            assert(path@.take(j + 1) =~= path@.take(j as int).push(w));
            assert(path@.take(j as int).push(w).to_multiset() =~= path@.take(
                j as int,
            ).to_multiset().insert(w));
            assert(path@.take(j + 1).to_multiset() == path@.take(j as int).to_multiset().insert(
                w,
            ));
        }
        let c = state.counters[w];
        let bumped: u64 = if c.usage < u64::MAX {
            c.usage + 1
        } else {
            c.usage
        };
        state.counters[w] = ResourceCounters { usage: bumped, history: c.history, capacity: c.capacity };
        j += 1;
    }
    proof {
        assert(path@.take(path@.len() as int) =~= path@);
    }
}

/// Undo the commit of a path (the rip-up step): every wire of the path
/// gives one usage count back. Counters floor at zero.
pub fn rip_up_path(state: &mut RoutingResourceState, path: &Vec<usize>)
    requires
        forall|i: int| 0 <= i < path@.len() ==> #[trigger] path@[i] < old(state).counters@.len(),
    ensures
        final(state).counters@.len() == old(state).counters@.len(),
        final(state).pressure == old(state).pressure,
        final(state).history_factor == old(state).history_factor,
        forall|w: usize|
            w < old(state).counters@.len() ==> (#[trigger] final(state).counters@[w as int]).usage
                == (if old(state).counters@[w as int].usage >= path@.to_multiset().count(w) {
                old(state).counters@[w as int].usage - path@.to_multiset().count(w)
            } else {
                0
            }) && final(state).counters@[w as int].history == old(state).counters@[w as int].history
                && final(state).counters@[w as int].capacity == old(state).counters@[w as int].capacity,
{
    let ghost orig = state.counters@;
    let mut j: usize = 0;
    while j < path.len()
        invariant
            forall|i: int| 0 <= i < path@.len() ==> #[trigger] path@[i] < orig.len(),
            0 <= j <= path@.len(),
            state.counters@.len() == orig.len(),
            state.pressure == old(state).pressure,
            state.history_factor == old(state).history_factor,
            orig == old(state).counters@,
            forall|w: usize|
                w < orig.len() ==> (#[trigger] state.counters@[w as int]).usage == (if orig[w as int].usage
                    >= path@.take(j as int).to_multiset().count(w) {
                    orig[w as int].usage - path@.take(j as int).to_multiset().count(w)
                } else {
                    0
                }) && state.counters@[w as int].history == orig[w as int].history
                    && state.counters@[w as int].capacity == orig[w as int].capacity,
        decreases path@.len() - j,
    {
        let w = path[j];
        proof {
            assert(path@.take(j + 1).drop_last() =~= path@.take(j as int));
            assert(path@.take(j + 1) =~= path@.take(j as int).push(w));
            assert(path@.take(j as int).push(w).to_multiset() =~= path@.take(
                j as int,
            ).to_multiset().insert(w));
            assert(path@.take(j + 1).to_multiset() == path@.take(j as int).to_multiset().insert(
                w,
            ));
        }
        let c = state.counters[w];
        let lowered: u64 = if c.usage > 0 {
            c.usage - 1
        } else {
            0
        };
        state.counters[w] = ResourceCounters {
            usage: lowered,
            history: c.history,
            capacity: c.capacity,
        };
        j += 1;
    }
    proof {
        assert(path@.take(path@.len() as int) =~= path@);
    }
}

/// Raise the historical congestion of every listed wire by one (the
/// negotiation step after an over-subscription is found). History
/// counters saturate.
pub fn bump_history(state: &mut RoutingResourceState, wires: &Vec<usize>)
    requires
        forall|i: int| 0 <= i < wires@.len() ==> #[trigger] wires@[i] < old(state).counters@.len(),
    ensures
        final(state).counters@.len() == old(state).counters@.len(),
        final(state).pressure == old(state).pressure,
        final(state).history_factor == old(state).history_factor,
        forall|w: usize|
            w < old(state).counters@.len() ==> (#[trigger] final(state).counters@[w as int]).history
                == sat64(
                old(state).counters@[w as int].history + wires@.to_multiset().count(w),
            ) && final(state).counters@[w as int].usage == old(state).counters@[w as int].usage
                && final(state).counters@[w as int].capacity == old(state).counters@[w as int].capacity,
{
    let ghost orig = state.counters@;
    let mut j: usize = 0;
    while j < wires.len()
        invariant
            forall|i: int| 0 <= i < wires@.len() ==> #[trigger] wires@[i] < orig.len(),
            0 <= j <= wires@.len(),
            state.counters@.len() == orig.len(),
            state.pressure == old(state).pressure,
            state.history_factor == old(state).history_factor,
            orig == old(state).counters@,
            forall|w: usize|
                w < orig.len() ==> (#[trigger] state.counters@[w as int]).history == sat64(
                    orig[w as int].history + wires@.take(j as int).to_multiset().count(w),
                ) && state.counters@[w as int].usage == orig[w as int].usage
                    && state.counters@[w as int].capacity == orig[w as int].capacity,
        decreases wires@.len() - j,
    {
        let w = wires[j];
        proof {
            assert(wires@.take(j + 1).drop_last() =~= wires@.take(j as int));
            assert(wires@.take(j + 1) =~= wires@.take(j as int).push(w));
            assert(wires@.take(j as int).push(w).to_multiset() =~= wires@.take(
                j as int,
            ).to_multiset().insert(w));
            assert(wires@.take(j + 1).to_multiset() == wires@.take(j as int).to_multiset().insert(
                w,
            ));
        }
        let c = state.counters[w];
        let bumped: u64 = if c.history < u64::MAX {
            c.history + 1
        } else {
            c.history
        };
        state.counters[w] = ResourceCounters {
            usage: c.usage,
            history: bumped,
            capacity: c.capacity,
        };
        j += 1;
    }
    proof {
        assert(wires@.take(wires@.len() as int) =~= wires@);
    }
}

/// Wires `a` and `b` are connected by some pip, in that direction.
pub open spec fn pip_connects(ctx: Context, a: usize, b: usize) -> bool {
    exists|k: int| 0 <= k < ctx.pips@.len() && (#[trigger] ctx.pips@[k]).from == a && ctx.pips@[k].to == b
}

/// A legal routed path: it starts at `src`, ends at `dst`, follows a
/// pip at every step, and every wire between the endpoints lies inside
/// the worker's bounding box.
pub open spec fn valid_path(ctx: Context, p: Seq<usize>, src: usize, dst: usize, b: BBox) -> bool {
    &&& p.len() >= 1
    &&& p[0] == src
    &&& p[p.len() - 1] == dst
    &&& forall|i: int| 0 <= i < p.len() ==> #[trigger] p[i] < ctx.wires@.len()
    &&& forall|i: int| 0 <= i < p.len() - 1 ==> pip_connects(ctx, #[trigger] p[i], p[i + 1])
    &&& forall|i: int|
        1 <= i < p.len() - 1 ==> b.spec_contains(ctx.wires@[#[trigger] p[i] as int].loc)
}

/// A partial path grown by the search: starts at `src`, follows pips,
/// and stays inside the box after its first wire.
pub open spec fn search_prefix(ctx: Context, p: Seq<usize>, src: usize, b: BBox) -> bool {
    &&& p.len() >= 1
    &&& p[0] == src
    &&& forall|i: int| 0 <= i < p.len() ==> #[trigger] p[i] < ctx.wires@.len()
    &&& forall|i: int| 0 <= i < p.len() - 1 ==> pip_connects(ctx, #[trigger] p[i], p[i + 1])
    &&& forall|i: int| 1 <= i < p.len() ==> b.spec_contains(ctx.wires@[#[trigger] p[i] as int].loc)
}

/// Some frontier entry's partial path currently ends at wire `v`.
spec fn frontier_has_end(frontier: Seq<FrontierEntry>, v: usize) -> bool {
    exists|t: int|
        0 <= t < frontier.len() && (#[trigger] frontier[t]).path@.len() >= 1
            && frontier[t].path@.last() == v
}

/// No visited wire has a pip straight to `dst`: had one been seen, the
/// search would already have returned.
spec fn no_edge_to_dst(ctx: Context, visited: Seq<bool>, dst: usize) -> bool {
    forall|u: usize| u < visited.len() && visited[u as int] ==> !pip_connects(ctx, u, dst)
}

/// The visited set is closed under in-box pip steps, up to the frontier:
/// every pip out of a visited wire leads to `dst`, out of the box, to a
/// visited wire, or to the end of a pending frontier entry.
spec fn visited_closed(
    ctx: Context,
    b: BBox,
    visited: Seq<bool>,
    frontier: Seq<FrontierEntry>,
    dst: usize,
) -> bool {
    forall|u: usize, v: usize|
        u < visited.len() && v < visited.len() && visited[u as int] && #[trigger] pip_connects(
            ctx,
            u,
            v,
        ) && v != dst && b.spec_contains(ctx.wires@[v as int].loc) ==> visited[v as int]
            || frontier_has_end(frontier, v)
}

/// The closure property for every visited wire but one, the wire whose
/// outgoing pips the search is currently scanning.
spec fn visited_closed_except(
    ctx: Context,
    b: BBox,
    visited: Seq<bool>,
    frontier: Seq<FrontierEntry>,
    dst: usize,
    ex: usize,
) -> bool {
    forall|u: usize, v: usize|
        u < visited.len() && v < visited.len() && visited[u as int] && u != ex
            && #[trigger] pip_connects(ctx, u, v) && v != dst && b.spec_contains(
            ctx.wires@[v as int].loc,
        ) ==> visited[v as int] || frontier_has_end(frontier, v)
}

/// Removing one frontier entry by swap keeps every other pending end.
proof fn lemma_swap_remove_keeps_ends(
    pre: Seq<FrontierEntry>,
    post: Seq<FrontierEntry>,
    m: int,
    v: usize,
    removed_end: usize,
)
    requires
        0 <= m < pre.len(),
        post == pre.update(m, pre.last()).drop_last(),
        pre[m].path@.len() >= 1,
        pre[m].path@.last() == removed_end,
        frontier_has_end(pre, v),
        v != removed_end,
    ensures
        frontier_has_end(post, v),
{
    let t = choose|t: int|
        0 <= t < pre.len() && (#[trigger] pre[t]).path@.len() >= 1 && pre[t].path@.last() == v;
    if t == pre.len() - 1 {
        assert(post[m] == pre[t]);
    } else {
        assert(post[t] == pre[t]);
    }
}

/// With an empty frontier, a closed visited set that contains `src` and
/// has no pip to `dst` rules out every legal path: each wire along a
/// would-be path is visited in turn, until its last pip contradicts
/// `no_edge_to_dst`.
proof fn lemma_closed_visited_blocks_path(
    ctx: Context,
    b: BBox,
    visited: Seq<bool>,
    src: usize,
    dst: usize,
    p: Seq<usize>,
    i: int,
)
    requires
        ctx.wf(),
        visited.len() == ctx.wires@.len(),
        valid_path(ctx, p, src, dst, b),
        src != dst,
        visited[src as int],
        no_edge_to_dst(ctx, visited, dst),
        visited_closed(ctx, b, visited, Seq::empty(), dst),
        0 <= i < p.len() - 1,
    ensures
        visited[p[i] as int],
    decreases i,
{
    if i == 0 {
        assert(p[0] == src);
    } else {
        lemma_closed_visited_blocks_path(ctx, b, visited, src, dst, p, i - 1);
        assert(pip_connects(ctx, p[i - 1], p[i]));
        if p[i] == dst {
            assert(!pip_connects(ctx, p[i - 1], dst));
        } else {
            assert(b.spec_contains(ctx.wires@[p[i] as int].loc));
            assert(!frontier_has_end(Seq::empty(), p[i]));
        }
    }
}

/// How many entries of a visited map are still unvisited.
pub open spec fn count_unvisited(s: Seq<bool>) -> nat
    decreases s.len(),
{
    if s.len() == 0 {
        0
    } else {
        count_unvisited(s.drop_last()) + if s.last() {
            0nat
        } else {
            1nat
        }
    }
}

/// Marking an unvisited entry visited decreases the unvisited count by
/// exactly one.
proof fn lemma_count_unvisited_update(s: Seq<bool>, i: int)
    requires
        0 <= i < s.len(),
        !s[i],
    ensures
        count_unvisited(s.update(i, true)) == count_unvisited(s) - 1,
    decreases s.len(),
{
    if i == s.len() - 1 {
        assert(s.update(i, true).drop_last() =~= s.drop_last());
    } else {
        lemma_count_unvisited_update(s.drop_last(), i);
        assert(s.update(i, true).drop_last() =~= s.drop_last().update(i, true));
        assert(s.update(i, true).last() == s.last());
    }
}

/// Saturating addition of path costs; the cost only guides the search,
/// so saturation is harmless.
fn sat_add_cost(a: u128, b: u128) -> (r: u128)
    ensures
        r == if a + b <= u128::MAX { a + b } else { u128::MAX as int },
{
    if a <= u128::MAX - b {
        a + b
    } else {
        u128::MAX
    }
}

/// One entry of the search frontier: a partial path and its cost.
struct FrontierEntry {
    path: Vec<usize>,
    cost: u128,
}

/// The index of a cheapest frontier entry.
fn cheapest_entry(frontier: &Vec<FrontierEntry>) -> (m: usize)
    requires
        frontier@.len() >= 1,
    ensures
        m < frontier@.len(),
{
    let mut m: usize = 0;
    let mut k: usize = 1;
    while k < frontier.len()
        invariant
            frontier@.len() >= 1,
            m < frontier@.len(),
            1 <= k <= frontier@.len(),
        decreases frontier@.len() - k,
    {
        if frontier[k].cost < frontier[m].cost {
            m = k;
        }
        k += 1;
    }
    m
}

/// Search a cheapest-first path from `src` to `dst` through the pip
/// graph, entering only wires that lie inside `b` (the endpoints are
/// exempt). Returns a legal path on success; a search that exhausts its
/// frontier reports failure for this arc only.
#[verifier::rlimit(60)]
pub fn find_path(
    ctx: &Context,
    state: &RoutingResourceState,
    src: usize,
    dst: usize,
    b: BBox,
) -> (r: Option<Vec<usize>>)
    requires
        ctx.wf(),
        state.wf(*ctx),
        src < ctx.wires@.len(),
        dst < ctx.wires@.len(),
    ensures
        r is Some ==> valid_path(*ctx, r->0@, src, dst, b),
        r is None ==> forall|p: Seq<usize>| !valid_path(*ctx, p, src, dst, b),
        src == dst ==> r is Some,
        pip_connects(*ctx, src, dst) ==> r is Some,
{
    if src == dst {
        let p = vec![src];
        assert(p@[0] == src);
        return Some(p);
    }
    let mut k: usize = 0;
    while k < ctx.pips.len()
        invariant
            ctx.wf(),
            src < ctx.wires@.len(),
            dst < ctx.wires@.len(),
            0 <= k <= ctx.pips@.len(),
            forall|t: int|
                0 <= t < k ==> !((#[trigger] ctx.pips@[t]).from == src && ctx.pips@[t].to == dst),
        decreases ctx.pips@.len() - k,
    {
        let pip = ctx.pips[k];
        if pip.from == src && pip.to == dst {
            let mut p = vec![src];
            p.push(dst);
            proof {
                assert(pip_connects(*ctx, src, dst)) by {
                    assert(ctx.pips@[k as int].from == src && ctx.pips@[k as int].to == dst);
                }
                assert(p@[0] == src && p@[1] == dst && p@.len() == 2);
            }
            return Some(p);
        }
        k += 1;
    }
    assert(!pip_connects(*ctx, src, dst));
    let n = ctx.wires.len();
    let mut visited: Vec<bool> = vec![false; n];
    let start = vec![src];
    assert(start@[0] == src);
    let mut frontier: Vec<FrontierEntry> = Vec::new();
    frontier.push(FrontierEntry { path: start, cost: 0 });
    proof {
        assert(frontier@[0].path@.last() == src);
        assert(frontier_has_end(frontier@, src));
    }
    loop
        invariant
            ctx.wf(),
            state.wf(*ctx),
            src < ctx.wires@.len(),
            dst < ctx.wires@.len(),
            src != dst,
            !pip_connects(*ctx, src, dst),
            visited@.len() == ctx.wires@.len(),
            forall|t: int|
                0 <= t < frontier@.len() ==> search_prefix(
                    *ctx,
                    (#[trigger] frontier@[t]).path@,
                    src,
                    b,
                ),
            no_edge_to_dst(*ctx, visited@, dst),
            visited_closed(*ctx, b, visited@, frontier@, dst),
            visited@[src as int] || frontier_has_end(frontier@, src),
        decreases count_unvisited(visited@), frontier@.len(),
    {
        if frontier.len() == 0 {
            proof {
                assert(frontier@ =~= Seq::<FrontierEntry>::empty());
                assert(visited@[src as int]);
                assert forall|p: Seq<usize>| !valid_path(*ctx, p, src, dst, b) by {
                    if valid_path(*ctx, p, src, dst, b) {
                        assert(p.len() >= 2) by {
                            assert(p[0] == src && p[p.len() - 1] == dst);
                        }
                        lemma_closed_visited_blocks_path(
                            *ctx,
                            b,
                            visited@,
                            src,
                            dst,
                            p,
                            p.len() - 2,
                        );
                        assert(pip_connects(*ctx, p[p.len() - 2], dst));
                        assert(false);
                    }
                }
            }
            return None;
        }
        let m = cheapest_entry(&frontier);
        let ghost pre_pop = visited@;
        let ghost pre_frontier = frontier@;
        let entry = frontier.swap_remove(m);
        let path = entry.path;
        let cost = entry.cost;
        assert(search_prefix(*ctx, path@, src, b));
        let end = path[path.len() - 1];
        proof {
            assert(pre_frontier[m as int].path@.last() == end);
            assert forall|v: usize|
                frontier_has_end(pre_frontier, v) && v != end implies frontier_has_end(
                frontier@,
                v,
            ) by {
                lemma_swap_remove_keeps_ends(pre_frontier, frontier@, m as int, v, end);
            }
        }
        if visited[end] {
            proof {
                assert(visited_closed(*ctx, b, visited@, frontier@, dst)) by {
                    assert forall|u: usize, v: usize|
                        u < visited@.len() && v < visited@.len() && visited@[u as int]
                            && #[trigger] pip_connects(*ctx, u, v) && v != dst && b.spec_contains(
                            ctx.wires@[v as int].loc,
                        ) implies visited@[v as int] || frontier_has_end(frontier@, v) by {
                        if !visited@[v as int] && v != end {
                            assert(frontier_has_end(pre_frontier, v));
                        }
                    }
                }
            }
            continue;
        }
        visited[end] = true;
        proof {
            lemma_count_unvisited_update(pre_pop, end as int);
            assert forall|v: usize|
                frontier_has_end(pre_frontier, v) implies visited@[v as int] || frontier_has_end(
                frontier@,
                v,
            ) by {
                if v != end {
                    lemma_swap_remove_keeps_ends(pre_frontier, frontier@, m as int, v, end);
                }
            }
        }
        let mut k: usize = 0;
        while k < ctx.pips.len()
            invariant
                ctx.wf(),
                state.wf(*ctx),
                src < ctx.wires@.len(),
                dst < ctx.wires@.len(),
                src != dst,
                end < ctx.wires@.len(),
                visited@.len() == ctx.wires@.len(),
                visited@[end as int],
                0 <= k <= ctx.pips@.len(),
                search_prefix(*ctx, path@, src, b),
                path@.len() >= 1,
                path@[path@.len() - 1] == end,
                forall|t: int|
                    0 <= t < frontier@.len() ==> search_prefix(
                        *ctx,
                        (#[trigger] frontier@[t]).path@,
                        src,
                        b,
                    ),
                forall|u: usize|
                    u < visited@.len() && visited@[u as int] && u != end ==> !pip_connects(
                        *ctx,
                        u,
                        dst,
                    ),
                forall|t: int|
                    0 <= t < k ==> !((#[trigger] ctx.pips@[t]).from == end && ctx.pips@[t].to
                        == dst),
                visited_closed_except(*ctx, b, visited@, frontier@, dst, end),
                forall|t: int|
                    0 <= t < k && (#[trigger] ctx.pips@[t]).from == end && ctx.pips@[t].to != dst
                        && ctx.pips@[t].to < visited@.len() && b.spec_contains(
                        ctx.wires@[ctx.pips@[t].to as int].loc,
                    ) ==> visited@[ctx.pips@[t].to as int] || frontier_has_end(
                        frontier@,
                        ctx.pips@[t].to,
                    ),
                visited@[src as int] || frontier_has_end(frontier@, src),
            decreases ctx.pips@.len() - k,
        {
            let pip = ctx.pips[k];
            if pip.from == end {
                let nx = pip.to;
                if nx == dst {
                    let mut found = path;
                    found.push(nx);
                    proof {
                        assert(pip_connects(*ctx, end, nx)) by {
                            assert(ctx.pips@[k as int].from == end && ctx.pips@[k as int].to
                                == nx);
                        }
                        assert(found@.drop_last() =~= path@);
                    }
                    return Some(found);
                }
                if !visited[nx] && b.contains(ctx.wires[nx].loc) {
                    let mut extended = path.clone();
                    extended.push(nx);
                    proof {
                        assert(pip_connects(*ctx, end, nx)) by {
                            assert(ctx.pips@[k as int].from == end && ctx.pips@[k as int].to
                                == nx);
                        }
                        assert(extended@.drop_last() =~= path@);
                        assert(search_prefix(*ctx, extended@, src, b));
                    }
                    let c = state.cost_of(ctx, nx);
                    let total = sat_add_cost(cost, c);
                    let ghost pre_push = frontier@;
                    frontier.push(FrontierEntry { path: extended, cost: total });
                    proof {
                        assert(frontier@[frontier@.len() - 1].path@.last() == nx);
                        assert(frontier_has_end(frontier@, nx));
                        assert forall|v: usize|
                            frontier_has_end(pre_push, v) implies frontier_has_end(
                            frontier@,
                            v,
                        ) by {
                            let t = choose|t: int|
                                0 <= t < pre_push.len() && (#[trigger] pre_push[t]).path@.len()
                                    >= 1 && pre_push[t].path@.last() == v;
                            assert(frontier@[t] == pre_push[t]);
                        }
                    }
                }
            }
            k += 1;
        }
        proof {
            assert(no_edge_to_dst(*ctx, visited@, dst)) by {
                assert forall|u: usize|
                    u < visited@.len() && visited@[u as int] implies !pip_connects(
                    *ctx,
                    u,
                    dst,
                ) by {
                    if u == end {
                        if pip_connects(*ctx, end, dst) {
                            let t = choose|t: int|
                                0 <= t < ctx.pips@.len() && (#[trigger] ctx.pips@[t]).from == end
                                    && ctx.pips@[t].to == dst;
                            assert(false);
                        }
                    }
                }
            }
            assert(visited_closed(*ctx, b, visited@, frontier@, dst)) by {
                assert forall|u: usize, v: usize|
                    u < visited@.len() && v < visited@.len() && visited@[u as int]
                        && #[trigger] pip_connects(*ctx, u, v) && v != dst && b.spec_contains(
                        ctx.wires@[v as int].loc,
                    ) implies visited@[v as int] || frontier_has_end(frontier@, v) by {
                    if u == end {
                        let t = choose|t: int|
                            0 <= t < ctx.pips@.len() && (#[trigger] ctx.pips@[t]).from == end
                                && ctx.pips@[t].to == v;
                    }
                }
            }
        }
    }
}

/// The lifecycle of one arc through the router.
#[derive(Clone, Copy, Debug, PartialEq, Eq, Structural)]
pub enum ArcState {
    Unrouted,
    PathFound,
    Committed,
    RippedUp,
    Failed,
}

/// The transitions the per-arc state machine allows: an unrouted arc
/// finds a path and commits it; congestion rips a found or committed
/// path up and returns the arc to the unrouted pool; an arc still
/// unrouted when the budget is exhausted has failed.
pub open spec fn arc_step_allowed(a: ArcState, b: ArcState) -> bool {
    ||| (a is Unrouted && b is PathFound)
    ||| (a is PathFound && b is Committed)
    ||| (a is PathFound && b is RippedUp)
    ||| (a is Committed && b is RippedUp)
    ||| (a is RippedUp && b is Unrouted)
    ||| (a is Unrouted && b is Failed)
}

/// No legal path at all leads from the arc's source wire to its sink
/// wire inside the box.
pub open spec fn no_route_exists(ctx: Context, a: RouteArc, b: BBox) -> bool {
    forall|p: Seq<usize>| !valid_path(ctx, p, a.source_wire, a.sink_wire, b)
}

/// Every arc of the list is its own source, or one pip away from it:
/// on such a worklist a search is always owed a path.
pub open spec fn all_directly_connected(ctx: Context, arcs: Seq<RouteArc>) -> bool {
    forall|i: int|
        0 <= i < arcs.len() ==> (#[trigger] arcs[i]).source_wire == arcs[i].sink_wire
            || pip_connects(ctx, arcs[i].source_wire, arcs[i].sink_wire)
}

/// An arc whose sink is its source, or one pip away from it, always
/// has a legal path, whatever the box: the endpoints are exempt from
/// the box restriction.
proof fn lemma_connected_has_route(ctx: Context, a: RouteArc, b: BBox)
    requires
        a.wf(ctx),
        a.source_wire == a.sink_wire || pip_connects(ctx, a.source_wire, a.sink_wire),
    ensures
        !no_route_exists(ctx, a, b),
{
    if a.source_wire == a.sink_wire {
        let p = seq![a.source_wire];
        assert(valid_path(ctx, p, a.source_wire, a.sink_wire, b));
    } else {
        let p = seq![a.source_wire, a.sink_wire];
        assert(valid_path(ctx, p, a.source_wire, a.sink_wire, b));
    }
}

/// The two terminal states of an arc.
pub open spec fn arc_terminal(s: ArcState) -> bool {
    s is Committed || s is Failed
}

/// The router performs exactly two composite moves on an arc — find a
/// path and commit it, or rip a committed path up and requeue — plus
/// the final failure of a still-unrouted arc. Each is a chain of
/// allowed steps of the machine, and no terminal state has a way out.
pub proof fn lemma_router_moves_follow_machine()
    ensures
        arc_step_allowed(ArcState::Unrouted, ArcState::PathFound) && arc_step_allowed(
            ArcState::PathFound,
            ArcState::Committed,
        ),
        arc_step_allowed(ArcState::Committed, ArcState::RippedUp) && arc_step_allowed(
            ArcState::RippedUp,
            ArcState::Unrouted,
        ),
        arc_step_allowed(ArcState::Unrouted, ArcState::Failed),
        forall|s: ArcState| arc_terminal(ArcState::Failed) && !arc_step_allowed(ArcState::Failed, s),
        forall|s: ArcState| !(arc_step_allowed(ArcState::Committed, s) && s is Unrouted),
{
}

/// The final word on one arc: its terminal state, the committed path
/// when it was routed, and whether it failed because the iteration
/// budget ran out while its path rode over-subscribed wires.
pub struct ArcOutcome {
    pub state: ArcState,
    pub path: Option<Vec<usize>>,
    pub congested: bool,
}

/// How many outcomes of a list are committed.
pub open spec fn committed_count(s: Seq<ArcOutcome>) -> nat
    decreases s.len(),
{
    if s.len() == 0 {
        0
    } else {
        committed_count(s.drop_last()) + if s.last().state is Committed {
            1nat
        } else {
            0nat
        }
    }
}

/// A list of committed outcomes is all committed.
pub proof fn lemma_committed_count_full(s: Seq<ArcOutcome>)
    requires
        forall|i: int| 0 <= i < s.len() ==> (#[trigger] s[i]).state is Committed,
    ensures
        committed_count(s) == s.len(),
    decreases s.len(),
{
    if s.len() > 0 {
        lemma_committed_count_full(s.drop_last());
    }
}

/// The lifecycle of one worker.
#[derive(Clone, Copy, Debug, PartialEq, Eq, Structural)]
pub enum WorkerPhase {
    Pending,
    Routing,
    Done,
}

/// One routing worker: a bounding box, a diagnostic name, and its
/// phase. A worker routes exactly one region's arc list, then is done
/// whether or not every arc succeeded.
pub struct RouterThread {
    pub bbox: BBox,
    pub name: Vec<u8>,
    pub phase: WorkerPhase,
}

impl RouterThread {
    pub fn new(bbox: BBox, name: Vec<u8>) -> (t: RouterThread)
        ensures
            t.bbox == bbox,
            t.name@ == name@,
            t.phase is Pending,
    {
        RouterThread { bbox, name, phase: WorkerPhase::Pending }
    }
}

/// The aggregate result of one worker's run.
#[derive(Clone, Copy, Debug, PartialEq, Eq, Structural)]
pub struct RouteStats {
    pub committed: usize,
    pub failed: usize,
    pub converged: bool,
}

/// The shared router configuration: the two scalar weights of the cost
/// function.
#[derive(Clone, Copy, Debug, PartialEq, Eq, Structural)]
pub struct Router {
    pub pressure: u32,
    pub history_factor: u32,
}

/// Whether some wire of the path is currently used beyond capacity.
fn path_touches_overused(state: &RoutingResourceState, path: &Vec<usize>) -> (r: bool)
    requires
        forall|i: int| 0 <= i < path@.len() ==> #[trigger] path@[i] < state.counters@.len(),
{
    let mut j: usize = 0;
    while j < path.len()
        invariant
            forall|i: int| 0 <= i < path@.len() ==> #[trigger] path@[i] < state.counters@.len(),
            0 <= j <= path@.len(),
        decreases path@.len() - j,
    {
        let c = state.counters[path[j]];
        if c.usage > c.capacity {
            return true;
        }
        j += 1;
    }
    false
}

impl Router {
    pub fn new(pressure: u32, history_factor: u32) -> (r: Router)
        ensures
            r.pressure == pressure,
            r.history_factor == history_factor,
    {
        Router { pressure, history_factor }
    }

    /// Fresh per-run routing state carrying this router's weights.
    pub fn init_state(&self, ctx: &Context) -> (s: RoutingResourceState)
        ensures
            s.wf(*ctx),
            s.pressure == self.pressure,
            s.history_factor == self.history_factor,
            forall|w: int|
                0 <= w < s.counters@.len() ==> #[trigger] s.counters@[w] == (ResourceCounters {
                    usage: 0,
                    history: 0,
                    capacity: ctx.wires@[w].capacity,
                }),
    {
        RoutingResourceState::new(ctx, self.pressure, self.history_factor)
    }

    /// Route one worker's arc list under negotiated congestion.
    ///
    /// Every arc ends in a terminal state: committed with a legal path
    /// through the worker's box, or failed. An arc fails exactly when
    /// no legal path through the box exists at all (the search is
    /// complete), or when the iteration budget ran out while its path
    /// rode over-subscribed wires — the latter marked `congested`,
    /// ripped up, and counted among the failed arcs. One arc's failure
    /// never aborts the worker. When the negotiation converged, no wire
    /// is left used beyond its capacity and no arc was failed for
    /// congestion. The worker ends in the done phase regardless.
    pub fn route(
        &self,
        ctx: &Context,
        state: &mut RoutingResourceState,
        thread: &mut RouterThread,
        arcs: &Vec<RouteArc>,
        budget: u32,
    ) -> (r: (Vec<ArcOutcome>, RouteStats))
        requires
            ctx.wf(),
            old(state).wf(*ctx),
            arcs_wf(arcs@, *ctx),
            old(thread).phase is Pending,
        ensures
            final(state).wf(*ctx),
            final(state).pressure == old(state).pressure,
            final(state).history_factor == old(state).history_factor,
            final(thread).phase is Done,
            final(thread).bbox == old(thread).bbox,
            final(thread).name@ == old(thread).name@,
            r.0@.len() == arcs@.len(),
            forall|i: int| 0 <= i < r.0@.len() ==> arc_terminal((#[trigger] r.0@[i]).state),
            forall|i: int|
                0 <= i < r.0@.len() ==> ((#[trigger] r.0@[i]).state is Committed <==> r.0@[i].path
                    is Some),
            forall|i: int|
                0 <= i < r.0@.len() && (#[trigger] r.0@[i]).path is Some ==> valid_path(
                    *ctx,
                    r.0@[i].path->0@,
                    arcs@[i].source_wire,
                    arcs@[i].sink_wire,
                    old(thread).bbox,
                ),
            forall|i: int|
                0 <= i < r.0@.len() ==> ((#[trigger] r.0@[i]).state is Failed <==> no_route_exists(
                    *ctx,
                    arcs@[i],
                    old(thread).bbox,
                ) || r.0@[i].congested),
            forall|i: int|
                0 <= i < r.0@.len() && (#[trigger] r.0@[i]).congested ==> r.0@[i].state is Failed
                    && !no_route_exists(*ctx, arcs@[i], old(thread).bbox),
            r.1.committed == committed_count(r.0@),
            r.1.committed + r.1.failed == arcs@.len(),
            r.1.converged ==> final(state).no_overuse(),
            r.1.converged ==> forall|i: int| 0 <= i < r.0@.len() ==> !(#[trigger] r.0@[i]).congested,
            r.1.converged && all_directly_connected(*ctx, arcs@) ==> r.1.failed == 0,
    {
        thread.phase = WorkerPhase::Routing;
        let ghost bb = thread.bbox;
        let ghost p0 = state.pressure;
        let ghost h0 = state.history_factor;
        let mut outcomes: Vec<ArcOutcome> = Vec::new();
        let mut i: usize = 0;
        while i < arcs.len()
            invariant
                0 <= i <= arcs@.len(),
                outcomes@.len() == i,
                forall|t: int|
                    0 <= t < outcomes@.len() ==> (#[trigger] outcomes@[t]).state is Unrouted
                        && outcomes@[t].path is None && !outcomes@[t].congested,
            decreases arcs@.len() - i,
        {
            outcomes.push(ArcOutcome { state: ArcState::Unrouted, path: None, congested: false });
            i += 1;
        }
        let mut it: u32 = 0;
        let mut converged: bool = false;
        loop
            invariant_except_break
                !converged,
            invariant
                ctx.wf(),
                arcs_wf(arcs@, *ctx),
                state.wf(*ctx),
                state.pressure == p0,
                state.history_factor == h0,
                thread.bbox == bb,
                outcomes@.len() == arcs@.len(),
                it <= budget,
                forall|t: int|
                    0 <= t < outcomes@.len() ==> ((#[trigger] outcomes@[t]).state is Committed
                        <==> outcomes@[t].path is Some),
                forall|t: int|
                    0 <= t < outcomes@.len() ==> (#[trigger] outcomes@[t]).state is Committed || (
                    outcomes@[t]).state is Unrouted,
                forall|t: int|
                    0 <= t < outcomes@.len() && (#[trigger] outcomes@[t]).path is Some
                        ==> valid_path(
                        *ctx,
                        outcomes@[t].path->0@,
                        arcs@[t].source_wire,
                        arcs@[t].sink_wire,
                        bb,
                    ),
                forall|t: int| 0 <= t < outcomes@.len() ==> !(#[trigger] outcomes@[t]).congested,
            ensures
                ctx.wf(),
                state.wf(*ctx),
                state.pressure == p0,
                state.history_factor == h0,
                thread.bbox == bb,
                outcomes@.len() == arcs@.len(),
                forall|t: int|
                    0 <= t < outcomes@.len() ==> ((#[trigger] outcomes@[t]).state is Committed
                        <==> outcomes@[t].path is Some),
                forall|t: int|
                    0 <= t < outcomes@.len() ==> (#[trigger] outcomes@[t]).state is Committed || (
                    outcomes@[t]).state is Unrouted,
                forall|t: int|
                    0 <= t < outcomes@.len() && (#[trigger] outcomes@[t]).path is Some
                        ==> valid_path(
                        *ctx,
                        outcomes@[t].path->0@,
                        arcs@[t].source_wire,
                        arcs@[t].sink_wire,
                        bb,
                    ),
                converged ==> state.no_overuse(),
                forall|t: int| 0 <= t < outcomes@.len() ==> !(#[trigger] outcomes@[t]).congested,
                forall|t: int|
                    0 <= t < outcomes@.len() ==> (#[trigger] outcomes@[t]).state is Committed || (
                    outcomes@[t].state is Unrouted && no_route_exists(*ctx, arcs@[t], bb)),
            decreases budget - it,
        {
            let mut j: usize = 0;
            while j < arcs.len()
                invariant
                    ctx.wf(),
                    arcs_wf(arcs@, *ctx),
                    state.wf(*ctx),
                    state.pressure == p0,
                    state.history_factor == h0,
                    thread.bbox == bb,
                    0 <= j <= arcs@.len(),
                    outcomes@.len() == arcs@.len(),
                    forall|t: int|
                        0 <= t < outcomes@.len() ==> ((#[trigger] outcomes@[t]).state is Committed
                            <==> outcomes@[t].path is Some),
                    forall|t: int|
                        0 <= t < outcomes@.len() ==> (#[trigger] outcomes@[t]).state is Committed
                            || (outcomes@[t]).state is Unrouted,
                    forall|t: int|
                        0 <= t < outcomes@.len() && (#[trigger] outcomes@[t]).path is Some
                            ==> valid_path(
                            *ctx,
                            outcomes@[t].path->0@,
                            arcs@[t].source_wire,
                            arcs@[t].sink_wire,
                            bb,
                        ),
                    forall|t: int|
                        0 <= t < j ==> (#[trigger] outcomes@[t]).state is Committed || (
                        outcomes@[t].state is Unrouted && no_route_exists(*ctx, arcs@[t], bb)),
                    forall|t: int|
                        0 <= t < outcomes@.len() ==> !(#[trigger] outcomes@[t]).congested,
                decreases arcs@.len() - j,
            {
                let pending = outcomes[j].state == ArcState::Unrouted;
                if pending {
                    let a = arcs[j];
                    match find_path(ctx, state, a.source_wire, a.sink_wire, thread.bbox) {
                        Some(found) => {
                            commit_path(state, &found);
                            outcomes[j] = ArcOutcome {
                                state: ArcState::Committed,
                                path: Some(found),
                                congested: false,
                            };
                        },
                        None => {
                        },
                    }
                }
                j += 1;
            }
            let overused = state.find_overused();
            if overused.len() == 0 {
                converged = true;
                assert(state.no_overuse()) by {
                    assert(forall|w: int|
                        0 <= w < state.counters@.len() && (#[trigger] state.counters@[w]).usage
                            > state.counters@[w].capacity ==> overused@.contains(w as usize));
                }
                break;
            }
            if it == budget {
                break;
            }
            let mut j: usize = 0;
            while j < arcs.len()
                invariant
                    ctx.wf(),
                    arcs_wf(arcs@, *ctx),
                    state.wf(*ctx),
                    state.pressure == p0,
                    state.history_factor == h0,
                    thread.bbox == bb,
                    0 <= j <= arcs@.len(),
                    outcomes@.len() == arcs@.len(),
                    forall|t: int|
                        0 <= t < outcomes@.len() ==> ((#[trigger] outcomes@[t]).state is Committed
                            <==> outcomes@[t].path is Some),
                    forall|t: int|
                        0 <= t < outcomes@.len() ==> (#[trigger] outcomes@[t]).state is Committed
                            || (outcomes@[t]).state is Unrouted,
                    forall|t: int|
                        0 <= t < outcomes@.len() && (#[trigger] outcomes@[t]).path is Some
                            ==> valid_path(
                            *ctx,
                            outcomes@[t].path->0@,
                            arcs@[t].source_wire,
                            arcs@[t].sink_wire,
                            bb,
                        ),
                        forall|t: int|
                        0 <= t < outcomes@.len() ==> !(#[trigger] outcomes@[t]).congested,
            decreases arcs@.len() - j,
            {
                let mut ripped: bool = false;
                match &outcomes[j].path {
                    Some(pp) => {
                        if path_touches_overused(state, pp) {
                            rip_up_path(state, pp);
                            ripped = true;
                        }
                    },
                    None => {},
                }
                if ripped {
                    outcomes[j] = ArcOutcome {
                        state: ArcState::Unrouted,
                        path: None,
                        congested: false,
                    };
                }
                j += 1;
            }
            bump_history(state, &overused);
            it += 1;
        }
        if !converged {
            let mut j: usize = 0;
            while j < arcs.len()
                invariant
                    ctx.wf(),
                    arcs_wf(arcs@, *ctx),
                    state.wf(*ctx),
                    state.pressure == p0,
                    state.history_factor == h0,
                    0 <= j <= arcs@.len(),
                    outcomes@.len() == arcs@.len(),
                    forall|t: int|
                        0 <= t < outcomes@.len() ==> ((#[trigger] outcomes@[t]).state is Committed
                            <==> outcomes@[t].path is Some),
                    forall|t: int|
                        0 <= t < outcomes@.len() && (#[trigger] outcomes@[t]).path is Some
                            ==> valid_path(
                            *ctx,
                            outcomes@[t].path->0@,
                            arcs@[t].source_wire,
                            arcs@[t].sink_wire,
                            bb,
                        ),
                    forall|t: int|
                        0 <= t < outcomes@.len() ==> (#[trigger] outcomes@[t]).state is Committed
                            || (outcomes@[t].state is Unrouted && no_route_exists(
                            *ctx,
                            arcs@[t],
                            bb,
                        )) || (outcomes@[t].state is Failed && outcomes@[t].congested),
                    forall|t: int|
                        0 <= t < outcomes@.len() && (#[trigger] outcomes@[t]).congested
                            ==> outcomes@[t].state is Failed && !no_route_exists(
                            *ctx,
                            arcs@[t],
                            bb,
                        ),
                decreases arcs@.len() - j,
            {
                let mut ripped: bool = false;
                match &outcomes[j].path {
                    Some(pp) => {
                        if path_touches_overused(state, pp) {
                            rip_up_path(state, pp);
                            ripped = true;
                        }
                    },
                    None => {},
                }
                if ripped {
                    proof {
                        assert(!no_route_exists(*ctx, arcs@[j as int], bb)) by {
                            assert(valid_path(
                                *ctx,
                                outcomes@[j as int].path->0@,
                                arcs@[j as int].source_wire,
                                arcs@[j as int].sink_wire,
                                bb,
                            ));
                        }
                    }
                    outcomes[j] = ArcOutcome { state: ArcState::Failed, path: None, congested: true };
                }
                j += 1;
            }
        }
        let mut committed: usize = 0;
        let mut j: usize = 0;
        while j < arcs.len()
            invariant
                0 <= j <= arcs@.len(),
                outcomes@.len() == arcs@.len(),
                committed <= j,
                committed == committed_count(outcomes@.take(j as int)),
                forall|t: int|
                    0 <= t < outcomes@.len() ==> ((#[trigger] outcomes@[t]).state is Committed
                        <==> outcomes@[t].path is Some),
                forall|t: int|
                    0 <= t < j ==> arc_terminal((#[trigger] outcomes@[t]).state),
                forall|t: int|
                    j <= t < outcomes@.len() ==> (#[trigger] outcomes@[t]).state is Committed || (
                    outcomes@[t].state is Unrouted && no_route_exists(*ctx, arcs@[t], bb)) || (
                    outcomes@[t].state is Failed && outcomes@[t].congested),
                forall|t: int|
                    0 <= t < j ==> ((#[trigger] outcomes@[t]).state is Failed <==> no_route_exists(
                        *ctx,
                        arcs@[t],
                        bb,
                    ) || outcomes@[t].congested),
                forall|t: int|
                    0 <= t < outcomes@.len() && (#[trigger] outcomes@[t]).congested
                        ==> outcomes@[t].state is Failed && !no_route_exists(*ctx, arcs@[t], bb),
                converged ==> forall|t: int|
                    0 <= t < outcomes@.len() ==> !(#[trigger] outcomes@[t]).congested,
                forall|t: int|
                    0 <= t < outcomes@.len() && (#[trigger] outcomes@[t]).path is Some
                        ==> valid_path(
                        *ctx,
                        outcomes@[t].path->0@,
                        arcs@[t].source_wire,
                        arcs@[t].sink_wire,
                        bb,
                    ),
            decreases arcs@.len() - j,
        {
            let ghost before = outcomes@;
            let state_now = outcomes[j].state;
            if state_now == ArcState::Unrouted {
                outcomes[j] = ArcOutcome { state: ArcState::Failed, path: None, congested: false };
            } else if state_now == ArcState::Committed {
                committed += 1;
                proof {
                    assert(!no_route_exists(*ctx, arcs@[j as int], bb)) by {
                        assert(valid_path(
                            *ctx,
                            outcomes@[j as int].path->0@,
                            arcs@[j as int].source_wire,
                            arcs@[j as int].sink_wire,
                            bb,
                        ));
                    }
                }
            }
            proof {
                assert(outcomes@.take(j + 1).drop_last() =~= outcomes@.take(j as int));
                assert(before.take(j as int) =~= outcomes@.take(j as int));
                assert(outcomes@.take(j + 1).last() == outcomes@[j as int]);
            }
            j += 1;
        }
        proof {
            assert(outcomes@.take(outcomes@.len() as int) =~= outcomes@);
            if converged && all_directly_connected(*ctx, arcs@) {
                assert forall|t: int|
                    0 <= t < outcomes@.len() implies (#[trigger] outcomes@[t]).state
                    is Committed by {
                    lemma_connected_has_route(*ctx, arcs@[t], bb);
                }
                lemma_committed_count_full(outcomes@);
            }
        }
        let failed = arcs.len() - committed;
        thread.phase = WorkerPhase::Done;
        (outcomes, RouteStats { committed, failed, converged })
    }
}

} // verus!
