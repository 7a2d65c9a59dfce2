//! The routing-resource and connectivity model.
//!
//! The host that owns placement exposes a snapshot of its state as plain
//! values: the grid dimensions, the wire and pip tables of the resource
//! graph, and per-net connectivity (driver, sinks, and the candidate wires
//! answering the host's source-wire and sink-wire queries). The routing
//! core works only on this snapshot and never touches host internals.

use vstd::prelude::*;
use crate::geom::{BBox, Coord};

verus! {

/// A physical wire of the resource graph. The name is used only for
/// reserved-pattern special-casing and diagnostics; the capacity says
/// how many arcs may ride the wire before it counts as congested.
pub struct Wire {
    pub name: Vec<u8>,
    pub loc: Coord,
    pub base_delay: u64,
    pub capacity: u64,
}

/// A programmable interconnect point: a directed edge of the resource
/// graph from one wire to another, at a physical location.
#[derive(Clone, Copy, Debug, PartialEq, Eq, Structural)]
pub struct Pip {
    pub from: usize,
    pub to: usize,
    pub loc: Coord,
}

/// The host snapshot of the routing-resource space.
pub struct Context {
    pub width: u64,
    pub height: u64,
    pub wires: Vec<Wire>,
    pub pips: Vec<Pip>,
}

impl Context {
    /// Every pip endpoint names an existing wire, and all geometry lies
    /// on the grid.
    pub open spec fn wf(self) -> bool {
        &&& forall|i: int|
            0 <= i < self.pips@.len() ==> #[trigger] self.pips@[i].from < self.wires@.len()
                && self.pips@[i].to < self.wires@.len()
        &&& forall|i: int|
            0 <= i < self.pips@.len() ==> self.grid_box().spec_contains(#[trigger] self.pips@[i].loc)
        &&& forall|i: int|
            0 <= i < self.wires@.len() ==> self.grid_box().spec_contains(
                #[trigger] self.wires@[i].loc,
            )
    }

    /// The bounding box of the whole grid.
    pub open spec fn grid_box(self) -> BBox {
        BBox { min: Coord { x: 0, y: 0 }, max: Coord { x: self.width, y: self.height } }
    }

    /// Runtime form of the grid bounding box.
    pub fn grid_bbox(&self) -> (b: BBox)
        ensures
            b == self.grid_box(),
    {
        BBox { min: Coord { x: 0, y: 0 }, max: Coord { x: self.width, y: self.height } }
    }

    pub fn grid_dim_x(&self) -> (r: u64)
        ensures
            r == self.width,
    {
        self.width
    }

    pub fn grid_dim_y(&self) -> (r: u64)
        ensures
            r == self.height,
    {
        self.height
    }

    /// The name of a wire, for pattern tests and diagnostics.
    pub fn name_of_wire(&self, wire: usize) -> (r: &Vec<u8>)
        requires
            wire < self.wires@.len(),
        ensures
            r@ == self.wires@[wire as int].name@,
    {
        &self.wires[wire].name
    }
}

/// The driving end of a net: the driver cell's location and the source
/// wire the host resolved for it.
#[derive(Clone, Copy, Debug, PartialEq, Eq, Structural)]
pub struct Driver {
    pub loc: Coord,
    pub source_wire: usize,
}

/// One sink ("user") pin of a net: the sink cell's location and the
/// candidate sink wires the host enumerated for this pin.
pub struct SinkPin {
    pub loc: Coord,
    pub wires: Vec<usize>,
}

/// A logical signal: an optional driver, its ordered sink pins, and the
/// global flag. Nets flagged global are excluded from per-net routing.
pub struct Net {
    pub name: Vec<u8>,
    pub is_global: bool,
    pub driver: Option<Driver>,
    pub users: Vec<SinkPin>,
}

/// The net table, built once per routing invocation and read-only
/// afterwards. Net identity is the index into the table.
pub struct Nets {
    pub nets: Vec<Net>,
}

impl Nets {
    /// Every wire id a net mentions names an existing wire of `ctx`,
    /// and every cell location it mentions lies on the grid.
    pub open spec fn wf(self, ctx: Context) -> bool {
        forall|n: int|
            0 <= n < self.nets@.len() ==> #[trigger] net_wires_in_bounds(
                self.nets@[n],
                ctx.wires@.len() as int,
            ) && net_locs_in_grid(self.nets@[n], ctx.grid_box())
    }

    pub fn len(&self) -> (r: usize)
        ensures
            r == self.nets@.len(),
    {
        self.nets.len()
    }

    /// The display name of a net, for diagnostics.
    pub fn name_from_index(&self, net: usize) -> (r: &Vec<u8>)
        requires
            net < self.nets@.len(),
        ensures
            r@ == self.nets@[net as int].name@,
    {
        &self.nets[net].name
    }
}

/// All wire ids mentioned by one net are below `n_wires`.
pub open spec fn net_wires_in_bounds(net: Net, n_wires: int) -> bool {
    &&& match net.driver {
        Some(d) => d.source_wire < n_wires,
        None => true,
    }
    &&& forall|u: int, w: int|
        0 <= u < net.users@.len() && 0 <= w < net.users@[u].wires@.len()
            ==> #[trigger] net.users@[u].wires@[w] < n_wires
}

/// All cell locations one net mentions lie in the grid box.
pub open spec fn net_locs_in_grid(net: Net, grid: BBox) -> bool {
    &&& match net.driver {
        Some(d) => grid.spec_contains(d.loc),
        None => true,
    }
    &&& forall|u: int|
        0 <= u < net.users@.len() ==> grid.spec_contains((#[trigger] net.users@[u]).loc)
}

/// One net violating either bound refutes the whole table's
/// well-formedness.
proof fn lemma_bad_net_refutes_wf(nets: Nets, ctx: Context, n: int)
    requires
        0 <= n < nets.nets@.len(),
        !(net_wires_in_bounds(nets.nets@[n], ctx.wires@.len() as int) && net_locs_in_grid(
            nets.nets@[n],
            ctx.grid_box(),
        )),
    ensures
        !nets.wf(ctx),
{
}

/// One sink pin keeps its location on the grid and its candidate
/// wires inside the wire table.
pub open spec fn pin_in_bounds(pin: SinkPin, n_wires: int, grid: BBox) -> bool {
    grid.spec_contains(pin.loc) && (forall|w: int|
        0 <= w < pin.wires@.len() ==> #[trigger] pin.wires@[w] < n_wires)
}

/// Whether a snapshot is usable by the routing core: every index in
/// bounds and every location on the grid. Returns exactly the
/// conjunction of the two well-formedness predicates, so an unverified
/// shell can establish them before calling in.
pub fn check_snapshot(ctx: &Context, nets: &Nets) -> (r: bool)
    ensures
        r == (ctx.wf() && nets.wf(*ctx)),
{
    let grid = ctx.grid_bbox();
    let n_wires = ctx.wires.len();
    let mut i: usize = 0;
    while i < ctx.pips.len()
        invariant
            grid == ctx.grid_box(),
            n_wires == ctx.wires@.len(),
            0 <= i <= ctx.pips@.len(),
            forall|t: int|
                0 <= t < i ==> (#[trigger] ctx.pips@[t]).from < n_wires && ctx.pips@[t].to
                    < n_wires && ctx.grid_box().spec_contains(ctx.pips@[t].loc),
        decreases ctx.pips@.len() - i,
    {
        let p = ctx.pips[i];
        if !(p.from < n_wires && p.to < n_wires && grid.contains(p.loc)) {
            assert(!ctx.wf());
            return false;
        }
        i += 1;
    }
    let mut i: usize = 0;
    while i < ctx.wires.len()
        invariant
            grid == ctx.grid_box(),
            n_wires == ctx.wires@.len(),
            0 <= i <= ctx.wires@.len(),
            forall|t: int|
                0 <= t < ctx.pips@.len() ==> (#[trigger] ctx.pips@[t]).from < n_wires
                    && ctx.pips@[t].to < n_wires && ctx.grid_box().spec_contains(ctx.pips@[t].loc),
            forall|t: int|
                0 <= t < i ==> ctx.grid_box().spec_contains((#[trigger] ctx.wires@[t]).loc),
        decreases ctx.wires@.len() - i,
    {
        if !grid.contains(ctx.wires[i].loc) {
            assert(!ctx.wf());
            return false;
        }
        i += 1;
    }
    assert(ctx.wf());
    let mut n: usize = 0;
    while n < nets.nets.len()
        invariant
            grid == ctx.grid_box(),
            n_wires == ctx.wires@.len(),
            ctx.wf(),
            0 <= n <= nets.nets@.len(),
            forall|t: int|
                0 <= t < n ==> #[trigger] net_wires_in_bounds(
                    nets.nets@[t],
                    ctx.wires@.len() as int,
                ) && net_locs_in_grid(nets.nets@[t], ctx.grid_box()),
        decreases nets.nets@.len() - n,
    {
        let net = &nets.nets[n];
        let driver_ok = match &net.driver {
            Some(d) => d.source_wire < n_wires && grid.contains(d.loc),
            None => true,
        };
        if !driver_ok {
            proof {
                assert(!(net_wires_in_bounds(nets.nets@[n as int], ctx.wires@.len() as int)
                    && net_locs_in_grid(nets.nets@[n as int], ctx.grid_box())));
                lemma_bad_net_refutes_wf(*nets, *ctx, n as int);
            }
            return false;
        }
        let mut u: usize = 0;
        while u < net.users.len()
            invariant
                grid == ctx.grid_box(),
                n_wires == ctx.wires@.len(),
                0 <= n < nets.nets@.len(),
                0 <= u <= net.users@.len(),
                net == &nets.nets@[n as int],
                forall|t: int|
                    0 <= t < u ==> pin_in_bounds(
                        #[trigger] net.users@[t],
                        n_wires as int,
                        ctx.grid_box(),
                    ),
            decreases net.users@.len() - u,
        {
            let pin = &net.users[u];
            if !grid.contains(pin.loc) {
                proof {
                    assert(!ctx.grid_box().spec_contains(
                        nets.nets@[n as int].users@[u as int].loc,
                    ));
                    assert(!net_locs_in_grid(nets.nets@[n as int], ctx.grid_box()));
                    lemma_bad_net_refutes_wf(*nets, *ctx, n as int);
                }
                return false;
            }
            let mut w: usize = 0;
            while w < pin.wires.len()
                invariant
                    n_wires == ctx.wires@.len(),
                    0 <= n < nets.nets@.len(),
                    0 <= u < net.users@.len(),
                    0 <= w <= pin.wires@.len(),
                    net == &nets.nets@[n as int],
                    pin == &net.users@[u as int],
                    forall|t: int| 0 <= t < w ==> #[trigger] pin.wires@[t] < n_wires,
                decreases pin.wires@.len() - w,
            {
                if !(pin.wires[w] < n_wires) {
                    proof {
                        assert(nets.nets@[n as int].users@[u as int].wires@[w as int] >= n_wires);
                        assert(!net_wires_in_bounds(nets.nets@[n as int], ctx.wires@.len() as int));
                        lemma_bad_net_refutes_wf(*nets, *ctx, n as int);
                    }
                    return false;
                }
                w += 1;
            }
            assert(pin_in_bounds(net.users@[u as int], n_wires as int, ctx.grid_box()));
            u += 1;
        }
        proof {
            assert forall|uu: int, ww: int|
                0 <= uu < net.users@.len() && 0 <= ww < net.users@[uu].wires@.len() implies (
            #[trigger] net.users@[uu].wires@[ww]) < ctx.wires@.len() by {
                assert(pin_in_bounds(net.users@[uu], n_wires as int, ctx.grid_box()));
            }
            assert forall|uu: int|
                0 <= uu < net.users@.len() implies ctx.grid_box().spec_contains(
                (#[trigger] net.users@[uu]).loc,
            ) by {
                assert(pin_in_bounds(net.users@[uu], n_wires as int, ctx.grid_box()));
            }
            assert(net_wires_in_bounds(nets.nets@[n as int], ctx.wires@.len() as int));
            assert(net_locs_in_grid(nets.nets@[n as int], ctx.grid_box()));
            assert forall|t: int|
                0 <= t < n + 1 implies #[trigger] net_wires_in_bounds(
                nets.nets@[t],
                ctx.wires@.len() as int,
            ) && net_locs_in_grid(nets.nets@[t], ctx.grid_box()) by {
                if t == n as int {
                    assert(net_wires_in_bounds(nets.nets@[t], ctx.wires@.len() as int));
                }
            }
        }
        n += 1;
    }
    assert(nets.wf(*ctx));
    true
}

/// A point-to-point routing obligation: route one candidate source wire
/// to one candidate sink wire for one net. The net's display name is
/// looked up from the net table by `net`.
#[derive(Clone, Copy, Debug, PartialEq, Eq, Structural)]
pub struct RouteArc {
    pub source_wire: usize,
    pub source_loc: Coord,
    pub sink_wire: usize,
    pub sink_loc: Coord,
    pub net: usize,
}

impl RouteArc {
    pub fn new(
        source_wire: usize,
        source_loc: Coord,
        sink_wire: usize,
        sink_loc: Coord,
        net: usize,
    ) -> (a: RouteArc)
        ensures
            a == (RouteArc { source_wire, source_loc, sink_wire, sink_loc, net }),
    {
        RouteArc { source_wire, source_loc, sink_wire, sink_loc, net }
    }

    pub fn source_wire(&self) -> (r: usize)
        ensures
            r == self.source_wire,
    {
        self.source_wire
    }

    pub fn sink_wire(&self) -> (r: usize)
        ensures
            r == self.sink_wire,
    {
        self.sink_wire
    }

    /// Both wire ids of the arc name existing wires of `ctx`.
    pub open spec fn wf(self, ctx: Context) -> bool {
        self.source_wire < ctx.wires@.len() && self.sink_wire < ctx.wires@.len()
    }
}

} // verus!
