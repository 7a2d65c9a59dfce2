//! Arc extraction: from per-net connectivity to the explicit arc list.
//!
//! A net flagged global contributes no arcs, and so does a net without a
//! driver (a deliberate skip, not an error). Any other net contributes one
//! arc per (sink pin, candidate sink wire) pair, each from the driver's
//! source wire to that candidate wire. Extraction reads the snapshot and
//! nothing else, so its result is fully determined by the net table.

use vstd::prelude::*;
use crate::design::{Context, Driver, Net, Nets, RouteArc, SinkPin, net_locs_in_grid, net_wires_in_bounds};

verus! {

/// The arcs one sink pin contributes: one per candidate sink wire.
pub open spec fn pin_arcs(d: Driver, pin: SinkPin, net_index: usize) -> Seq<RouteArc> {
    Seq::new(
        pin.wires@.len(),
        |w: int|
            RouteArc {
                source_wire: d.source_wire,
                source_loc: d.loc,
                sink_wire: pin.wires@[w],
                sink_loc: pin.loc,
                net: net_index,
            },
    )
}

/// The arcs a driver contributes for a sequence of sink pins, in pin
/// order.
pub open spec fn pins_arcs(d: Driver, users: Seq<SinkPin>, net_index: usize) -> Seq<RouteArc>
    decreases users.len(),
{
    if users.len() == 0 {
        Seq::empty()
    } else {
        pins_arcs(d, users.drop_last(), net_index) + pin_arcs(d, users.last(), net_index)
    }
}

/// All arcs one net contributes: none when the net is global or has no
/// driver, else one per (sink pin, candidate sink wire) pair.
pub open spec fn net_arcs(net: Net, net_index: usize) -> Seq<RouteArc> {
    match net.driver {
        Some(d) => if net.is_global {
            Seq::empty()
        } else {
            pins_arcs(d, net.users@, net_index)
        },
        None => Seq::empty(),
    }
}

/// The arcs contributed by the first `k` nets of the table.
pub open spec fn extracted_prefix(nets: Seq<Net>, k: int) -> Seq<RouteArc>
    decreases k,
{
    if k <= 0 {
        Seq::empty()
    } else {
        extracted_prefix(nets, k - 1) + net_arcs(nets[k - 1], (k - 1) as usize)
    }
}

/// The full arc list of a net table.
pub open spec fn extracted(nets: Seq<Net>) -> Seq<RouteArc> {
    extracted_prefix(nets, nets.len() as int)
}

/// A net flagged global contributes zero arcs, whatever its driver and
/// sink connectivity.
pub proof fn lemma_global_net_contributes_nothing(net: Net, net_index: usize)
    requires
        net.is_global,
    ensures
        net_arcs(net, net_index) == Seq::<RouteArc>::empty(),
{
}

/// A net with no driver cell contributes zero arcs.
pub proof fn lemma_driverless_net_contributes_nothing(net: Net, net_index: usize)
    requires
        net.driver is None,
    ensures
        net_arcs(net, net_index) == Seq::<RouteArc>::empty(),
{
}

/// Extraction is idempotent: two extractions against the same unmodified
/// net table yield the same arcs, in particular the same arc multiset.
pub proof fn lemma_extraction_idempotent(a1: Seq<RouteArc>, a2: Seq<RouteArc>, nets: Seq<Net>)
    requires
        a1 == extracted(nets),
        a2 == extracted(nets),
    ensures
        a1 == a2,
        a1.to_multiset() == a2.to_multiset(),
{
}

/// Build the full arc list from the net table. The result is exactly the
/// arc sequence `extracted` describes, so it is fully determined by the
/// snapshot; every arc names wires of `ctx` and a net of the table.
pub fn extract_arcs_from_nets(ctx: &Context, nets: &Nets) -> (arcs: Vec<RouteArc>)
    requires
        nets.wf(*ctx),
    ensures
        arcs@ == extracted(nets.nets@),
        forall|i: int| 0 <= i < arcs@.len() ==> (#[trigger] arcs@[i]).wf(*ctx),
        forall|i: int| 0 <= i < arcs@.len() ==> (#[trigger] arcs@[i]).net < nets.nets@.len(),
        forall|i: int|
            0 <= i < arcs@.len() ==> ctx.grid_box().spec_contains(
                (#[trigger] arcs@[i]).source_loc,
            ) && ctx.grid_box().spec_contains(arcs@[i].sink_loc),
{
    let ghost all_nets = nets.nets@;
    let mut arcs: Vec<RouteArc> = Vec::new();
    let mut n: usize = 0;
    while n < nets.nets.len()
        invariant
            nets.wf(*ctx),
            all_nets == nets.nets@,
            0 <= n <= all_nets.len(),
            arcs@ == extracted_prefix(all_nets, n as int),
            forall|i: int| 0 <= i < arcs@.len() ==> (#[trigger] arcs@[i]).wf(*ctx),
            forall|i: int| 0 <= i < arcs@.len() ==> (#[trigger] arcs@[i]).net < all_nets.len(),
            forall|i: int|
                0 <= i < arcs@.len() ==> ctx.grid_box().spec_contains(
                    (#[trigger] arcs@[i]).source_loc,
                ) && ctx.grid_box().spec_contains(arcs@[i].sink_loc),
        decreases all_nets.len() - n,
    {
        let net = &nets.nets[n];
        assert(net_wires_in_bounds(all_nets[n as int], ctx.wires@.len() as int));
        if !net.is_global {
            if let Some(d) = net.driver {
                let mut u: usize = 0;
                while u < net.users.len()
                    invariant
                        nets.wf(*ctx),
                        all_nets == nets.nets@,
                        0 <= n < all_nets.len(),
                        0 <= u <= net.users@.len(),
                        net == &nets.nets@[n as int],
                        !net.is_global,
                        net.driver == Some(d),
                        arcs@ == extracted_prefix(all_nets, n as int) + pins_arcs(
                            d,
                            net.users@.take(u as int),
                            n,
                        ),
                        forall|i: int| 0 <= i < arcs@.len() ==> (#[trigger] arcs@[i]).wf(*ctx),
                        forall|i: int|
                            0 <= i < arcs@.len() ==> (#[trigger] arcs@[i]).net < all_nets.len(),
                        forall|i: int|
                            0 <= i < arcs@.len() ==> ctx.grid_box().spec_contains(
                                (#[trigger] arcs@[i]).source_loc,
                            ) && ctx.grid_box().spec_contains(arcs@[i].sink_loc),
                    decreases net.users@.len() - u,
                {
                    let pin = &net.users[u];
                    let ghost base = arcs@;
                    let mut w: usize = 0;
                    while w < pin.wires.len()
                        invariant
                            nets.wf(*ctx),
                            all_nets == nets.nets@,
                            0 <= n < all_nets.len(),
                            0 <= u < net.users@.len(),
                            0 <= w <= pin.wires@.len(),
                            net == &nets.nets@[n as int],
                            pin == &net.users@[u as int],
                            net.driver == Some(d),
                            arcs@ == base + pin_arcs(d, *pin, n).take(w as int),
                            forall|i: int| 0 <= i < arcs@.len() ==> (#[trigger] arcs@[i]).wf(*ctx),
                            forall|i: int|
                                0 <= i < arcs@.len() ==> (#[trigger] arcs@[i]).net < all_nets.len(),
                            forall|i: int|
                                0 <= i < arcs@.len() ==> ctx.grid_box().spec_contains(
                                    (#[trigger] arcs@[i]).source_loc,
                                ) && ctx.grid_box().spec_contains(arcs@[i].sink_loc),
                        decreases pin.wires@.len() - w,
                    {
                        let arc = RouteArc {
                            source_wire: d.source_wire,
                            source_loc: d.loc,
                            sink_wire: pin.wires[w],
                            sink_loc: pin.loc,
                            net: n,
                        };
                        proof {
                            assert(net_wires_in_bounds(all_nets[n as int], ctx.wires@.len() as int));
                            assert(net_locs_in_grid(all_nets[n as int], ctx.grid_box()));
                            assert(all_nets[n as int].users@[u as int].wires@[w as int]
                                < ctx.wires@.len());
                            assert(ctx.grid_box().spec_contains(
                                all_nets[n as int].users@[u as int].loc,
                            ));
                            assert(pin_arcs(d, *pin, n).take(w + 1) =~= pin_arcs(d, *pin, n).take(
                                w as int,
                            ).push(arc));
                        }
                        arcs.push(arc);
                        w += 1;
                    }
                    proof {
                        assert(pin_arcs(d, *pin, n).take(pin.wires@.len() as int) =~= pin_arcs(
                            d,
                            *pin,
                            n,
                        ));
                        assert(net.users@.take(u + 1).drop_last() =~= net.users@.take(u as int));
                        assert(net.users@.take(u + 1).last() == net.users@[u as int]);
                        assert(pins_arcs(d, net.users@.take(u + 1), n) == pins_arcs(
                            d,
                            net.users@.take(u as int),
                            n,
                        ) + pin_arcs(d, *pin, n));
                    }
                    u += 1;
                }
                proof {
                    assert(net.users@.take(net.users@.len() as int) =~= net.users@);
                    assert(arcs@ == extracted_prefix(all_nets, n as int) + net_arcs(
                        all_nets[n as int],
                        n,
                    ));
                    assert(arcs@ == extracted_prefix(all_nets, n + 1));
                }
            } else {
                proof {
                    assert(net_arcs(all_nets[n as int], n) == Seq::<RouteArc>::empty());
                    assert(arcs@ =~= extracted_prefix(all_nets, n + 1));
                }
            }
        } else {
            proof {
                assert(net_arcs(all_nets[n as int], n) == Seq::<RouteArc>::empty());
                assert(arcs@ =~= extracted_prefix(all_nets, n + 1));
            }
        }
        n += 1;
    }
    arcs
}

} // verus!
