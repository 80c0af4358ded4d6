//! What a network holds, as sequences: the shape rule, and the facts about
//! shapes that the store and the algorithms share.
use vstd::prelude::*;
use crate::ieee::NAN;
use crate::network::{Edge, LayerTuple, OwnedLayerTuple};

verus! {

/// What a layer holds.
pub ghost struct LayerView {
    /// Weighted sums, one per node; empty on the input layer.
    pub z: Seq<u32>,
    /// Activations, one per node.
    pub a: Seq<u32>,
    /// Weights by source node, then destination node.
    pub w: Seq<Seq<u32>>,
    /// Biases by source node, then destination node.
    pub b: Seq<Seq<u32>>,
}

/// The rows of an edge table.
pub open spec fn rows(e: Edge) -> Seq<Seq<u32>> {
    e@.map_values(|r: Vec<u32>| r@)
}

/// A table of `n_from` rows with `n_to` entries each.
pub open spec fn is_grid(t: Seq<Seq<u32>>, n_from: nat, n_to: nat) -> bool {
    &&& t.len() == n_from
    &&& forall|i: int| 0 <= i < t.len() ==> (#[trigger] t[i]).len() == n_to
}

/// The shape rule for layer `i` of `net`: the input layer has activations
/// only; every other layer has one sum per node and one weight and one bias
/// per pair of a node of the layer before and a node of its own. The number
/// of nodes fits a machine word.
pub open spec fn layer_shaped(net: Seq<LayerView>, i: int) -> bool {
    if i == 0 {
        &&& net[i].a.len() <= usize::MAX
        &&& net[i].z.len() == 0
        &&& net[i].w.len() == 0
        &&& net[i].b.len() == 0
    } else {
        &&& net[i].a.len() <= usize::MAX
        &&& net[i].z.len() == net[i].a.len()
        &&& is_grid(net[i].w, net[i - 1].a.len(), net[i].a.len())
        &&& is_grid(net[i].b, net[i - 1].a.len(), net[i].a.len())
    }
}

/// Every layer of `net` obeys the shape rule.
pub open spec fn well_formed(net: Seq<LayerView>) -> bool {
    forall|i: int| 0 <= i < net.len() ==> #[trigger] layer_shaped(net, i)
}

/// What a layer given as borrowed arrays holds.
pub open spec fn borrowed_view(t: LayerTuple) -> LayerView {
    LayerView { z: t.0@, a: t.1@, w: rows(*t.2), b: rows(*t.3) }
}

/// What a layer given as owned arrays holds.
pub open spec fn owned_view(t: OwnedLayerTuple) -> LayerView {
    LayerView { z: t.0@, a: t.1@, w: rows(t.2), b: rows(t.3) }
}

/// What a sequence of layers given as owned arrays holds.
pub open spec fn owned_views(v: Seq<OwnedLayerTuple>) -> Seq<LayerView> {
    v.map_values(|t: OwnedLayerTuple| owned_view(t))
}

/// One layer as it is written: sums, activations, weights, biases.
pub type Record = (Seq<u32>, Seq<u32>, Seq<Seq<u32>>, Seq<Seq<u32>>);

/// A layer as a record.
pub open spec fn record_of(l: LayerView) -> Record {
    (l.z, l.a, l.w, l.b)
}

/// The layer that a record describes.
pub open spec fn layer_of(r: Record) -> LayerView {
    LayerView { z: r.0, a: r.1, w: r.2, b: r.3 }
}

/// The layers of a network as records, in order.
pub open spec fn records_of(net: Seq<LayerView>) -> Seq<Record> {
    net.map_values(|l: LayerView| record_of(l))
}

/// The network that a sequence of records describes.
pub open spec fn layers_of(records: Seq<Record>) -> Seq<LayerView> {
    records.map_values(|r: Record| layer_of(r))
}

/// Every array of the layer has a length that fits a machine word.
pub open spec fn layer_storable(l: LayerView) -> bool {
    &&& l.z.len() <= usize::MAX
    &&& l.a.len() <= usize::MAX
    &&& l.w.len() <= usize::MAX
    &&& l.b.len() <= usize::MAX
    &&& forall|f: int| 0 <= f < l.w.len() ==> (#[trigger] l.w[f]).len() <= usize::MAX
    &&& forall|f: int| 0 <= f < l.b.len() ==> (#[trigger] l.b[f]).len() <= usize::MAX
}

/// The network has a number of layers that fits a machine word, and so has
/// every array of every layer.
pub open spec fn storable(net: Seq<LayerView>) -> bool {
    &&& net.len() <= usize::MAX
    &&& forall|i: int| 0 <= i < net.len() ==> layer_storable(#[trigger] net[i])
}

/// The number of nodes on each layer.
pub open spec fn geometry_of(net: Seq<LayerView>) -> Seq<usize> {
    Seq::new(net.len(), |i: int| net[i].a.len() as usize)
}

/// A well-formed network has exactly the layers of its geometry, each with
/// the number of nodes that the geometry gives it: a network allocated for a
/// geometry answers every question for the size of a layer with the entry of
/// that geometry.
pub proof fn lemma_geometry_fidelity(net: Seq<LayerView>, geometry: Seq<usize>)
    requires
        well_formed(net),
        geometry_of(net) == geometry,
    ensures
        net.len() == geometry.len(),
        forall|i: int| 0 <= i < geometry.len() ==> (#[trigger] net[i]).a.len() == geometry[i],
{
    assert(geometry_of(net).len() == net.len());
    assert forall|i: int| 0 <= i < geometry.len() implies (#[trigger] net[i]).a.len() == geometry[i] by {
        assert(layer_shaped(net, i));
        assert(geometry_of(net)[i] == net[i].a.len() as usize);
    }
}

/// The number of edges that end in the layers before layer `l`.
pub open spec fn edges_before(net: Seq<LayerView>, l: int) -> int
    decreases l,
{
    if l <= 1 {
        0
    } else {
        edges_before(net, l - 1) + net[l - 2].a.len() * net[l - 1].a.len()
    }
}

/// The number of edges of the network.
pub open spec fn edge_total(net: Seq<LayerView>) -> int {
    edges_before(net, net.len() as int)
}

/// The place of the edge `(f, t)` of layer `l` in the walk over all edges
/// of the network: layer by layer and, inside a layer, source by source.
pub open spec fn edge_place(net: Seq<LayerView>, l: int, f: int, t: int) -> int {
    edges_before(net, l) + f * net[l].a.len() + t
}

/// The numbers of edges do not shrink from layer to layer, and networks of
/// one shape have the same numbers of edges.
pub proof fn lemma_edges_before(net: Seq<LayerView>, other: Seq<LayerView>, l: int, m: int)
    requires
        l <= m <= net.len(),
    ensures
        0 <= edges_before(net, l) <= edges_before(net, m),
        same_shape(net, other) ==> edges_before(other, m) == edges_before(net, m),
    decreases m,
{
    if m > 1 {
        assert(0 <= net[m - 2].a.len() * net[m - 1].a.len()) by (nonlinear_arith);
        if l < m {
            lemma_edges_before(net, other, l, m - 1);
        } else {
            lemma_edges_before(net, other, l - 1, m - 1);
        }
        if same_shape(net, other) {
            assert(net[m - 2].a.len() == other[m - 2].a.len());
            assert(net[m - 1].a.len() == other[m - 1].a.len());
        }
    }
}

/// An edge has a place before the total, and after the edges of the layers
/// before its own.
pub proof fn lemma_edge_place(net: Seq<LayerView>, l: int, f: int, t: int)
    requires
        has_edge(net, l, f, t),
    ensures
        0 <= edges_before(net, l) <= edge_place(net, l, f, t) < edges_before(net, l + 1) <= edge_total(net),
{
    lemma_edges_before(net, net, l, l + 1);
    lemma_edges_before(net, net, l + 1, net.len() as int);
    let n_from = net[l - 1].a.len() as int;
    let n_to = net[l].a.len() as int;
    assert(0 <= f * n_to + t < n_from * n_to) by (nonlinear_arith)
        requires
            0 <= f < n_from,
            0 <= t < n_to,
    ;
}

/// Two networks with the same number of layers and arrays of the same
/// lengths.
pub open spec fn same_shape(x: Seq<LayerView>, y: Seq<LayerView>) -> bool {
    &&& x.len() == y.len()
    &&& forall|i: int|
        0 <= i < x.len() ==> {
            &&& (#[trigger] x[i]).a.len() == y[i].a.len()
            &&& x[i].z.len() == y[i].z.len()
            &&& x[i].w.len() == y[i].w.len()
            &&& x[i].b.len() == y[i].b.len()
            &&& forall|f: int| 0 <= f < x[i].w.len() ==> (#[trigger] x[i].w[f]).len() == y[i].w[f].len()
            &&& forall|f: int| 0 <= f < x[i].b.len() ==> (#[trigger] x[i].b[f]).len() == y[i].b[f].len()
        }
}

/// Every coefficient of the layer is the not-computed mark.
pub open spec fn layer_blank(l: LayerView) -> bool {
    &&& forall|n: int| 0 <= n < l.a.len() ==> l.a[n] == NAN
    &&& forall|n: int| 0 <= n < l.z.len() ==> l.z[n] == NAN
    &&& forall|f: int, t: int| 0 <= f < l.w.len() && 0 <= t < l.w[f].len() ==> #[trigger] l.w[f][t] == NAN
    &&& forall|f: int, t: int| 0 <= f < l.b.len() && 0 <= t < l.b[f].len() ==> #[trigger] l.b[f][t] == NAN
}

/// Every coefficient of the network is the not-computed mark.
pub open spec fn blank(net: Seq<LayerView>) -> bool {
    forall|i: int| 0 <= i < net.len() ==> layer_blank(#[trigger] net[i])
}

/// A vector of `n` not-computed marks.
pub open spec fn blank_row(n: nat) -> Seq<u32> {
    Seq::new(n, |i: int| NAN)
}

/// The layer with every coefficient replaced by the not-computed mark.
pub open spec fn blanked_layer(l: LayerView) -> LayerView {
    LayerView {
        z: blank_row(l.z.len()),
        a: blank_row(l.a.len()),
        w: Seq::new(l.w.len(), |f: int| blank_row(l.w[f].len())),
        b: Seq::new(l.b.len(), |f: int| blank_row(l.b[f].len())),
    }
}

/// The network with every coefficient replaced by the not-computed mark.
pub open spec fn blanked(net: Seq<LayerView>) -> Seq<LayerView> {
    Seq::new(net.len(), |i: int| blanked_layer(net[i]))
}

/// A network of the shape of `net` that holds the mark everywhere is `net`
/// with every coefficient replaced by the mark.
pub proof fn lemma_blank_is_blanked(net: Seq<LayerView>, emptied: Seq<LayerView>)
    requires
        same_shape(net, emptied),
        blank(emptied),
    ensures
        emptied == blanked(net),
{
    assert forall|i: int| 0 <= i < net.len() implies emptied[i] == blanked_layer(net[i]) by {
        let x = emptied[i];
        let y = blanked_layer(net[i]);
        assert(layer_blank(x));
        assert(net[i].a.len() == x.a.len());
        assert(x.z =~= y.z);
        assert(x.a =~= y.a);
        assert forall|f: int| 0 <= f < x.w.len() implies x.w[f] == y.w[f] by {
            assert(net[i].w[f].len() == x.w[f].len());
            assert forall|t: int| 0 <= t < x.w[f].len() implies x.w[f][t] == NAN by {
                assert(x.w[f][t] == NAN);
            }
            assert(x.w[f] =~= y.w[f]);
        }
        assert(x.w =~= y.w);
        assert forall|f: int| 0 <= f < x.b.len() implies x.b[f] == y.b[f] by {
            assert(net[i].b[f].len() == x.b[f].len());
            assert forall|t: int| 0 <= t < x.b[f].len() implies x.b[f][t] == NAN by {
                assert(x.b[f][t] == NAN);
            }
            assert(x.b[f] =~= y.b[f]);
        }
        assert(x.b =~= y.b);
    }
    assert(emptied =~= blanked(net));
}

/// Emptying a network twice in a row leaves what emptying it once leaves: a
/// network of the same shape in which every coefficient is the not-computed
/// mark.
pub proof fn lemma_reset_idempotent(net: Seq<LayerView>)
    ensures
        blanked(blanked(net)) == blanked(net),
        same_shape(net, blanked(net)),
        blank(blanked(net)),
{
    let once = blanked(net);
    assert(same_shape(net, once));
    assert forall|i: int| 0 <= i < once.len() implies layer_blank(#[trigger] once[i]) by {}
    assert(same_shape(once, blanked(once)));
    assert forall|i: int| 0 <= i < once.len() implies layer_blank(#[trigger] blanked(once)[i]) by {}
    lemma_same_shape_symmetric(net, once);
    lemma_blank_is_blanked(once, once);
}

/// Sharing a shape carries over.
pub proof fn lemma_same_shape_transitive(x: Seq<LayerView>, y: Seq<LayerView>, z: Seq<LayerView>)
    requires
        same_shape(x, y),
        same_shape(y, z),
    ensures
        same_shape(x, z),
{
    assert forall|i: int| 0 <= i < x.len() implies {
        &&& (#[trigger] x[i]).a.len() == z[i].a.len()
        &&& x[i].z.len() == z[i].z.len()
        &&& x[i].w.len() == z[i].w.len()
        &&& x[i].b.len() == z[i].b.len()
        &&& forall|f: int| 0 <= f < x[i].w.len() ==> (#[trigger] x[i].w[f]).len() == z[i].w[f].len()
        &&& forall|f: int| 0 <= f < x[i].b.len() ==> (#[trigger] x[i].b[f]).len() == z[i].b[f].len()
    } by {
        assert(x[i].a.len() == y[i].a.len());
        assert(y[i].a.len() == z[i].a.len());
        assert forall|f: int| 0 <= f < x[i].w.len() implies (#[trigger] x[i].w[f]).len() == z[i].w[f].len() by {
            assert(x[i].w[f].len() == y[i].w[f].len());
            assert(y[i].w[f].len() == z[i].w[f].len());
        }
        assert forall|f: int| 0 <= f < x[i].b.len() implies (#[trigger] x[i].b[f]).len() == z[i].b[f].len() by {
            assert(x[i].b[f].len() == y[i].b[f].len());
            assert(y[i].b[f].len() == z[i].b[f].len());
        }
    }
}

/// Sharing a shape goes both ways.
pub proof fn lemma_same_shape_symmetric(x: Seq<LayerView>, y: Seq<LayerView>)
    requires
        same_shape(x, y),
    ensures
        same_shape(y, x),
{
    assert forall|i: int| 0 <= i < y.len() implies {
        &&& (#[trigger] y[i]).a.len() == x[i].a.len()
        &&& y[i].z.len() == x[i].z.len()
        &&& y[i].w.len() == x[i].w.len()
        &&& y[i].b.len() == x[i].b.len()
        &&& forall|f: int| 0 <= f < y[i].w.len() ==> (#[trigger] y[i].w[f]).len() == x[i].w[f].len()
        &&& forall|f: int| 0 <= f < y[i].b.len() ==> (#[trigger] y[i].b[f]).len() == x[i].b[f].len()
    } by {
        assert(x[i].a.len() == y[i].a.len());
        assert forall|f: int| 0 <= f < y[i].w.len() implies (#[trigger] y[i].w[f]).len() == x[i].w[f].len() by {
            assert(x[i].w[f].len() == y[i].w[f].len());
        }
        assert forall|f: int| 0 <= f < y[i].b.len() implies (#[trigger] y[i].b[f]).len() == x[i].b[f].len() by {
            assert(x[i].b[f].len() == y[i].b[f].len());
        }
    }
}

/// Layer `ilayer` exists and has a node `inode`.
pub open spec fn has_node(net: Seq<LayerView>, ilayer: int, inode: int) -> bool {
    0 <= ilayer < net.len() && 0 <= inode < net[ilayer].a.len()
}

/// Layer `ilayer` exists, is not the input layer, and has an edge from node
/// `ifrom` of the layer before to its node `ito`.
pub open spec fn has_edge(net: Seq<LayerView>, ilayer: int, ifrom: int, ito: int) -> bool {
    &&& 0 < ilayer < net.len()
    &&& 0 <= ifrom < net[ilayer - 1].a.len()
    &&& 0 <= ito < net[ilayer].a.len()
}

/// `net` with the activation of one node replaced.
pub open spec fn with_a(net: Seq<LayerView>, ilayer: int, inode: int, val: u32) -> Seq<LayerView> {
    net.update(ilayer, LayerView { a: net[ilayer].a.update(inode, val), ..net[ilayer] })
}

/// `net` with the weighted sum of one node replaced.
pub open spec fn with_z(net: Seq<LayerView>, ilayer: int, inode: int, val: u32) -> Seq<LayerView> {
    net.update(ilayer, LayerView { z: net[ilayer].z.update(inode, val), ..net[ilayer] })
}

/// `net` with the weight of one edge replaced.
pub open spec fn with_w(net: Seq<LayerView>, ilayer: int, ifrom: int, ito: int, val: u32) -> Seq<
    LayerView,
> {
    net.update(
        ilayer,
        LayerView { w: net[ilayer].w.update(ifrom, net[ilayer].w[ifrom].update(ito, val)), ..net[ilayer] },
    )
}

/// `net` with the bias of one edge replaced.
pub open spec fn with_b(net: Seq<LayerView>, ilayer: int, ifrom: int, ito: int, val: u32) -> Seq<
    LayerView,
> {
    net.update(
        ilayer,
        LayerView { b: net[ilayer].b.update(ifrom, net[ilayer].b[ifrom].update(ito, val)), ..net[ilayer] },
    )
}

/// A network shaped like a well-formed one is well formed.
pub proof fn lemma_same_shape_well_formed(x: Seq<LayerView>, y: Seq<LayerView>)
    requires
        well_formed(x),
        same_shape(x, y),
    ensures
        well_formed(y),
        geometry_of(y) == geometry_of(x),
{
    assert forall|i: int| 0 <= i < y.len() implies #[trigger] layer_shaped(y, i) by {
        assert(layer_shaped(x, i));
        assert(x[i].a.len() == y[i].a.len());
        if i > 0 {
            assert(x[i - 1].a.len() == y[i - 1].a.len());
            assert forall|f: int| 0 <= f < y[i].w.len() implies (#[trigger] y[i].w[f]).len()
                == y[i].a.len() by {
                assert(x[i].w[f].len() == y[i].w[f].len());
            }
            assert forall|f: int| 0 <= f < y[i].b.len() implies (#[trigger] y[i].b[f]).len()
                == y[i].a.len() by {
                assert(x[i].b[f].len() == y[i].b[f].len());
            }
        }
    }
    assert(geometry_of(y) =~= geometry_of(x));
}

/// Well-formed networks of one geometry have one shape.
pub proof fn lemma_same_geometry_same_shape(x: Seq<LayerView>, y: Seq<LayerView>)
    requires
        well_formed(x),
        well_formed(y),
        geometry_of(x) == geometry_of(y),
    ensures
        same_shape(x, y),
{
    assert(x.len() == geometry_of(x).len());
    assert(y.len() == geometry_of(y).len());
    assert forall|i: int| 0 <= i < x.len() implies (#[trigger] x[i]).a.len() == y[i].a.len() by {
        assert(geometry_of(x)[i] == geometry_of(y)[i]);
        assert(geometry_of(x)[i] == x[i].a.len() as usize);
        assert(geometry_of(y)[i] == y[i].a.len() as usize);
        assert(layer_shaped(x, i));
        assert(layer_shaped(y, i));
    }
    assert forall|i: int| 0 <= i < x.len() implies {
        &&& (#[trigger] x[i]).a.len() == y[i].a.len()
        &&& x[i].z.len() == y[i].z.len()
        &&& x[i].w.len() == y[i].w.len()
        &&& x[i].b.len() == y[i].b.len()
        &&& forall|f: int| 0 <= f < x[i].w.len() ==> (#[trigger] x[i].w[f]).len() == y[i].w[f].len()
        &&& forall|f: int| 0 <= f < x[i].b.len() ==> (#[trigger] x[i].b[f]).len() == y[i].b[f].len()
    } by {
        assert(layer_shaped(x, i));
        assert(layer_shaped(y, i));
        if i > 0 {
            assert(x[i - 1].a.len() == y[i - 1].a.len());
        }
    }
}

/// Replacing one coefficient keeps the shape.
pub proof fn lemma_with_same_shape(net: Seq<LayerView>, ilayer: int, i: int, j: int, val: u32)
    requires
        0 <= ilayer < net.len(),
    ensures
        0 <= i < net[ilayer].a.len() ==> same_shape(net, with_a(net, ilayer, i, val)),
        0 <= i < net[ilayer].z.len() ==> same_shape(net, with_z(net, ilayer, i, val)),
        0 <= i < net[ilayer].w.len() && 0 <= j < net[ilayer].w[i].len() ==> same_shape(
            net,
            with_w(net, ilayer, i, j, val),
        ),
        0 <= i < net[ilayer].b.len() && 0 <= j < net[ilayer].b[i].len() ==> same_shape(
            net,
            with_b(net, ilayer, i, j, val),
        ),
{
}

} // verus!
