//! The network store: per-layer coefficient arrays, addressed by layer, node
//! and edge.
//!
//! Layers are counted from the input, starting at 0. An edge belongs to the
//! layer of its destination node and is addressed by the pair (source node,
//! destination node).
pub mod shape;
pub mod edges;

pub use crate::network::shape::{LayerView, rows, is_grid, layer_shaped, well_formed, borrowed_view,
    owned_view, owned_views, Record, record_of, layer_of, records_of, layers_of, layer_storable,
    storable, geometry_of, lemma_geometry_fidelity, edges_before, edge_total, edge_place,
    lemma_edges_before, lemma_edge_place, same_shape, layer_blank, blank, blank_row, blanked_layer, blanked,
    lemma_blank_is_blanked, lemma_reset_idempotent, lemma_same_shape_transitive,
    lemma_same_shape_symmetric, has_node, has_edge, with_a, with_z, with_w, with_b,
    lemma_same_shape_well_formed, lemma_same_geometry_same_shape, lemma_with_same_shape};
pub use crate::network::edges::{edge_at, lemma_edge_enumeration_complete, lemma_edge_position,
    EdgeIndexIter};

use vstd::prelude::*;
use crate::ieee::NAN;
use crate::ut::data::Signal;
use crate::algorithm::func::{Operation, arithmetic_total, arithmetic_relation};
use crate::ut::{vecf32_float_safe_is_eq, coeffs_alike, coeffs_apart, edges_alike, edges_apart, layers_alike,
    layers_apart, networks_alike, networks_apart};

verus! {

/// A vector of coefficients, one per node.
pub type Coeff = Vec<u32>;

/// A table of edge coefficients: one row per source node, one entry per
/// destination node.
pub type Edge = Vec<Vec<u32>>;

/// A layer as borrowed arrays: sums, activations, weights, biases.
pub type LayerTuple<'a> = (&'a Coeff, &'a Coeff, &'a Edge, &'a Edge);

/// A layer as owned arrays: sums, activations, weights, biases.
pub type OwnedLayerTuple = (Coeff, Coeff, Edge, Edge);

/// One layer: its sums, activations, and the weights and biases of the edges
/// that end in it.
pub struct Layer {
    /// Weighted sum from the layer before.
    z: Coeff,
    /// Activation of the weighted sum.
    a: Coeff,
    /// Weights.
    w: Edge,
    /// Biases.
    b: Edge,
}

impl View for Layer {
    type V = LayerView;

    closed spec fn view(&self) -> LayerView {
        LayerView { z: self.z@, a: self.a@, w: rows(self.w), b: rows(self.b) }
    }
}

/// Stores the weights of a network and the results of intermediate
/// calculations.
pub struct Network {
    layers: Vec<Layer>,
}

impl View for Network {
    type V = Seq<LayerView>;

    closed spec fn view(&self) -> Seq<LayerView> {
        layer_views(self.layers@)
    }
}

/// The contents of a sequence of layers.
pub open spec fn layer_views(layers: Seq<Layer>) -> Seq<LayerView> {
    layers.map_values(|l: Layer| l@)
}

/// A vector of `n` not-computed marks.
fn blank_coeff(n: usize) -> (v: Coeff)
    ensures
        v@.len() == n,
        forall|i: int| 0 <= i < n ==> v@[i] == NAN,
{
    let mut v: Vec<u32> = Vec::new();
    let mut i: usize = 0;
    while i < n
        invariant
            i <= n,
            v@.len() == i,
            forall|j: int| 0 <= j < i ==> v@[j] == NAN,
        decreases n - i,
    {
        v.push(NAN);
        i += 1;
    }
    v
}

/// A table of `n_from` rows of `n_to` not-computed marks.
fn blank_edge(n_from: usize, n_to: usize) -> (e: Edge)
    ensures
        is_grid(rows(e), n_from as nat, n_to as nat),
        forall|f: int, t: int| 0 <= f < n_from && 0 <= t < n_to ==> #[trigger] rows(e)[f][t] == NAN,
{
    let mut e: Vec<Vec<u32>> = Vec::new();
    let mut i: usize = 0;
    while i < n_from
        invariant
            i <= n_from,
            e@.len() == i,
            forall|f: int| 0 <= f < i ==> (#[trigger] e@[f])@.len() == n_to,
            forall|f: int, t: int| 0 <= f < i && 0 <= t < n_to ==> #[trigger] e@[f]@[t] == NAN,
        decreases n_from - i,
    {
        let row = blank_coeff(n_to);
        e.push(row);
        i += 1;
    }
    e
}

/// A copy of a coefficient vector.
fn copy_coeff(src: &Coeff) -> (dst: Coeff)
    ensures
        dst@ == src@,
{
    let mut dst: Vec<u32> = Vec::new();
    let mut i: usize = 0;
    while i < src.len()
        invariant
            i <= src.len(),
            dst@ == src@.subrange(0, i as int),
        decreases src.len() - i,
    {
        dst.push(src[i]);
        proof {
            assert(dst@ =~= src@.subrange(0, i + 1));
        }
        i += 1;
    }
    proof {
        assert(src@.subrange(0, src.len() as int) =~= src@);
    }
    dst
}

/// A copy of an edge table.
fn copy_edge(src: &Edge) -> (dst: Edge)
    ensures
        rows(dst) == rows(*src),
{
    let mut dst: Vec<Vec<u32>> = Vec::new();
    let mut i: usize = 0;
    while i < src.len()
        invariant
            i <= src.len(),
            dst@.len() == i,
            forall|k: int| 0 <= k < i ==> (#[trigger] dst@[k])@ == src@[k]@,
        decreases src.len() - i,
    {
        let row = copy_coeff(&src[i]);
        dst.push(row);
        i += 1;
    }
    proof {
        assert(rows(dst) =~= rows(*src));
    }
    dst
}

/// Whether every row of the table has `n_to` entries and there are `n_from`
/// rows.
fn edge_is_grid(e: &Edge, n_from: usize, n_to: usize) -> (r: bool)
    ensures
        r == is_grid(rows(*e), n_from as nat, n_to as nat),
{
    if e.len() != n_from {
        return false;
    }
    let mut i: usize = 0;
    while i < e.len()
        invariant
            i <= e.len(),
            e@.len() == n_from,
            forall|k: int| 0 <= k < i ==> (#[trigger] rows(*e)[k]).len() == n_to,
        decreases e.len() - i,
    {
        if e[i].len() != n_to {
            proof {
                assert(rows(*e)[i as int].len() != n_to);
            }
            return false;
        }
        i += 1;
    }
    true
}

/// Overwrites every entry of the vector with the not-computed mark.
fn blank_out_coeff(v: &mut Coeff)
    ensures
        final(v)@.len() == old(v)@.len(),
        forall|i: int| 0 <= i < final(v)@.len() ==> final(v)@[i] == NAN,
{
    let mut i: usize = 0;
    while i < v.len()
        invariant
            i <= v.len(),
            v@.len() == old(v)@.len(),
            forall|j: int| 0 <= j < i ==> v@[j] == NAN,
        decreases v.len() - i,
    {
        v[i] = NAN;
        i += 1;
    }
}

/// Overwrites every entry of the table with the not-computed mark.
fn blank_out_edge(e: &mut Edge)
    ensures
        rows(*final(e)).len() == rows(*old(e)).len(),
        forall|f: int| 0 <= f < rows(*old(e)).len() ==> (#[trigger] rows(*final(e))[f]).len() == rows(*old(e))[f].len(),
        forall|f: int, t: int|
            0 <= f < rows(*final(e)).len() && 0 <= t < rows(*final(e))[f].len() ==> #[trigger] rows(
                *final(e),
            )[f][t] == NAN,
{
    let mut i: usize = 0;
    while i < e.len()
        invariant
            i <= e.len(),
            e@.len() == old(e)@.len(),
            forall|f: int| 0 <= f < e@.len() ==> (#[trigger] e@[f])@.len() == old(e)@[f]@.len(),
            forall|f: int, t: int| 0 <= f < i && 0 <= t < e@[f]@.len() ==> #[trigger] e@[f]@[t] == NAN,
        decreases e.len() - i,
    {
        blank_out_coeff(&mut e[i]);
        i += 1;
    }
}

impl Layer {
    /// The layer as borrowed arrays, in the order sums, activations, weights,
    /// biases.
    pub fn as_tuple(&self) -> (t: LayerTuple<'_>)
        ensures
            borrowed_view(t) == self@,
    {
        (&self.z, &self.a, &self.w, &self.b)
    }

    /// A layer that holds copies of the given arrays.
    pub fn from_layer_tuple(layer_tuple: LayerTuple) -> (layer: Layer)
        ensures
            layer@ == borrowed_view(layer_tuple),
    {
        Layer {
            z: copy_coeff(layer_tuple.0),
            a: copy_coeff(layer_tuple.1),
            w: copy_edge(layer_tuple.2),
            b: copy_edge(layer_tuple.3),
        }
    }

    /// Whether the layer has the shape of an input layer.
    fn is_input_shaped(&self) -> (r: bool)
        ensures
            r == (self@.z.len() == 0 && self@.w.len() == 0 && self@.b.len() == 0),
    {
        self.z.len() == 0 && self.w.len() == 0 && self.b.len() == 0
    }

    /// Whether the layer has the shape of a layer that follows one of
    /// `n_from` nodes.
    fn is_shaped_after(&self, n_from: usize) -> (r: bool)
        ensures
            r == {
                &&& self@.z.len() == self@.a.len()
                &&& is_grid(self@.w, n_from as nat, self@.a.len())
                &&& is_grid(self@.b, n_from as nat, self@.a.len())
            },
    {
        self.z.len() == self.a.len() && edge_is_grid(&self.w, n_from, self.a.len()) && edge_is_grid(
            &self.b,
            n_from,
            self.a.len(),
        )
    }

    /// Compares two tables within the tolerance: the number of their rows,
    /// then row by row.
    fn edges_eq<Ar: Fn(Operation, u32, u32) -> u32>(x: &Edge, y: &Edge, arith: &Ar) -> (r: bool)
        requires
            arithmetic_total(*arith),
        ensures
            r ==> edges_alike(arithmetic_relation(*arith), rows(*x), rows(*y)),
            !r ==> edges_apart(arithmetic_relation(*arith), rows(*x), rows(*y)),
    {
        if x.len() != y.len() {
            return false;
        }
        let mut f: usize = 0;
        while f < x.len()
            invariant
                arithmetic_total(*arith),
                x@.len() == y@.len(),
                f <= x@.len(),
                forall|g: int|
                    0 <= g < f ==> #[trigger] coeffs_alike(arithmetic_relation(*arith), rows(*x)[g], rows(*y)[g]),
            decreases x.len() - f,
        {
            if !vecf32_float_safe_is_eq(&x[f], &y[f], arith) {
                proof {
                    assert(coeffs_apart(arithmetic_relation(*arith), rows(*x)[f as int], rows(*y)[f as int]));
                }
                return false;
            }
            f += 1;
        }
        true
    }

    /// Compares two layers within the tolerance: activations, sums, biases,
    /// weights.
    fn eq<Ar: Fn(Operation, u32, u32) -> u32>(&self, other: &Layer, arith: &Ar) -> (r: bool)
        requires
            arithmetic_total(*arith),
        ensures
            r ==> layers_alike(arithmetic_relation(*arith), self@, other@),
            !r ==> layers_apart(arithmetic_relation(*arith), self@, other@),
    {
        vecf32_float_safe_is_eq(&self.a, &other.a, arith) && vecf32_float_safe_is_eq(&self.z, &other.z, arith)
            && Layer::edges_eq(&self.b, &other.b, arith) && Layer::edges_eq(&self.w, &other.w, arith)
    }

    /// Overwrites every coefficient with the not-computed mark.
    fn reset(&mut self)
        ensures
            layer_blank(final(self)@),
            final(self)@.a.len() == old(self)@.a.len(),
            final(self)@.z.len() == old(self)@.z.len(),
            final(self)@.w.len() == old(self)@.w.len(),
            final(self)@.b.len() == old(self)@.b.len(),
            forall|f: int| 0 <= f < old(self)@.w.len() ==> (#[trigger] final(self)@.w[f]).len() == old(self)@.w[f].len(),
            forall|f: int| 0 <= f < old(self)@.b.len() ==> (#[trigger] final(self)@.b[f]).len() == old(self)@.b[f].len(),
    {
        blank_out_coeff(&mut self.a);
        blank_out_coeff(&mut self.z);
        blank_out_edge(&mut self.w);
        blank_out_edge(&mut self.b);
    }
}

impl Network {
    /// Every array of the network has a length that fits a machine word.
    pub proof fn lemma_storable(&self)
        ensures
            storable(self@),
    {
        assert(self.layers.len() == self.layers@.len());
        assert forall|i: int| 0 <= i < self@.len() implies layer_storable(#[trigger] self@[i]) by {
            let l = self.layers@[i];
            assert(l.z.len() == l.z@.len());
            assert(l.a.len() == l.a@.len());
            assert(l.w.len() == l.w@.len());
            assert(l.b.len() == l.b@.len());
            assert forall|f: int| 0 <= f < self@[i].w.len() implies (#[trigger] self@[i].w[f]).len() <= usize::MAX by {
                assert(l.w@[f].len() == l.w@[f]@.len());
            }
            assert forall|f: int| 0 <= f < self@[i].b.len() implies (#[trigger] self@[i].b[f]).len() <= usize::MAX by {
                assert(l.b@[f].len() == l.b@[f]@.len());
            }
        }
    }

    /// Number of layers in the network.
    pub fn n_layers(&self) -> (n: usize)
        ensures
            n == self@.len(),
    {
        self.layers.len()
    }

    /// Number of nodes on layer `ilayer`.
    pub fn layer_len(&self, ilayer: usize) -> (n: usize)
        requires
            ilayer < self@.len(),
        ensures
            n == self@[ilayer as int].a.len(),
    {
        self.layers[ilayer].a.len()
    }

    /// Allocates a network with `geometry[i]` nodes on layer `i`. Every
    /// coefficient is the not-computed mark.
    pub fn from_geometry(geometry: &Vec<usize>) -> (network: Network)
        ensures
            well_formed(network@),
            geometry_of(network@) == geometry@,
            network@.len() == geometry@.len(),
            forall|i: int| 0 <= i < geometry@.len() ==> (#[trigger] network@[i]).a.len() == geometry@[i],
            blank(network@),
    {
        let mut layers: Vec<Layer> = Vec::new();
        let mut size_prev: usize = 0;
        let mut i: usize = 0;
        while i < geometry.len()
            invariant
                i <= geometry.len(),
                layers@.len() == i,
                i > 0 ==> size_prev == geometry@[i - 1],
                forall|k: int| 0 <= k < i ==> (#[trigger] layers@[k])@.a.len() == geometry@[k],
                forall|k: int| 0 <= k < i ==> #[trigger] layer_shaped(layer_views(layers@), k),
                forall|k: int| 0 <= k < i ==> layer_blank((#[trigger] layers@[k])@),
            decreases geometry.len() - i,
        {
            let nnodes = geometry[i];
            let ghost before = layer_views(layers@);
            let layer = if i == 0 {
                Layer { z: Vec::new(), a: blank_coeff(nnodes), w: Vec::new(), b: Vec::new() }
            } else {
                Layer {
                    z: blank_coeff(nnodes),
                    a: blank_coeff(nnodes),
                    w: blank_edge(size_prev, nnodes),
                    b: blank_edge(size_prev, nnodes),
                }
            };
            layers.push(layer);
            proof {
                let after = layer_views(layers@);
                assert forall|k: int| 0 <= k < i + 1 implies #[trigger] layer_shaped(after, k) by {
                    if k < i {
                        assert(layer_shaped(before, k));
                        assert(after[k] == before[k]);
                        if k > 0 {
                            assert(after[k - 1] == before[k - 1]);
                        }
                    } else if k > 0 {
                        assert(after[k - 1] == before[k - 1]);
                    }
                }
            }
            size_prev = nnodes;
            i += 1;
        }
        let network = Network { layers };
        proof {
            assert(geometry_of(network@) =~= geometry@);
        }
        network
    }

    /// The number of nodes on each layer.
    pub fn geometry(&self) -> (g: Vec<usize>)
        ensures
            g@ == geometry_of(self@),
    {
        let mut g: Vec<usize> = Vec::new();
        let mut i: usize = 0;
        while i < self.layers.len()
            invariant
                i <= self.layers.len(),
                g@.len() == i,
                forall|k: int| 0 <= k < i ==> g@[k] == self@[k].a.len(),
            decreases self.layers.len() - i,
        {
            g.push(self.layers[i].a.len());
            i += 1;
        }
        proof {
            assert(g@ =~= geometry_of(self@));
        }
        g
    }

    /// Whether the network has exactly the given number of nodes on each
    /// layer.
    pub fn is_match_geometry(&self, geometry: &Vec<usize>) -> (r: bool)
        ensures
            r == (geometry_of(self@) == geometry@),
    {
        if self.layers.len() != geometry.len() {
            proof {
                assert(geometry_of(self@).len() != geometry@.len());
            }
            return false;
        }
        let mut i: usize = 0;
        while i < self.layers.len()
            invariant
                i <= self.layers.len(),
                self.layers.len() == geometry.len(),
                forall|k: int| 0 <= k < i ==> geometry@[k] == self@[k].a.len(),
            decreases self.layers.len() - i,
        {
            if self.layers[i].a.len() != geometry[i] {
                proof {
                    assert(geometry_of(self@)[i as int] != geometry@[i as int]);
                }
                return false;
            }
            i += 1;
        }
        proof {
            assert(geometry_of(self@) =~= geometry@);
        }
        true
    }

    /// Whether every layer obeys the shape rule.
    pub fn is_well_formed(&self) -> (r: bool)
        ensures
            r == well_formed(self@),
    {
        let mut i: usize = 0;
        while i < self.layers.len()
            invariant
                i <= self.layers.len(),
                forall|k: int| 0 <= k < i ==> #[trigger] layer_shaped(self@, k),
            decreases self.layers.len() - i,
        {
            let ok = if i == 0 {
                self.layers[i].is_input_shaped()
            } else {
                self.layers[i].is_shaped_after(self.layers[i - 1].a.len())
            };
            if !ok {
                proof {
                    assert(!layer_shaped(self@, i as int));
                }
                return false;
            }
            proof {
                assert(self.layers@[i as int].a.len() == self@[i as int].a.len());
            }
            i += 1;
        }
        true
    }

    /// The layers as borrowed arrays, in order.
    pub fn as_layer_tuple_vec(&self) -> (ret: Vec<LayerTuple<'_>>)
        ensures
            ret@.len() == self@.len(),
            forall|i: int| 0 <= i < ret@.len() ==> borrowed_view(#[trigger] ret@[i]) == self@[i],
    {
        let mut ret: Vec<LayerTuple<'_>> = Vec::new();
        let mut i: usize = 0;
        while i < self.layers.len()
            invariant
                i <= self.layers.len(),
                ret@.len() == i,
                forall|k: int| 0 <= k < i ==> borrowed_view(#[trigger] ret@[k]) == self@[k],
            decreases self.layers.len() - i,
        {
            ret.push(self.layers[i].as_tuple());
            i += 1;
        }
        ret
    }

    /// Builds a network from its layers given as owned arrays. The arrays are
    /// taken as they are: the result is well formed only if they are.
    pub fn from_layer_tuple_vec(layer_tuple_vec: &Vec<OwnedLayerTuple>) -> (network: Network)
        ensures
            network@ == owned_views(layer_tuple_vec@),
    {
        let mut layers: Vec<Layer> = Vec::new();
        let mut i: usize = 0;
        while i < layer_tuple_vec.len()
            invariant
                i <= layer_tuple_vec.len(),
                layers@.len() == i,
                forall|k: int| 0 <= k < i ==> (#[trigger] layers@[k])@ == owned_view(layer_tuple_vec@[k]),
            decreases layer_tuple_vec.len() - i,
        {
            let t = &layer_tuple_vec[i];
            let layer = Layer::from_layer_tuple((&t.0, &t.1, &t.2, &t.3));
            layers.push(layer);
            i += 1;
        }
        let network = Network { layers };
        proof {
            assert(network@ =~= owned_views(layer_tuple_vec@));
        }
        network
    }

    /// Overwrites the activations of the input layer with `signal`.
    pub fn init_input_layer(&mut self, signal: &Signal)
        requires
            old(self)@.len() > 0,
            signal@.len() == old(self)@[0].a.len(),
        ensures
            final(self)@ == old(self)@.update(0, LayerView { a: signal@, ..old(self)@[0] }),
    {
        self.layers[0].a = copy_coeff(signal);
        proof {
            assert(self@ =~= old(self)@.update(0, LayerView { a: signal@, ..old(self)@[0] }));
        }
    }

    /// The result of the network: the weighted sums of the last layer.
    pub fn output_layer(&self) -> (out: &Signal)
        requires
            self@.len() > 0,
        ensures
            out@ == self@[self@.len() - 1].z,
    {
        &self.layers[self.n_layers() - 1].z
    }

    /// Whether the two networks are equal: they have the same geometry and,
    /// layer by layer, their activations, sums, biases and weights compare
    /// equal within the tolerance, a not-a-number comparing equal to
    /// anything.
    pub fn eq<Ar: Fn(Operation, u32, u32) -> u32>(&self, other: &Network, arith: &Ar) -> (r: bool)
        requires
            arithmetic_total(*arith),
        ensures
            r ==> networks_alike(arithmetic_relation(*arith), self@, other@),
            !r ==> networks_apart(arithmetic_relation(*arith), self@, other@),
    {
        let geometry = self.geometry();
        if !other.is_match_geometry(&geometry) {
            return false;
        }
        proof {
            assert(self@.len() == geometry_of(self@).len());
            assert(other@.len() == geometry_of(other@).len());
        }
        let mut i: usize = 0;
        while i < self.layers.len()
            invariant
                arithmetic_total(*arith),
                i <= self.layers.len(),
                self@.len() == other@.len(),
                geometry_of(self@) == geometry_of(other@),
                forall|l: int| 0 <= l < i ==> layers_alike(arithmetic_relation(*arith), #[trigger] self@[l], other@[l]),
            decreases self.layers.len() - i,
        {
            if !self.layers[i].eq(&other.layers[i], arith) {
                proof {
                    assert(layers_apart(arithmetic_relation(*arith), self@[i as int], other@[i as int]));
                }
                return false;
            }
            i += 1;
        }
        true
    }

    /// The number of edges of the network, if it fits a machine word.
    pub fn n_edges(&self) -> (n: Option<usize>)
        ensures
            n matches Some(count) ==> count == edge_total(self@),
            n is None ==> edge_total(self@) > usize::MAX,
    {
        let mut count: usize = 0;
        let mut ilayer: usize = 1;
        while ilayer < self.layers.len()
            invariant
                1 <= ilayer,
                count == edges_before(self@, ilayer as int),
                ilayer >= self@.len() ==> count == edge_total(self@),
            decreases self.layers.len() - ilayer,
        {
            let len_from = self.layers[ilayer - 1].a.len();
            let len_to = self.layers[ilayer].a.len();
            proof {
                lemma_edges_before(self@, self@, ilayer + 1, self@.len() as int);
                assert(edges_before(self@, ilayer + 1) == count + len_from * len_to);
            }
            let layer_count = match len_from.checked_mul(len_to) {
                Some(product) => product,
                None => {
                    return None;
                },
            };
            count = match count.checked_add(layer_count) {
                Some(sum) => sum,
                None => {
                    return None;
                },
            };
            ilayer += 1;
        }
        Some(count)
    }

    /// A walk over every edge that ends in layer `ilayer`: each pair (source
    /// node, destination node) once, source by source.
    pub fn edge_index_iter(&self, ilayer: usize) -> (it: EdgeIndexIter)
        requires
            0 < ilayer < self@.len(),
        ensures
            it.wf(),
            it.len_from() == self@[ilayer - 1].a.len(),
            it.len_to() == self@[ilayer as int].a.len(),
            it.position() == 0,
    {
        let len_from = self.layer_len(ilayer - 1);
        let len_to = self.layer_len(ilayer);
        EdgeIndexIter::new(len_from, len_to)
    }

    /// Overwrites every coefficient of every layer with the not-computed
    /// mark.
    pub fn reset(&mut self)
        ensures
            final(self)@ == blanked(old(self)@),
            same_shape(old(self)@, final(self)@),
            blank(final(self)@),
    {
        let mut i: usize = 0;
        while i < self.layers.len()
            invariant
                i <= self.layers.len(),
                same_shape(old(self)@, self@),
                forall|k: int| 0 <= k < i ==> layer_blank(#[trigger] self@[k]),
            decreases self.layers.len() - i,
        {
            let ghost before = self@;
            self.layers[i].reset();
            proof {
                assert forall|k: int| 0 <= k < i + 1 implies layer_blank(#[trigger] self@[k]) by {
                    if k < i {
                        assert(self@[k] == before[k]);
                    }
                }
                assert forall|k: int| 0 <= k < self@.len() && k != i implies #[trigger] self@[k] == before[k] by {}
            }
            i += 1;
        }
        proof {
            lemma_blank_is_blanked(old(self)@, self@);
        }
    }

    /// The activation of node `inode` on layer `ilayer`.
    pub fn a(&self, ilayer: usize, inode: usize) -> (val: u32)
        requires
            has_node(self@, ilayer as int, inode as int),
        ensures
            val == self@[ilayer as int].a[inode as int],
    {
        self.layers[ilayer].a[inode]
    }

    /// The weighted sum of node `inode` on layer `ilayer`.
    pub fn z(&self, ilayer: usize, inode: usize) -> (val: u32)
        requires
            well_formed(self@),
            ilayer > 0,
            has_node(self@, ilayer as int, inode as int),
        ensures
            val == self@[ilayer as int].z[inode as int],
    {
        proof {
            assert(layer_shaped(self@, ilayer as int));
        }
        self.layers[ilayer].z[inode]
    }

    /// The weight of the edge from node `ifrom` of layer `ilayer - 1` to node
    /// `ito` of layer `ilayer`.
    pub fn w(&self, ilayer: usize, ifrom: usize, ito: usize) -> (val: u32)
        requires
            well_formed(self@),
            has_edge(self@, ilayer as int, ifrom as int, ito as int),
        ensures
            val == self@[ilayer as int].w[ifrom as int][ito as int],
    {
        proof {
            assert(layer_shaped(self@, ilayer as int));
            assert(self@[ilayer as int].w[ifrom as int].len() == self@[ilayer as int].a.len());
        }
        self.layers[ilayer].w[ifrom][ito]
    }

    /// The bias of the edge from node `ifrom` of layer `ilayer - 1` to node
    /// `ito` of layer `ilayer`.
    pub fn b(&self, ilayer: usize, ifrom: usize, ito: usize) -> (val: u32)
        requires
            well_formed(self@),
            has_edge(self@, ilayer as int, ifrom as int, ito as int),
        ensures
            val == self@[ilayer as int].b[ifrom as int][ito as int],
    {
        proof {
            assert(layer_shaped(self@, ilayer as int));
            assert(self@[ilayer as int].b[ifrom as int].len() == self@[ilayer as int].a.len());
        }
        self.layers[ilayer].b[ifrom][ito]
    }

    /// The pair (weight, bias) of an edge.
    pub fn edge_coef_wb(&self, ilayer: usize, ifrom: usize, ito: usize) -> (wb: (u32, u32))
        requires
            well_formed(self@),
            has_edge(self@, ilayer as int, ifrom as int, ito as int),
        ensures
            wb.0 == self@[ilayer as int].w[ifrom as int][ito as int],
            wb.1 == self@[ilayer as int].b[ifrom as int][ito as int],
    {
        (self.w(ilayer, ifrom, ito), self.b(ilayer, ifrom, ito))
    }

    /// Sets the activation of a node.
    pub fn set_a(&mut self, ilayer: usize, inode: usize, val: u32)
        requires
            has_node(old(self)@, ilayer as int, inode as int),
        ensures
            final(self)@ == with_a(old(self)@, ilayer as int, inode as int, val),
            same_shape(old(self)@, final(self)@),
            well_formed(old(self)@) ==> well_formed(final(self)@),
    {
        self.layers[ilayer].a[inode] = val;
        proof {
            assert(self@ =~= with_a(old(self)@, ilayer as int, inode as int, val));
            lemma_with_same_shape(old(self)@, ilayer as int, inode as int, 0, val);
            if well_formed(old(self)@) {
                lemma_same_shape_well_formed(old(self)@, self@);
            }
        }
    }

    /// Sets the weighted sum of a node.
    pub fn set_z(&mut self, ilayer: usize, inode: usize, val: u32)
        requires
            well_formed(old(self)@),
            ilayer > 0,
            has_node(old(self)@, ilayer as int, inode as int),
        ensures
            final(self)@ == with_z(old(self)@, ilayer as int, inode as int, val),
            same_shape(old(self)@, final(self)@),
            well_formed(final(self)@),
    {
        proof {
            assert(layer_shaped(self@, ilayer as int));
        }
        self.layers[ilayer].z[inode] = val;
        proof {
            assert(self@ =~= with_z(old(self)@, ilayer as int, inode as int, val));
            lemma_with_same_shape(old(self)@, ilayer as int, inode as int, 0, val);
            lemma_same_shape_well_formed(old(self)@, self@);
        }
    }

    /// Sets the weight of an edge.
    pub fn set_w(&mut self, ilayer: usize, ifrom: usize, ito: usize, val: u32)
        requires
            well_formed(old(self)@),
            has_edge(old(self)@, ilayer as int, ifrom as int, ito as int),
        ensures
            final(self)@ == with_w(old(self)@, ilayer as int, ifrom as int, ito as int, val),
            same_shape(old(self)@, final(self)@),
            well_formed(final(self)@),
    {
        proof {
            assert(layer_shaped(self@, ilayer as int));
            assert(self@[ilayer as int].w[ifrom as int].len() == self@[ilayer as int].a.len());
        }
        self.layers[ilayer].w[ifrom][ito] = val;
        proof {
            let goal = with_w(old(self)@, ilayer as int, ifrom as int, ito as int, val);
            assert(self@[ilayer as int].w =~= goal[ilayer as int].w);
            assert(self@ =~= goal);
            lemma_with_same_shape(old(self)@, ilayer as int, ifrom as int, ito as int, val);
            lemma_same_shape_well_formed(old(self)@, self@);
        }
    }

    /// Sets the bias of an edge.
    pub fn set_b(&mut self, ilayer: usize, ifrom: usize, ito: usize, val: u32)
        requires
            well_formed(old(self)@),
            has_edge(old(self)@, ilayer as int, ifrom as int, ito as int),
        ensures
            final(self)@ == with_b(old(self)@, ilayer as int, ifrom as int, ito as int, val),
            same_shape(old(self)@, final(self)@),
            well_formed(final(self)@),
    {
        proof {
            assert(layer_shaped(self@, ilayer as int));
            assert(self@[ilayer as int].b[ifrom as int].len() == self@[ilayer as int].a.len());
        }
        self.layers[ilayer].b[ifrom][ito] = val;
        proof {
            let goal = with_b(old(self)@, ilayer as int, ifrom as int, ito as int, val);
            assert(self@[ilayer as int].b =~= goal[ilayer as int].b);
            assert(self@ =~= goal);
            lemma_with_same_shape(old(self)@, ilayer as int, ifrom as int, ito as int, val);
            lemma_same_shape_well_formed(old(self)@, self@);
        }
    }
}

} // verus!
