//! The binary form of a network.
//!
//! A network is written as the sequence of its layers, each layer as its
//! sums, its activations, its weights and its biases, in this order. A
//! sequence is written as its length in eight bytes followed by its entries,
//! a number as its pattern in four bytes, lowest byte first throughout.
use vstd::prelude::*;
use crate::network::{Network, LayerView, LayerTuple, OwnedLayerTuple, Record, well_formed, owned_views,
    borrowed_view, records_of, layers_of, storable, layer_storable};

verus! {

/// The `width` lowest bytes of `x`, lowest first.
pub open spec fn little_endian(x: nat, width: nat) -> Seq<u8>
    decreases width,
{
    if width == 0 {
        Seq::empty()
    } else {
        seq![(x % 256) as u8] + little_endian(x / 256, (width - 1) as nat)
    }
}

/// A vector of numbers as it is written: its length, then each number.
pub open spec fn encoded_coeff(v: Seq<u32>) -> Seq<u8> {
    little_endian(v.len(), 8) + v.map_values(|x: u32| little_endian(x as nat, 4)).flatten()
}

/// A table as it is written: the number of its rows, then each row.
pub open spec fn encoded_edge(e: Seq<Seq<u32>>) -> Seq<u8> {
    little_endian(e.len(), 8) + e.map_values(|row: Seq<u32>| encoded_coeff(row)).flatten()
}

/// A layer as it is written: sums, activations, weights, biases.
pub open spec fn encoded_record(r: Record) -> Seq<u8> {
    encoded_coeff(r.0) + encoded_coeff(r.1) + encoded_edge(r.2) + encoded_edge(r.3)
}

/// A sequence of layers as it is written: their number, then each layer.
pub open spec fn encoded_layers(layers: Seq<Record>) -> Seq<u8> {
    little_endian(layers.len(), 8) + layers.map_values(|r: Record| encoded_record(r)).flatten()
}

/// `bincode::ErrorKind`, the failure that the encoder and the decoder
/// report; nothing is known of its contents.
#[verifier::external_type_specification]
#[verifier::external_body]
pub struct ExErrorKind(bincode::ErrorKind);

/// The bytes begin with the sequence of layers as written, and every array
/// of the layers has a length that fits a machine word.
pub open spec fn decodes(bytes: Seq<u8>, layers: Seq<Record>) -> bool {
    storable(layers_of(layers)) && encoded_layers(layers).is_prefix_of(bytes)
}

/// The bytes begin with some sequence of layers as written.
pub open spec fn decodable(bytes: Seq<u8>) -> bool {
    exists|layers: Seq<Record>| #[trigger] decodes(bytes, layers)
}

/// The sequence of layers that the bytes begin with.
pub open spec fn decoded(bytes: Seq<u8>) -> Seq<Record> {
    choose|layers: Seq<Record>| #[trigger] decodes(bytes, layers)
}

/// What is written is never empty: it starts with the eight bytes of a
/// length.
pub proof fn lemma_encoded_layers_start(layers: Seq<Record>)
    ensures
        encoded_layers(layers).len() >= 8,
{
    reveal_with_fuel(little_endian, 9);
    assert(little_endian(layers.len(), 8).len() == 8);
}

/// The arrays of owned layers have lengths that fit a machine word.
pub proof fn lemma_owned_storable(v: Vec<OwnedLayerTuple>)
    ensures
        storable(owned_views(v@)),
{
    assert(v.len() == v@.len());
    assert forall|i: int| 0 <= i < owned_views(v@).len() implies layer_storable(#[trigger] owned_views(v@)[i]) by {
        let t = v@[i];
        assert(t.0.len() == t.0@.len());
        assert(t.1.len() == t.1@.len());
        assert(t.2.len() == t.2@.len());
        assert(t.3.len() == t.3@.len());
        assert forall|f: int| 0 <= f < owned_views(v@)[i].w.len() implies (#[trigger] owned_views(v@)[i].w[f]).len()
            <= usize::MAX by {
            assert(t.2@[f].len() == t.2@[f]@.len());
        }
        assert forall|f: int| 0 <= f < owned_views(v@)[i].b.len() implies (#[trigger] owned_views(v@)[i].b[f]).len()
            <= usize::MAX by {
            assert(t.3@[f].len() == t.3@[f]@.len());
        }
    }
}

/// What a sequence of borrowed layers holds.
pub open spec fn borrowed_views(v: Seq<LayerTuple>) -> Seq<LayerView> {
    v.map_values(|t: LayerTuple| borrowed_view(t))
}

/// The records that a result of the decoder holds, if it holds any.
pub open spec fn decoded_records(r: Result<Vec<OwnedLayerTuple>, bincode::Error>) -> Option<Seq<Record>> {
    match r {
        Ok(layers) => Some(records_of(owned_views(layers@))),
        Err(_) => None,
    }
}

/// Calls `bincode::serialize` on the layers. The encoder succeeds: it
/// writes into a vector, without a limit on the number of bytes, and every
/// sequence that it is handed knows its length. The bytes are the layers as
/// written: with fixed-width little-endian integers, a sequence as its
/// length in eight bytes and then its entries, a tuple as its fields one
/// after the other, a `u32` in four bytes.
#[verifier::external_body]
fn bincode_serialize(layers: &Vec<LayerTuple>) -> (r: Result<Vec<u8>, bincode::Error>)
    ensures
        r is Ok,
        r matches Ok(bytes) ==> bytes@ == encoded_layers(records_of(borrowed_views(layers@))),
{
    bincode::serialize(layers)
}

/// Calls `bincode::deserialize` on the bytes. Layers that the decoder
/// returns are layers that the bytes begin with, as written; and bytes that
/// begin with a sequence of layers as written, each array of a length that
/// fits a machine word, decode to those layers, whatever follows them.
#[verifier::external_body]
fn bincode_deserialize(bytes: &[u8]) -> (r: Result<Vec<OwnedLayerTuple>, bincode::Error>)
    ensures
        r matches Ok(layers) ==> encoded_layers(records_of(owned_views(layers@))).is_prefix_of(bytes@),
        forall|layers: Seq<Record>|
            storable(layers_of(layers)) && (#[trigger] encoded_layers(layers)).is_prefix_of(bytes@)
                ==> decoded_records(r) == Some(layers),
{
    bincode::deserialize(bytes)
}

/// Why a network could not be written or read.
#[derive(Debug, Clone, Copy, PartialEq, Eq)]
pub enum PersistenceError {
    /// The encoder reported a failure. Writing into memory does not give
    /// it; it is there for those who write elsewhere.
    Encoding,
    /// The bytes do not decode to a sequence of layers.
    Malformed,
    /// The bytes decode to layers whose arrays do not fit each other.
    Inconsistent,
}

/// Packs a network into bytes: its layers in order, each as its sums,
/// activations, weights and biases. This succeeds for every network.
pub fn network_serialize(network: &Network) -> (r: Result<Vec<u8>, PersistenceError>)
    ensures
        r is Ok,
        r matches Ok(bytes) ==> bytes@ == encoded_layers(records_of(network@)),
{
    let layer_tuple_vec = network.as_layer_tuple_vec();
    proof {
        assert(borrowed_views(layer_tuple_vec@) =~= network@);
    }
    match bincode_serialize(&layer_tuple_vec) {
        Ok(bytes) => Ok(bytes),
        Err(_) => Err(PersistenceError::Encoding),
    }
}

/// Builds a network from decoded layers: the network that holds exactly
/// these arrays if they fit each other, a failure otherwise.
pub fn network_from_records(records: &Vec<OwnedLayerTuple>) -> (r: Result<Network, PersistenceError>)
    ensures
        well_formed(owned_views(records@)) ==> r is Ok && r->Ok_0@ == owned_views(records@),
        !well_formed(owned_views(records@)) ==> r == Err::<Network, PersistenceError>(PersistenceError::Inconsistent),
{
    let network = Network::from_layer_tuple_vec(records);
    if network.is_well_formed() {
        Ok(network)
    } else {
        Err(PersistenceError::Inconsistent)
    }
}

/// What reading a network from `bytes` gives: the network that the bytes
/// begin with, if they begin with layers as written and the arrays of these
/// layers fit each other.
pub open spec fn deserialized(bytes: Seq<u8>) -> Result<Seq<LayerView>, PersistenceError> {
    if !decodable(bytes) {
        Err(PersistenceError::Malformed)
    } else if well_formed(layers_of(decoded(bytes))) {
        Ok(layers_of(decoded(bytes)))
    } else {
        Err(PersistenceError::Inconsistent)
    }
}

/// Unpacks bytes into a network. Bytes that do not begin with layers as
/// written, and bytes whose layers have arrays that do not fit each other,
/// are refused. Otherwise the network is the one that the bytes begin with:
/// what `network_serialize` gave for a network gives it back.
pub fn network_deserialize(bytes: &[u8]) -> (r: Result<Network, PersistenceError>)
    ensures
        match deserialized(bytes@) {
            Ok(layers) => r is Ok && r->Ok_0@ == layers,
            Err(e) => r is Err && r->Err_0 == e,
        },
        r matches Ok(network) ==> well_formed(network@) && encoded_layers(records_of(network@)).is_prefix_of(bytes@),
        forall|network: Network|
            well_formed(network@) && (#[trigger] encoded_layers(records_of(network@))).is_prefix_of(bytes@) ==> r is Ok
                && r->Ok_0@ == network@,
{
    match bincode_deserialize(bytes) {
        Ok(records) => {
            let ghost found = records_of(owned_views(records@));
            proof {
                lemma_owned_storable(records);
                assert(layers_of(found) =~= owned_views(records@));
                assert(decodes(bytes@, found));
                assert(decodes(bytes@, decoded(bytes@)));
                assert(decoded(bytes@) == found);
            }
            let r = network_from_records(&records);
            proof {
                assert forall|network: Network|
                    well_formed(network@) && (#[trigger] encoded_layers(records_of(network@))).is_prefix_of(bytes@)
                    implies r is Ok && r->Ok_0@ == network@ by {
                    network.lemma_storable();
                    assert(layers_of(records_of(network@)) =~= network@);
                }
                if r is Ok {
                    assert(records_of(r->Ok_0@) == found);
                }
            }
            r
        },
        Err(_) => {
            proof {
                assert forall|layers: Seq<Record>| !#[trigger] decodes(bytes@, layers) by {}
                assert forall|network: Network|
                    well_formed(network@) && (#[trigger] encoded_layers(records_of(network@))).is_prefix_of(bytes@)
                    implies false by {
                    network.lemma_storable();
                    assert(layers_of(records_of(network@)) =~= network@);
                }
            }
            Err(PersistenceError::Malformed)
        },
    }
}

} // verus!
