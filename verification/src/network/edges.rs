//! The edges of a layer in order.
use vstd::prelude::*;
use vstd::arithmetic::div_mod::{lemma_fundamental_div_mod, lemma_fundamental_div_mod_converse};

verus! {

/// The `k`-th edge of a layer with `len_to` nodes, counting source by source:
/// the pair (source node, destination node).
pub open spec fn edge_at(len_to: int, k: int) -> (int, int) {
    (k / len_to, k % len_to)
}

/// The edges of a layer in order, each exactly once: the counter `k` runs
/// through `len_from * len_to` values, every value gives a pair inside the
/// cross product of the two layers, and every pair of the cross product is
/// given by exactly one value.
pub proof fn lemma_edge_enumeration_complete(len_from: int, len_to: int)
    requires
        0 <= len_from,
        0 <= len_to,
    ensures
        forall|k: int|
            0 <= k < len_from * len_to ==> {
                &&& 0 <= (#[trigger] edge_at(len_to, k)).0 < len_from
                &&& 0 <= edge_at(len_to, k).1 < len_to
                &&& edge_at(len_to, k).0 * len_to + edge_at(len_to, k).1 == k
            },
        forall|f: int, t: int|
            0 <= f < len_from && 0 <= t < len_to ==> {
                &&& 0 <= #[trigger] (f * len_to + t) < len_from * len_to
                &&& edge_at(len_to, f * len_to + t) == (f, t)
            },
        forall|j: int, k: int|
            0 <= j < len_from * len_to && 0 <= k < len_from * len_to && #[trigger] edge_at(len_to, j)
                == #[trigger] edge_at(len_to, k) ==> j == k,
{
    assert forall|k: int| 0 <= k < len_from * len_to implies {
        &&& 0 <= (#[trigger] edge_at(len_to, k)).0 < len_from
        &&& 0 <= edge_at(len_to, k).1 < len_to
        &&& edge_at(len_to, k).0 * len_to + edge_at(len_to, k).1 == k
    } by {
        assert(len_to > 0) by (nonlinear_arith)
            requires
                0 <= k < len_from * len_to,
                0 <= len_to,
        ;
        lemma_fundamental_div_mod(k, len_to);
        let q = k / len_to;
        let r = k % len_to;
        assert(k == len_to * q + r);
        assert(0 <= r < len_to);
        assert(0 <= q < len_from) by (nonlinear_arith)
            requires
                k == len_to * q + r,
                0 <= r < len_to,
                0 <= k < len_from * len_to,
                len_to > 0,
        ;
        assert(q * len_to == len_to * q) by (nonlinear_arith);
    }
    assert forall|f: int, t: int| 0 <= f < len_from && 0 <= t < len_to implies {
        &&& 0 <= #[trigger] (f * len_to + t) < len_from * len_to
        &&& edge_at(len_to, f * len_to + t) == (f, t)
    } by {
        lemma_edge_position(len_from, len_to, f, t);
    }
    assert forall|j: int, k: int|
        0 <= j < len_from * len_to && 0 <= k < len_from * len_to && #[trigger] edge_at(len_to, j)
            == #[trigger] edge_at(len_to, k) implies j == k by {
        assert(edge_at(len_to, j).0 * len_to + edge_at(len_to, j).1 == j);
        assert(edge_at(len_to, k).0 * len_to + edge_at(len_to, k).1 == k);
    }
}

/// Where the edge `(f, t)` stands in the enumeration.
pub proof fn lemma_edge_position(len_from: int, len_to: int, f: int, t: int)
    requires
        0 <= f < len_from,
        0 <= t < len_to,
    ensures
        0 <= f * len_to + t < len_from * len_to,
        edge_at(len_to, f * len_to + t) == (f, t),
{
    assert(0 <= f * len_to + t < len_from * len_to) by (nonlinear_arith)
        requires
            0 <= f < len_from,
            0 <= t < len_to,
    ;
    assert(f * len_to == len_to * f) by (nonlinear_arith);
    lemma_fundamental_div_mod_converse(f * len_to + t, len_to, f, t);
}

/// A walk over the edges of one layer, source by source.
pub struct EdgeIndexIter {
    len_from: usize,
    len_to: usize,
    ifrom: usize,
    ito: usize,
}

impl EdgeIndexIter {
    /// The number of nodes on the layer that the edges leave.
    pub closed spec fn len_from(&self) -> int {
        self.len_from as int
    }

    /// The number of nodes on the layer that the edges enter.
    pub closed spec fn len_to(&self) -> int {
        self.len_to as int
    }

    /// The number of edges already handed out.
    pub closed spec fn position(&self) -> int {
        self.ifrom * self.len_to + self.ito
    }

    /// The number of edges of the layer.
    pub open spec fn count(&self) -> int {
        self.len_from() * self.len_to()
    }

    /// The walk is inside its layer or at its end.
    pub closed spec fn wf(&self) -> bool {
        ||| self.ifrom < self.len_from && self.ito < self.len_to
        ||| self.ifrom == self.len_from && self.ito == 0
    }

    /// A walk at the first edge of a layer with `len_to` nodes that follows
    /// one with `len_from` nodes.
    pub fn new(len_from: usize, len_to: usize) -> (it: EdgeIndexIter)
        ensures
            it.wf(),
            it.len_from() == len_from,
            it.len_to() == len_to,
            it.position() == 0,
    {
        if len_to == 0 {
            proof {
                assert(len_from * 0 + 0 == 0) by (nonlinear_arith);
            }
            EdgeIndexIter { len_from, len_to, ifrom: len_from, ito: 0 }
        } else {
            proof {
                assert(0 * len_to + 0 == 0) by (nonlinear_arith);
            }
            EdgeIndexIter { len_from, len_to, ifrom: 0, ito: 0 }
        }
    }

    /// Hands out the next edge, or `None` once every edge has been handed
    /// out.
    pub fn next(&mut self) -> (r: Option<(usize, usize)>)
        requires
            old(self).wf(),
        ensures
            final(self).wf(),
            final(self).len_from() == old(self).len_from(),
            final(self).len_to() == old(self).len_to(),
            0 <= old(self).position() <= old(self).count(),
            old(self).position() < old(self).count() ==> r is Some && (
            r->Some_0.0 as int,
            r->Some_0.1 as int,
            ) == edge_at(old(self).len_to(), old(self).position()) && final(self).position()
                == old(self).position() + 1,
            old(self).position() == old(self).count() ==> r is None && final(self).position()
                == old(self).position(),
    {
        let ghost p = self.position();
        let ghost m = self.len_from as int;
        let ghost n = self.len_to as int;
        if self.ifrom >= self.len_from {
            proof {
                assert(m * n + 0 == m * n);
            }
            return None;
        }
        let edge = (self.ifrom, self.ito);
        proof {
            lemma_edge_position(m, n, self.ifrom as int, self.ito as int);
        }
        if self.ito + 1 == self.len_to {
            proof {
                assert((self.ifrom + 1) * n + 0 == self.ifrom * n + self.ito + 1) by (nonlinear_arith)
                    requires
                        self.ito + 1 == n,
                ;
            }
            self.ito = 0;
            self.ifrom = self.ifrom + 1;
        } else {
            self.ito = self.ito + 1;
        }
        Some(edge)
    }
}

} // verus!
