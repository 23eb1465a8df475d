//! The link graph: nodes are page identifiers `0 .. n`, and each node lists
//! the distinct identifiers of the pages it links to.

use vstd::prelude::*;

verus! {

/// A directed link graph over node identifiers.
///
/// `out[v]` holds the targets of the edges leaving `v`, without duplicates,
/// so an edge set has the semantics of a set of target pages. A node with an
/// empty edge list is a dangling node.
pub struct LinkGraph {
    /// Outgoing edges per node.
    pub out: Vec<Vec<usize>>,
}

impl LinkGraph {
    /// Number of nodes.
    pub open spec fn n(self) -> nat {
        self.out@.len()
    }

    /// Outgoing edges of node `v`.
    pub open spec fn edges_of(self, v: int) -> Seq<usize> {
        self.out@[v]@
    }

    /// Well-formed: every edge target is a node and no target is listed twice.
    pub open spec fn wf(self) -> bool {
        forall|v: int|
            0 <= v < self.n() ==> {
                &&& forall|j: int|
                    0 <= j < (#[trigger] self.edges_of(v)).len() ==> self.edges_of(v)[j]
                        < self.n()
                &&& forall|j: int, j2: int|
                    0 <= j < j2 < self.edges_of(v).len() ==> self.edges_of(v)[j] != self.edges_of(
                        v,
                    )[j2]
            }
    }

    /// Whether node `v` has an edge to node `u`.
    pub open spec fn links_to(self, v: int, u: usize) -> bool {
        self.edges_of(v).contains(u)
    }

    /// Creates an empty graph.
    pub fn new() -> (g: Self)
        ensures
            g.wf(),
            g.n() == 0,
    {
        LinkGraph { out: Vec::new() }
    }

    /// Number of nodes, as an executable value.
    pub fn len(&self) -> (n: usize)
        ensures
            n == self.n(),
    {
        self.out.len()
    }

    /// Adds a fresh node with no edges and returns its identifier.
    pub fn add_node(&mut self) -> (id: usize)
        requires
            old(self).wf(),
        ensures
            final(self).wf(),
            id == old(self).n(),
            final(self).n() == old(self).n() + 1,
            forall|v: int|
                0 <= v < old(self).n() ==> final(self).edges_of(v) == old(self).edges_of(v),
            final(self).edges_of(id as int).len() == 0,
    {
        let id = self.out.len();
        self.out.push(Vec::new());
        proof {
            assert forall|v: int| 0 <= v < self.n() implies {
                &&& forall|j: int|
                    0 <= j < (#[trigger] self.edges_of(v)).len() ==> self.edges_of(v)[j]
                        < self.n()
                &&& forall|j: int, j2: int|
                    0 <= j < j2 < self.edges_of(v).len() ==> self.edges_of(v)[j] != self.edges_of(
                        v,
                    )[j2]
            } by {
                if v < id {
                    assert(self.edges_of(v) == old(self).edges_of(v));
                    assert(old(self).wf());
                } else {
                    assert(self.edges_of(v).len() == 0);
                }
            }
        }
        id
    }

    /// Adds the edge `v -> t` unless it is already present.
    pub fn add_edge(&mut self, v: usize, t: usize)
        requires
            old(self).wf(),
            v < old(self).n(),
            t < old(self).n(),
        ensures
            final(self).wf(),
            final(self).n() == old(self).n(),
            forall|w: int|
                0 <= w < final(self).n() && w != v ==> final(self).edges_of(w) == old(
                    self,
                ).edges_of(w),
            old(self).links_to(v as int, t) ==> final(self).edges_of(v as int) == old(
                self,
            ).edges_of(v as int),
            !old(self).links_to(v as int, t) ==> final(self).edges_of(v as int) == old(
                self,
            ).edges_of(v as int).push(t),
            final(self).links_to(v as int, t),
    {
        let ghost e = old(self).edges_of(v as int);
        let mut i: usize = 0;
        while i < self.out[v].len()
            invariant
                *self == *old(self),
                old(self).wf(),
                v < self.out@.len(),
                t < self.out@.len(),
                e == self.edges_of(v as int),
                i <= e.len(),
                forall|j: int| 0 <= j < i ==> e[j] != t,
            decreases e.len() - i,
        {
            if self.out[v][i] == t {
                assert(old(self).links_to(v as int, t));
                return ;
            }
            i += 1;
        }
        assert(!old(self).links_to(v as int, t)) by {
            if old(self).links_to(v as int, t) {
                let j = choose|j: int| 0 <= j < e.len() && e[j] == t;
                assert(e[j] != t);
            }
        }
        self.out[v].push(t);
        proof {
            assert(self.edges_of(v as int) == e.push(t));
            assert(self.edges_of(v as int).last() == t);
            assert(self.links_to(v as int, t));
            assert forall|w: int| 0 <= w < self.n() implies {
                &&& forall|j: int|
                    0 <= j < (#[trigger] self.edges_of(w)).len() ==> self.edges_of(w)[j]
                        < self.n()
                &&& forall|j: int, j2: int|
                    0 <= j < j2 < self.edges_of(w).len() ==> self.edges_of(w)[j] != self.edges_of(
                        w,
                    )[j2]
            } by {
                assert(old(self).wf());
                if w == v {
                    assert forall|j: int|
                        0 <= j < self.edges_of(w).len() implies self.edges_of(w)[j]
                        < self.n() by {
                        if j < e.len() {
                            assert(self.edges_of(w)[j] == e[j]);
                            assert(e[j] < old(self).n());
                        } else {
                            assert(self.edges_of(w)[j] == t);
                        }
                    }
                    assert forall|j: int, j2: int|
                        0 <= j < j2 < self.edges_of(w).len() implies self.edges_of(w)[j]
                        != self.edges_of(w)[j2] by {
                        if j2 < e.len() {
                            assert(self.edges_of(w)[j] == e[j] && self.edges_of(w)[j2] == e[j2]);
                        } else {
                            assert(self.edges_of(w)[j] == e[j] && self.edges_of(w)[j2] == t);
                        }
                    }
                } else {
                    assert(self.edges_of(w) == old(self).edges_of(w));
                }
            }
        }
    }
}

} // verus!
