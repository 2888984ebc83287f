//! Model of the object graph accessor: an append-only, content-addressed,
//! parent-linked history graph, together with the ancestry relation that
//! every collectability decision is stated against.

use vstd::prelude::*;

use crate::error::Error;

verus! {

/// A history node: an identifier plus the identifiers of its parents.
pub struct Node {
    pub id: u64,
    pub parents: Vec<u64>,
}

/// An append-only directed graph of history nodes.
///
/// Nodes are stored in creation order and every parent of a node was created
/// before the node itself, so the graph is acyclic by construction: ancestry
/// always moves to strictly smaller indices.
pub struct Graph {
    pub nodes: Vec<Node>,
    pub next_id: u64,
}

impl Graph {
    pub open spec fn valid_index(self, i: int) -> bool {
        0 <= i < self.nodes@.len()
    }

    pub open spec fn contains_node(self, id: u64) -> bool {
        exists|i: int| self.valid_index(i) && self.nodes@[i].id == id
    }

    /// The index at which a node identifier is stored (unique when `wf()`).
    pub open spec fn index_of(self, id: u64) -> int {
        choose|i: int| self.valid_index(i) && self.nodes@[i].id == id
    }

    pub open spec fn parents_of(self, id: u64) -> Seq<u64> {
        self.nodes@[self.index_of(id)].parents@
    }

    /// The `k`-th parent of the node at index `i` is stored at some
    /// strictly smaller index.
    pub open spec fn parent_stored_earlier(self, i: int, k: int) -> bool {
        exists|j: int| 0 <= j < i && #[trigger] self.nodes@[j].id == self.nodes@[i].parents@[k]
    }

    /// Well-formedness: identifiers are distinct and below `next_id`, and
    /// every parent is a node stored at a strictly smaller index.
    pub open spec fn wf(self) -> bool {
        &&& forall|i: int, j: int|
            self.valid_index(i) && self.valid_index(j) && i != j
                ==> #[trigger] self.nodes@[i].id != #[trigger] self.nodes@[j].id
        &&& forall|i: int, k: int|
            self.valid_index(i) && 0 <= k < self.nodes@[i].parents@.len()
                ==> #[trigger] self.parent_stored_earlier(i, k)
        &&& forall|i: int| self.valid_index(i) ==> #[trigger] self.nodes@[i].id < self.next_id
    }

    /// Ancestry: in a well-formed graph holding `from`, `to` is `from`
    /// itself or an ancestor of `from`.
    pub open spec fn reaches(self, from: u64, to: u64) -> bool
        decreases self.index_of(from)
            via Self::reaches_decreases
    {
        self.wf() && self.contains_node(from) && (from == to || exists|k: int|
            0 <= k < self.parents_of(from).len() && self.reaches(
                #[trigger] self.parents_of(from)[k],
                to,
            ))
    }

    #[via_fn]
    proof fn reaches_decreases(self, from: u64, to: u64) {
        if self.wf() && self.contains_node(from) {
            assert forall|k: int| 0 <= k < self.parents_of(from).len() implies {
                &&& self.contains_node(#[trigger] self.parents_of(from)[k])
                &&& 0 <= self.index_of(self.parents_of(from)[k]) < self.index_of(from)
            } by {
                lemma_parent_index(self, from, k);
            }
        }
    }

    /// Ancestry from a seed set: some seed reaches `to`.
    pub open spec fn set_reaches(self, seeds: Set<u64>, to: u64) -> bool {
        exists|s: u64| seeds.contains(s) && self.reaches(s, to)
    }
}

/// `index_of` returns a real index holding the identifier looked up.
pub proof fn lemma_index_of_works(g: Graph, id: u64)
    requires
        g.contains_node(id),
    ensures
        g.valid_index(g.index_of(id)),
        g.nodes@[g.index_of(id)].id == id,
{
}

/// Under `wf`, the index of a stored identifier is unique.
pub proof fn lemma_index_of_unique(g: Graph, i: int, id: u64)
    requires
        g.wf(),
        g.valid_index(i),
        g.nodes@[i].id == id,
    ensures
        g.contains_node(id),
        g.index_of(id) == i,
{
    assert(g.contains_node(id));
    lemma_index_of_works(g, id);
}

/// Every parent of a stored node is itself stored, at a smaller index.
pub proof fn lemma_parent_index(g: Graph, id: u64, k: int)
    requires
        g.wf(),
        g.contains_node(id),
        0 <= k < g.parents_of(id).len(),
    ensures
        g.contains_node(g.parents_of(id)[k]),
        g.index_of(g.parents_of(id)[k]) < g.index_of(id),
{
    lemma_index_of_works(g, id);
    let i = g.index_of(id);
    assert(g.parent_stored_earlier(i, k));
    let j = choose|j: int| 0 <= j < i && #[trigger] g.nodes@[j].id == g.nodes@[i].parents@[k];
    assert(0 <= j < i && g.nodes@[j].id == g.nodes@[i].parents@[k]);
    lemma_index_of_unique(g, j, g.parents_of(id)[k]);
}

/// Ancestry only moves toward smaller indices; in particular every node
/// reached is stored in the graph.
#[verifier::rlimit(50)]
pub proof fn lemma_reaches_index(g: Graph, from: u64, to: u64)
    requires
        g.wf(),
        g.contains_node(from),
        g.reaches(from, to),
    ensures
        g.contains_node(to),
        g.index_of(to) <= g.index_of(from),
    decreases g.index_of(from),
{
    if from == to {
    } else {
        assert(exists|k: int|
            0 <= k < g.parents_of(from).len() && g.reaches(#[trigger] g.parents_of(from)[k], to));
        let k = choose|k: int|
            0 <= k < g.parents_of(from).len() && g.reaches(#[trigger] g.parents_of(from)[k], to);
        lemma_parent_index(g, from, k);
        lemma_reaches_index(g, g.parents_of(from)[k], to);
    }
}

/// A node reaches each of its parents.
#[verifier::rlimit(50)]
pub proof fn lemma_reaches_parent(g: Graph, id: u64, k: int)
    requires
        g.wf(),
        g.contains_node(id),
        0 <= k < g.parents_of(id).len(),
    ensures
        g.reaches(id, g.parents_of(id)[k]),
{
    lemma_parent_index(g, id, k);
    let p = g.parents_of(id)[k];
    assert(g.reaches(p, p));
    assert(g.reaches(id, p));
}

/// Ancestry is transitive.
#[verifier::rlimit(50)]
pub proof fn lemma_reaches_trans(g: Graph, a: u64, b: u64, c: u64)
    requires
        g.wf(),
        g.contains_node(a),
        g.reaches(a, b),
        g.reaches(b, c),
    ensures
        g.reaches(a, c),
    decreases g.index_of(a),
{
    if a == b {
    } else {
        assert(exists|k: int|
            0 <= k < g.parents_of(a).len() && g.reaches(#[trigger] g.parents_of(a)[k], b));
        let k = choose|k: int|
            0 <= k < g.parents_of(a).len() && g.reaches(#[trigger] g.parents_of(a)[k], b);
        lemma_parent_index(g, a, k);
        lemma_reaches_trans(g, g.parents_of(a)[k], b, c);
        assert(g.reaches(a, c));
    }
}

/// Any set that contains a node and is closed under parents contains
/// everything that node reaches.
#[verifier::rlimit(50)]
pub proof fn lemma_closed_contains_reachable(g: Graph, s: Set<u64>, from: u64, to: u64)
    requires
        g.wf(),
        g.contains_node(from),
        s.contains(from),
        forall|n: u64, k: int|
            s.contains(n) && g.contains_node(n) && 0 <= k < g.parents_of(n).len()
                ==> s.contains(#[trigger] g.parents_of(n)[k]),
        g.reaches(from, to),
    ensures
        s.contains(to),
    decreases g.index_of(from),
{
    if from == to {
    } else {
        assert(exists|k: int|
            0 <= k < g.parents_of(from).len() && g.reaches(#[trigger] g.parents_of(from)[k], to));
        let k = choose|k: int|
            0 <= k < g.parents_of(from).len() && g.reaches(#[trigger] g.parents_of(from)[k], to);
        lemma_parent_index(g, from, k);
        lemma_closed_contains_reachable(g, s, g.parents_of(from)[k], to);
    }
}

impl Graph {
    /// An empty graph.
    pub fn new() -> (g: Graph)
        ensures
            g.wf(),
            g.nodes@.len() == 0,
            g.next_id == 1,
            forall|id: u64| !g.contains_node(id),
    {
        Graph { nodes: Vec::new(), next_id: 1 }
    }

    /// Look up the index of a node identifier.
    pub fn lookup(&self, id: u64) -> (r: Option<usize>)
        ensures
            match r {
                Some(i) => self.valid_index(i as int) && self.nodes@[i as int].id == id,
                None => !self.contains_node(id),
            },
    {
        let mut i: usize = 0;
        while i < self.nodes.len()
            invariant
                0 <= i <= self.nodes@.len(),
                forall|j: int| 0 <= j < i ==> #[trigger] self.nodes@[j].id != id,
            decreases self.nodes@.len() - i,
        {
            if self.nodes[i].id == id {
                return Some(i);
            }
            i = i + 1;
        }
        None
    }

    /// Whether the graph holds a node with this identifier.
    pub fn contains(&self, id: u64) -> (b: bool)
        ensures
            b == self.contains_node(id),
    {
        self.lookup(id).is_some()
    }

    /// The parents of a node; fails if the identifier is unknown.
    pub fn parents(&self, id: u64) -> (r: Result<Vec<u64>, Error>)
        requires
            self.wf(),
        ensures
            match r {
                Ok(ps) => self.contains_node(id) && ps@ == self.parents_of(id),
                Err(e) => !self.contains_node(id) && e == Error::CannotGetCommit(id),
            },
    {
        match self.lookup(id) {
            Some(i) => {
                proof {
                    lemma_index_of_unique(*self, i as int, id);
                }
                Ok(self.nodes[i].parents.clone())
            },
            None => Err(Error::CannotGetCommit(id)),
        }
    }

    /// Append a fresh node with the given parents and return its identifier.
    /// Fails only when the identifier space is exhausted.
    pub fn add_node(&mut self, parents: &Vec<u64>) -> (r: Result<u64, Error>)
        requires
            old(self).wf(),
            forall|k: int| 0 <= k < parents@.len() ==> old(self).contains_node(#[trigger] parents@[k]),
        ensures
            old(self).next_id < u64::MAX ==> r is Ok,
            match r {
                Ok(id) => {
                    &&& final(self).wf()
                    &&& id == old(self).next_id
                    &&& final(self).next_id == old(self).next_id + 1
                    &&& !old(self).contains_node(id)
                    &&& final(self).contains_node(id)
                    &&& final(self).nodes@.len() == old(self).nodes@.len() + 1
                    &&& final(self).nodes@[old(self).nodes@.len() as int].id == id
                    &&& final(self).nodes@[old(self).nodes@.len() as int].parents@ == parents@
                    &&& forall|i: int| 0 <= i < old(self).nodes@.len()
                        ==> #[trigger] final(self).nodes@[i] == old(self).nodes@[i]
                    &&& final(self).parents_of(id) == parents@
                    &&& forall|n: u64| old(self).contains_node(n) ==> final(self).contains_node(n)
                },
                Err(e) => {
                    &&& *final(self) == *old(self)
                    &&& old(self).next_id == u64::MAX
                    &&& e == Error::CannotCreateMessage
                },
            },
    {
        if self.next_id == u64::MAX {
            return Err(Error::CannotCreateMessage);
        }
        let id = self.next_id;
        let ghost old_g = *self;
        let node = Node { id, parents: clone_ids(parents) };
        self.nodes.push(node);
        self.next_id = self.next_id + 1;
        proof {
            let n = old_g.nodes@.len() as int;
            assert forall|i: int| 0 <= i < n implies #[trigger] self.nodes@[i] == old_g.nodes@[i] by {}
            assert(self.nodes@[n].id == id);
            assert(!old_g.contains_node(id));
            assert forall|i: int, k: int|
                self.valid_index(i) && 0 <= k < self.nodes@[i].parents@.len()
                    implies #[trigger] self.parent_stored_earlier(i, k)
            by {
                if i < n {
                    assert(self.nodes@[i] == old_g.nodes@[i]);
                    assert(old_g.valid_index(i) && 0 <= k < old_g.nodes@[i].parents@.len());
                    assert(old_g.parent_stored_earlier(i, k));
                    let j = choose|j: int|
                        0 <= j < i && #[trigger] old_g.nodes@[j].id == old_g.nodes@[i].parents@[k];
                    assert(0 <= j < i);
                    assert(self.nodes@[j] == old_g.nodes@[j]);
                    assert(self.nodes@[j].id == self.nodes@[i].parents@[k]);
                } else {
                    assert(i == n);
                    assert(self.nodes@[i].parents@ == parents@);
                    assert(old_g.contains_node(parents@[k]));
                    let j = choose|jj: int|
                        old_g.valid_index(jj) && old_g.nodes@[jj].id == parents@[k];
                    assert(old_g.valid_index(j) && old_g.nodes@[j].id == parents@[k]);
                    assert(0 <= j < i);
                    assert(self.nodes@[j] == old_g.nodes@[j]);
                    assert(self.nodes@[j].id == self.nodes@[i].parents@[k]);
                }
            }
            assert(self.wf());
            lemma_index_of_unique(*self, n, id);
            assert forall|m: u64| old_g.contains_node(m) implies self.contains_node(m) by {
                let i = choose|i: int| old_g.valid_index(i) && old_g.nodes@[i].id == m;
                assert(old_g.valid_index(i) && old_g.nodes@[i].id == m);
                assert(self.valid_index(i));
                assert(self.nodes@[i] == old_g.nodes@[i]);
                assert(self.nodes@[i].id == m);
                assert(self.contains_node(m));
            }
        }
        Ok(id)
    }
}

/// Copy a list of node identifiers.
fn clone_ids(v: &Vec<u64>) -> (r: Vec<u64>)
    ensures
        r@ == v@,
{
    let mut r: Vec<u64> = Vec::new();
    let mut i: usize = 0;
    while i < v.len()
        invariant
            0 <= i <= v@.len(),
            r@ == v@.subrange(0, i as int),
        decreases v@.len() - i,
    {
        r.push(v[i]);
        i = i + 1;
    }
    proof {
        assert(r@ =~= v@);
    }
    r
}

} // verus!
