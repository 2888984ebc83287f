//! Walk abstractions: the deduplicating ancestor frontier, the watcher that
//! matches references against visited nodes, and first-parent walks.

use vstd::prelude::*;

use crate::error::Error;
use crate::graph::{
    Graph, Node, lemma_closed_contains_reachable, lemma_parent_index, lemma_reaches_parent,
    lemma_reaches_trans,
};
use crate::refs::{spec_has_boundary, GitRef, RefData, RefStore};

verus! {

/// A sequence of distinct node identifiers of `g` is no longer than the
/// number of nodes.
pub proof fn lemma_visited_bound(g: Graph, visited: Seq<u64>)
    requires
        visited.no_duplicates(),
        forall|i: int| 0 <= i < visited.len() ==> g.contains_node(#[trigger] visited[i]),
    ensures
        visited.len() <= g.nodes@.len(),
{
    broadcast use vstd::seq_lib::seq_to_set_is_finite;

    let ids = g.nodes@.map_values(|n: Node| n.id);
    assert forall|x: u64| visited.to_set().contains(x) implies ids.to_set().contains(x) by {
        assert(visited.contains(x));
        let i = choose|i: int| 0 <= i < visited.len() && visited[i] == x;
        assert(g.contains_node(visited[i]));
        let j = choose|j: int| g.valid_index(j) && g.nodes@[j].id == x;
        assert(ids[j] == x);
        assert(ids.contains(x));
    }
    visited.unique_seq_to_set();
    vstd::set_lib::lemma_len_subset(visited.to_set(), ids.to_set());
    ids.lemma_cardinality_of_set();
}

/// Membership in a concatenation.
pub proof fn lemma_append_contains<A>(a: Seq<A>, b: Seq<A>, x: A)
    ensures
        (a + b).contains(x) <==> a.contains(x) || b.contains(x),
{
    if a.contains(x) {
        let i = choose|i: int| 0 <= i < a.len() && a[i] == x;
        assert((a + b)[i] == x);
    }
    if b.contains(x) {
        let i = choose|i: int| 0 <= i < b.len() && b[i] == x;
        assert((a + b)[a.len() + i] == x);
    }
    if (a + b).contains(x) {
        let i = choose|i: int| 0 <= i < (a + b).len() && (a + b)[i] == x;
        if i < a.len() {
            assert(a[i] == x);
        } else {
            assert(b[i - a.len()] == x);
        }
    }
}

/// Membership after a push.
pub proof fn lemma_push_contains<A>(s: Seq<A>, y: A, x: A)
    ensures
        s.push(y).contains(x) <==> s.contains(x) || x == y,
{
    assert(s.push(y) =~= s + seq![y]);
    lemma_append_contains(s, seq![y], x);
    if x == y {
        assert(seq![y][0] == x);
        assert(seq![y].contains(x));
    }
    if seq![y].contains(x) {
        let i = choose|i: int| 0 <= i < seq![y].len() && seq![y][i] == x;
        assert(x == y);
    }
}

/// Membership in a sequence whose last element was dropped: everything but
/// possibly the last element survives.
pub proof fn lemma_drop_last_contains<A>(s: Seq<A>, x: A)
    requires
        s.len() > 0,
        s.contains(x),
    ensures
        s.drop_last().contains(x) || x == s.last(),
{
    let i = choose|i: int| 0 <= i < s.len() && s[i] == x;
    if i < s.len() - 1 {
        assert(s.drop_last()[i] == x);
    }
}

/// Whether a list of identifiers holds `x`.
pub fn ids_contain(v: &Vec<u64>, x: u64) -> (b: bool)
    ensures
        b == v@.contains(x),
{
    let mut i: usize = 0;
    let n = v.len();
    while i < n
        invariant
            0 <= i <= n,
            n == v@.len(),
            forall|j: int| 0 <= j < i ==> v@[j] != x,
        decreases n - i,
    {
        if v[i] == x {
            return true;
        }
        i = i + 1;
    }
    false
}

/// The ancestor frontier: a deduplicating work queue that yields each node
/// reachable from the pushed seeds exactly once, scheduling a node's
/// parents before the node is revisited.
pub struct Frontier {
    pub pending: Vec<u64>,
    pub visited: Vec<u64>,
    pub pushed: Ghost<Set<u64>>,
}

impl Frontier {
    /// Everything pending or visited is reachable from a pushed seed and
    /// stored in the graph; every pushed seed is pending or visited; the
    /// parents of every visited node are pending or visited.
    pub open spec fn inv(self, g: Graph) -> bool {
        &&& forall|i: int|
            0 <= i < self.pending@.len()
                ==> g.contains_node(#[trigger] self.pending@[i])
                    && g.set_reaches(self.pushed@, self.pending@[i])
        &&& forall|i: int|
            0 <= i < self.visited@.len()
                ==> g.contains_node(#[trigger] self.visited@[i])
                    && g.set_reaches(self.pushed@, self.visited@[i])
        &&& self.visited@.no_duplicates()
        &&& forall|s: u64|
            self.pushed@.contains(s) ==> self.visited@.contains(s) || self.pending@.contains(s)
        &&& forall|i: int, k: int|
            0 <= i < self.visited@.len() && 0 <= k < g.parents_of(self.visited@[i]).len()
                ==> self.visited@.contains(#[trigger] g.parents_of(self.visited@[i])[k])
                    || self.pending@.contains(g.parents_of(self.visited@[i])[k])
    }

    /// An empty frontier.
    pub fn new() -> (f: Frontier)
        ensures
            forall|g: Graph| f.inv(g),
            f.pushed@ == Set::<u64>::empty(),
            f.visited@ == Seq::<u64>::empty(),
            f.pending@ == Seq::<u64>::empty(),
    {
        let f = Frontier { pending: Vec::new(), visited: Vec::new(), pushed: Ghost(Set::empty()) };
        proof {
            assert(f.visited@ =~= Seq::<u64>::empty());
            assert(f.pending@ =~= Seq::<u64>::empty());
        }
        f
    }

    /// Schedule a node (and so, transitively, its ancestors). Pushing a
    /// node twice is harmless; pushing an unknown identifier fails.
    pub fn push(&mut self, g: &Graph, id: u64) -> (r: Result<(), Error>)
        requires
            g.wf(),
            old(self).inv(*g),
        ensures
            final(self).inv(*g),
            final(self).visited@ == old(self).visited@,
            match r {
                Ok(()) => g.contains_node(id)
                    && final(self).pushed@ == old(self).pushed@.insert(id),
                Err(e) => {
                    &&& !g.contains_node(id)
                    &&& e == Error::CannotGetCommit(id)
                    &&& *final(self) == *old(self)
                },
            },
    {
        if !g.contains(id) {
            return Err(Error::CannotGetCommit(id));
        }
        let ghost old_self = *self;
        self.pending.push(id);
        proof {
            self.pushed = Ghost(old_self.pushed@.insert(id));
        }
        proof {
            let gg = *g;
            assert(gg.reaches(id, id));
            assert(self.pushed@.contains(id));
            assert(gg.set_reaches(self.pushed@, id));
            assert forall|i: int| 0 <= i < self.pending@.len()
                implies g.contains_node(#[trigger] self.pending@[i])
                    && g.set_reaches(self.pushed@, self.pending@[i]) by {
                if i < old_self.pending@.len() {
                    let s = choose|s: u64|
                        old_self.pushed@.contains(s) && gg.reaches(s, old_self.pending@[i]);
                    assert(self.pushed@.contains(s));
                } else {
                    assert(self.pending@[i] == id);
                }
            }
            assert forall|i: int| 0 <= i < self.visited@.len()
                implies g.contains_node(#[trigger] self.visited@[i])
                    && g.set_reaches(self.pushed@, self.visited@[i]) by {
                let s = choose|s: u64|
                    old_self.pushed@.contains(s) && gg.reaches(s, old_self.visited@[i]);
                assert(self.pushed@.contains(s));
            }
            assert forall|s: u64| self.pushed@.contains(s)
                implies self.visited@.contains(s) || self.pending@.contains(s) by {
                if s == id {
                    assert(self.pending@[self.pending@.len() - 1] == id);
                } else {
                    if old_self.pending@.contains(s) {
                        let i = choose|i: int|
                            0 <= i < old_self.pending@.len() && old_self.pending@[i] == s;
                        assert(self.pending@[i] == s);
                    }
                }
            }
            assert forall|i: int, k: int|
                0 <= i < self.visited@.len() && 0 <= k < g.parents_of(self.visited@[i]).len()
                    implies self.visited@.contains(#[trigger] g.parents_of(self.visited@[i])[k])
                        || self.pending@.contains(g.parents_of(self.visited@[i])[k]) by {
                let p = g.parents_of(self.visited@[i])[k];
                assert(old_self.visited@.contains(p) || old_self.pending@.contains(p));
                if old_self.pending@.contains(p) {
                    let j = choose|j: int|
                        0 <= j < old_self.pending@.len() && old_self.pending@[j] == p;
                    assert(self.pending@[j] == p);
                }
            }
        }
        Ok(())
    }

    /// Yield the next unvisited reachable node, or nothing once every
    /// scheduled ancestor has been visited.
    pub fn next(&mut self, g: &Graph) -> (r: Option<u64>)
        requires
            g.wf(),
            old(self).inv(*g),
        ensures
            final(self).inv(*g),
            final(self).pushed@ == old(self).pushed@,
            match r {
                Some(n) => {
                    &&& g.contains_node(n)
                    &&& g.set_reaches(old(self).pushed@, n)
                    &&& !old(self).visited@.contains(n)
                    &&& final(self).visited@ == old(self).visited@.push(n)
                },
                None => {
                    &&& final(self).pending@.len() == 0
                    &&& final(self).visited@ == old(self).visited@
                },
            },
    {
        let ghost gg = *g;
        while self.pending.len() > 0
            invariant
                gg == *g,
                g.wf(),
                self.inv(gg),
                self.pushed@ == old(self).pushed@,
                self.visited@ == old(self).visited@,
            decreases self.pending@.len(),
        {
            let ghost before = *self;
            let n = match self.pending.pop() {
                Some(n) => n,
                None => vstd::pervasive::unreached(),
            };
            proof {
                assert(n == before.pending@.last());
                assert(self.pending@ == before.pending@.drop_last());
                // every value of the old pending queue is still pending, or is n
                assert forall|x: u64| before.pending@.contains(x)
                    implies self.pending@.contains(x) || x == n by {
                    lemma_drop_last_contains(before.pending@, x);
                }
                assert(before.pending@.contains(n)) by {
                    assert(before.pending@[before.pending@.len() - 1] == n);
                }
            }
            if !ids_contain(&self.visited, n) {
                let ps = match g.parents(n) {
                    Ok(ps) => ps,
                    Err(_) => {
                        proof {
                            assert(false);
                        }
                        vstd::pervasive::unreached()
                    },
                };
                let ghost mid = *self;
                let mut j: usize = 0;
                let m = ps.len();
                while j < m
                    invariant
                        0 <= j <= m,
                        m == ps@.len(),
                        self.pending@ == mid.pending@ + ps@.subrange(0, j as int),
                        self.visited == mid.visited,
                        self.pushed == mid.pushed,
                    decreases m - j,
                {
                    let ghost pre = self.pending@;
                    self.pending.push(ps[j]);
                    proof {
                        assert(pre.push(ps@[j as int])
                            =~= mid.pending@ + ps@.subrange(0, j + 1));
                    }
                    j = j + 1;
                }
                proof {
                    assert(ps@.subrange(0, m as int) =~= ps@);
                    assert(self.pending@ == mid.pending@ + ps@);
                }
                self.visited.push(n);
                proof {
                    let pushed = self.pushed@;
                    assert(gg.set_reaches(pushed, n)) by {
                        assert(before.pending@.contains(n));
                        let i = choose|i: int|
                            0 <= i < before.pending@.len() && before.pending@[i] == n;
                    }
                    // the new pending queue: old entries minus one occurrence
                    // of n, plus the parents of n
                    assert forall|i: int| 0 <= i < self.pending@.len()
                        implies gg.contains_node(#[trigger] self.pending@[i])
                            && gg.set_reaches(pushed, self.pending@[i]) by {
                        if i < mid.pending@.len() {
                            assert(self.pending@[i] == mid.pending@[i]);
                        } else {
                            let k = i - mid.pending@.len();
                            assert(self.pending@[i] == gg.parents_of(n)[k]);
                            lemma_parent_index(gg, n, k);
                            lemma_reaches_parent(gg, n, k);
                            let s = choose|s: u64| pushed.contains(s) && gg.reaches(s, n);
                            assert(gg.contains_node(s));
                            lemma_reaches_trans(gg, s, n, gg.parents_of(n)[k]);
                        }
                    }
                    assert forall|i: int| 0 <= i < self.visited@.len()
                        implies gg.contains_node(#[trigger] self.visited@[i])
                            && gg.set_reaches(pushed, self.visited@[i]) by {
                        if i < before.visited@.len() {
                            assert(self.visited@[i] == before.visited@[i]);
                        } else {
                            assert(self.visited@[i] == n);
                        }
                    }
                    assert(self.visited@.no_duplicates()) by {
                        assert(before.visited@.no_duplicates());
                        assert(!before.visited@.contains(n));
                        assert forall|a: int, b: int|
                            0 <= a < self.visited@.len() && 0 <= b < self.visited@.len() && a != b
                                implies self.visited@[a] != self.visited@[b] by {
                            if a < before.visited@.len() && b < before.visited@.len() {
                                assert(before.visited@[a] != before.visited@[b]);
                            } else if a < before.visited@.len() {
                                assert(self.visited@[b] == n);
                                if before.visited@[a] == n {
                                    assert(before.visited@.contains(n));
                                }
                            } else {
                                assert(self.visited@[a] == n);
                                if b < before.visited@.len() && before.visited@[b] == n {
                                    assert(before.visited@.contains(n));
                                }
                            }
                        }
                    }
                    assert forall|s: u64| pushed.contains(s)
                        implies self.visited@.contains(s) || self.pending@.contains(s) by {
                        assert(before.visited@.contains(s) || before.pending@.contains(s));
                        if before.visited@.contains(s) {
                            lemma_push_contains(before.visited@, n, s);
                        } else {
                            if self.pending@.contains(s) {
                            } else {
                                // s left pending only if it was the popped value
                                if mid.pending@.contains(s) {
                                    let i = choose|i: int|
                                        0 <= i < mid.pending@.len() && mid.pending@[i] == s;
                                    assert(self.pending@[i] == s);
                                } else {
                                    assert(s == n);
                                    lemma_push_contains(before.visited@, n, s);
                                }
                            }
                        }
                    }
                    assert forall|i: int, k: int|
                        0 <= i < self.visited@.len()
                            && 0 <= k < gg.parents_of(self.visited@[i]).len()
                            implies self.visited@.contains(
                                #[trigger] gg.parents_of(self.visited@[i])[k])
                                || self.pending@.contains(gg.parents_of(self.visited@[i])[k]) by {
                        let v = self.visited@[i];
                        let p = gg.parents_of(v)[k];
                        if i < before.visited@.len() {
                            assert(before.visited@.contains(p) || before.pending@.contains(p));
                            if before.visited@.contains(p) {
                                lemma_push_contains(before.visited@, n, p);
                            } else if mid.pending@.contains(p) {
                                let q = choose|q: int|
                                    0 <= q < mid.pending@.len() && mid.pending@[q] == p;
                                assert(self.pending@[q] == p);
                            } else {
                                assert(p == n);
                                lemma_push_contains(before.visited@, n, p);
                            }
                        } else {
                            assert(v == n);
                            assert(self.pending@[mid.pending@.len() + k] == p);
                        }
                    }
                }
                return Some(n);
            }
            proof {
                // the skipped value was already visited; the invariant survives
                assert(before.visited@.contains(n));
                assert forall|s: u64| self.pushed@.contains(s)
                    implies self.visited@.contains(s) || self.pending@.contains(s) by {
                    if before.pending@.contains(s) && !self.pending@.contains(s) {
                        assert(s == n);
                    }
                }
                assert forall|i: int, k: int|
                    0 <= i < self.visited@.len()
                        && 0 <= k < gg.parents_of(self.visited@[i]).len()
                        implies self.visited@.contains(
                            #[trigger] gg.parents_of(self.visited@[i])[k])
                            || self.pending@.contains(gg.parents_of(self.visited@[i])[k]) by {
                    let p = gg.parents_of(self.visited@[i])[k];
                    assert(before.visited@.contains(p) || before.pending@.contains(p));
                    if !before.visited@.contains(p) && !self.pending@.contains(p) {
                        assert(p == n);
                    }
                }
            }
        }
        None
    }
}

/// After a frontier has been drained, the visited list is exactly the
/// ancestor closure of the pushed seeds.
pub proof fn lemma_drained_frontier(g: Graph, f: Frontier)
    requires
        g.wf(),
        f.inv(g),
        f.pending@.len() == 0,
    ensures
        forall|t: u64| f.visited@.contains(t) <==> g.set_reaches(f.pushed@, t),
{
    assert forall|t: u64| f.visited@.contains(t) implies g.set_reaches(f.pushed@, t) by {
        let i = choose|i: int| 0 <= i < f.visited@.len() && f.visited@[i] == t;
        assert(g.set_reaches(f.pushed@, f.visited@[i]));
    }
    let s = Set::new(|x: u64| f.visited@.contains(x));
    assert forall|t: u64| g.set_reaches(f.pushed@, t) implies f.visited@.contains(t) by {
        let seed = choose|seed: u64| f.pushed@.contains(seed) && g.reaches(seed, t);
        assert(f.visited@.contains(seed));
        let i = choose|i: int| 0 <= i < f.visited@.len() && f.visited@[i] == seed;
        assert(g.contains_node(f.visited@[i]));
        assert forall|n: u64, k: int|
            s.contains(n) && g.contains_node(n) && 0 <= k < g.parents_of(n).len()
                implies s.contains(#[trigger] g.parents_of(n)[k]) by {
            let j = choose|j: int| 0 <= j < f.visited@.len() && f.visited@[j] == n;
            assert(f.visited@.contains(g.parents_of(f.visited@[j])[k])
                || f.pending@.contains(g.parents_of(f.visited@[j])[k]));
        }
        lemma_closed_contains_reachable(g, s, seed, t);
    }
}

/// The subsequence of `watched`, in order, whose targets are reachable
/// from `seeds`.
pub open spec fn collectable_of(g: Graph, seeds: Set<u64>, watched: Seq<RefData>) -> Seq<RefData>
    decreases watched.len(),
{
    if watched.len() == 0 {
        Seq::empty()
    } else {
        let rest = collectable_of(g, seeds, watched.skip(1));
        if g.set_reaches(seeds, watched[0].target) {
            seq![watched[0]] + rest
        } else {
            rest
        }
    }
}

/// The reachability watcher: pairs an ancestor frontier with a set of
/// watched references; a watched reference whose target is visited by the
/// frontier is redundant and reported collectable.
pub struct RefsReferringTo {
    pub frontier: Frontier,
    pub watched: Vec<GitRef>,
}

impl RefsReferringTo {
    pub open spec fn inv(self, g: Graph) -> bool {
        self.frontier.inv(g)
    }

    pub open spec fn pushed(self) -> Set<u64> {
        self.frontier.pushed@
    }

    /// Wrap a frontier; nothing is watched yet.
    pub fn new(frontier: Frontier) -> (w: RefsReferringTo)
        ensures
            w.frontier == frontier,
            w.watched@.len() == 0,
            w.watched.deep_view() == Seq::<RefData>::empty(),
    {
        let w = RefsReferringTo { frontier, watched: Vec::new() };
        proof {
            assert(w.watched.deep_view() =~= Seq::<RefData>::empty());
        }
        w
    }

    /// Schedule a node in the underlying frontier.
    pub fn push(&mut self, g: &Graph, id: u64) -> (r: Result<(), Error>)
        requires
            g.wf(),
            old(self).inv(*g),
        ensures
            final(self).inv(*g),
            final(self).watched == old(self).watched,
            final(self).frontier.visited@ == old(self).frontier.visited@,
            match r {
                Ok(()) => g.contains_node(id)
                    && final(self).pushed() == old(self).pushed().insert(id),
                Err(e) => {
                    &&& !g.contains_node(id)
                    &&& e == Error::CannotGetCommit(id)
                    &&& *final(self) == *old(self)
                },
            },
    {
        self.frontier.push(g, id)
    }

    /// Watch a reference: it becomes a deletion candidate, matched by its
    /// target. Fails if the target cannot be resolved in the graph.
    pub fn watch_ref(&mut self, g: &Graph, r: GitRef) -> (res: Result<(), Error>)
        requires
            g.wf(),
            old(self).inv(*g),
        ensures
            final(self).inv(*g),
            final(self).frontier == old(self).frontier,
            match res {
                Ok(()) => g.contains_node(r.target)
                    && final(self).watched.deep_view() == old(self).watched.deep_view().push(r@),
                Err(e) => {
                    &&& !g.contains_node(r.target)
                    &&& e == Error::CannotGetCommit(r.target)
                    &&& *final(self) == *old(self)
                },
            },
    {
        if !g.contains(r.target) {
            return Err(Error::CannotGetCommit(r.target));
        }
        let ghost old_dv = self.watched.deep_view();
        let ghost rv = r@;
        self.watched.push(r);
        proof {
            assert(self.watched.deep_view() =~= old_dv.push(rv));
        }
        Ok(())
    }

    /// Drain the frontier and report, in watch order, every watched
    /// reference whose target is reachable from the pushed seeds.
    pub fn collect_collectable(self, g: &Graph) -> (out: Vec<GitRef>)
        requires
            g.wf(),
            self.inv(*g),
        ensures
            out.deep_view() == collectable_of(*g, self.pushed(), self.watched.deep_view()),
    {
        let RefsReferringTo { mut frontier, mut watched } = self;
        let ghost gg = *g;
        let ghost pushed = frontier.pushed@;
        let mut more = true;
        proof {
            lemma_visited_bound(gg, frontier.visited@);
        }
        while more
            invariant
                gg == *g,
                g.wf(),
                frontier.inv(gg),
                frontier.pushed@ == pushed,
                frontier.visited@.len() <= gg.nodes@.len(),
                !more ==> frontier.pending@.len() == 0,
            decreases gg.nodes@.len() - frontier.visited@.len() + (if more { 1int } else { 0int }),
        {
            match frontier.next(g) {
                Some(_) => {
                    proof {
                        lemma_visited_bound(gg, frontier.visited@);
                    }
                },
                None => {
                    more = false;
                },
            }
        }
        proof {
            lemma_drained_frontier(gg, frontier);
        }
        let ghost orig = watched.deep_view();
        let mut out: Vec<GitRef> = Vec::new();
        proof {
            assert(out.deep_view() =~= Seq::<RefData>::empty());
            assert(out.deep_view() + collectable_of(gg, pushed, orig)
                =~= collectable_of(gg, pushed, orig));
        }
        while watched.len() > 0
            invariant
                gg == *g,
                g.wf(),
                frontier.inv(gg),
                frontier.pushed@ == pushed,
                frontier.pending@.len() == 0,
                collectable_of(gg, pushed, orig)
                    == out.deep_view() + collectable_of(gg, pushed, watched.deep_view()),
            decreases watched@.len(),
        {
            let ghost wdv = watched.deep_view();
            let r = watched.remove(0);
            proof {
                assert(watched.deep_view() =~= wdv.skip(1));
                assert(r@ == wdv[0]);
            }
            let hit = ids_contain(&frontier.visited, r.target);
            proof {
                lemma_drained_frontier(gg, frontier);
                assert(hit == gg.set_reaches(pushed, r.target));
            }
            if hit {
                let ghost odv = out.deep_view();
                out.push(r);
                proof {
                    assert(out.deep_view() =~= odv.push(wdv[0]));
                    assert(odv + (seq![wdv[0]] + collectable_of(gg, pushed, wdv.skip(1)))
                        =~= odv.push(wdv[0]) + collectable_of(gg, pushed, wdv.skip(1)));
                }
            }
        }
        proof {
            assert(watched.deep_view() =~= Seq::<RefData>::empty());
            assert(collectable_of(gg, pushed, watched.deep_view()) == Seq::<RefData>::empty());
            assert(out.deep_view() + Seq::<RefData>::empty() =~= out.deep_view());
        }
        out
    }
}

/// A first-parent walk: the lazy sequence of nodes from a start, following
/// only first parents, in child-before-parent order.
pub struct Messages {
    pub current: Option<u64>,
}

impl Messages {
    pub open spec fn inv(self, g: Graph) -> bool {
        match self.current {
            Some(c) => g.contains_node(c),
            None => true,
        }
    }

    /// Start a walk at `id`; fails if the node is unknown.
    pub fn start(g: &Graph, id: u64) -> (r: Result<Messages, Error>)
        requires
            g.wf(),
        ensures
            match r {
                Ok(m) => g.contains_node(id) && m.inv(*g) && m.current == Some(id),
                Err(e) => !g.contains_node(id) && e == Error::CannotGetCommit(id),
            },
    {
        if g.contains(id) {
            Ok(Messages { current: Some(id) })
        } else {
            Err(Error::CannotGetCommit(id))
        }
    }

    /// Yield the current node and step to its first parent.
    pub fn next(&mut self, g: &Graph) -> (r: Option<u64>)
        requires
            g.wf(),
            old(self).inv(*g),
        ensures
            final(self).inv(*g),
            match old(self).current {
                None => r is None && final(self).current is None,
                Some(c) => {
                    &&& r == Some(c)
                    &&& final(self).current == (if g.parents_of(c).len() == 0 {
                        Option::<u64>::None
                    } else {
                        Option::<u64>::Some(g.parents_of(c)[0])
                    })
                },
            },
    {
        match self.current {
            None => None,
            Some(c) => {
                let ps = match g.parents(c) {
                    Ok(ps) => ps,
                    Err(_) => {
                        proof {
                            assert(false);
                        }
                        vstd::pervasive::unreached()
                    },
                };
                if ps.len() == 0 {
                    self.current = None;
                } else {
                    proof {
                        lemma_parent_index(*g, c, 0);
                    }
                    self.current = Some(ps[0]);
                }
                Some(c)
            },
        }
    }
}

/// A first-parent walk truncated right after the first node that is an
/// issue root (witnessed by a boundary reference), inclusive.
pub struct IssueMessagesIter {
    pub messages: Messages,
    pub done: bool,
}

impl IssueMessagesIter {
    pub open spec fn inv(self, g: Graph) -> bool {
        self.messages.inv(g)
    }

    /// Start at `id`; fails if the node is unknown.
    pub fn start(g: &Graph, id: u64) -> (r: Result<IssueMessagesIter, Error>)
        requires
            g.wf(),
        ensures
            match r {
                Ok(it) => {
                    &&& g.contains_node(id)
                    &&& it.inv(*g)
                    &&& it.messages.current == Some(id)
                    &&& it.done == false
                },
                Err(e) => !g.contains_node(id) && e == Error::CannotGetCommit(id),
            },
    {
        let messages = Messages::start(g, id)?;
        Ok(IssueMessagesIter { messages, done: false })
    }

    /// Yield the next node of the walk; after a node with a boundary
    /// reference has been yielded, the walk is exhausted.
    pub fn next(&mut self, g: &Graph, refs: &RefStore) -> (r: Option<u64>)
        requires
            g.wf(),
            old(self).inv(*g),
        ensures
            final(self).inv(*g),
            match r {
                None => old(self).done || old(self).messages.current is None,
                Some(m) => {
                    &&& !old(self).done
                    &&& old(self).messages.current == Some(m)
                    &&& final(self).done == spec_has_boundary(refs@, m)
                    &&& final(self).messages.current == (if g.parents_of(m).len() == 0 {
                        Option::<u64>::None
                    } else {
                        Option::<u64>::Some(g.parents_of(m)[0])
                    })
                },
            },
    {
        if self.done {
            return None;
        }
        match self.messages.next(g) {
            None => None,
            Some(m) => {
                if refs.has_boundary(m) {
                    self.done = true;
                }
                Some(m)
            },
        }
    }
}


} // verus!
