//! The retention policy engine: computes, per issue, the set of references
//! proven redundant — their targets already reachable from retained
//! ancestry — and therefore safe to delete.

use vstd::prelude::*;

use crate::error::Error;
use crate::graph::Graph;
use crate::issue::Issue;
use crate::iter::{collectable_of, Frontier, RefsReferringTo};
use crate::refs::{find_named, has_named, head_suffix, hex_of, is_local_leaf_name,
    is_remote_head_name, is_remote_ref_name, leaves_infix, lemma_filter_compose,
    lemma_filter_congruent, lemma_filter_contains_all, lemma_find_named,
    lemma_find_named_filter, local_head_name, local_leaf_prefix, local_prefix, remote_prefix,
    GitRef, RefData, RefStore};
use crate::graph::{lemma_parent_index, lemma_reaches_index};
use crate::iter::lemma_append_contains;

verus! {

/// Under what circumstances the local boundary reference itself may be
/// collected.
#[derive(Clone, Copy, PartialEq, Eq, Structural)]
pub enum ReferenceCollectionSpec {
    /// The local boundary reference is never eligible.
    Never,
    /// The local boundary reference is eligible exactly when its target is
    /// already an ancestor of some remote boundary reference's target.
    BackedByRemoteHead,
}

/// The local tip references of the issue rooted at `id`.
pub open spec fn local_leaves_of(refs: Seq<RefData>, id: u64) -> Seq<RefData> {
    refs.filter(|r: RefData| is_local_leaf_name(r.name, id))
}

/// The remote boundary references of the issue rooted at `id`.
pub open spec fn remote_heads_of(refs: Seq<RefData>, id: u64) -> Seq<RefData> {
    refs.filter(|r: RefData| is_remote_head_name(r.name, id))
}

/// Every remote-scope reference of the issue rooted at `id`.
pub open spec fn remote_refs_of(refs: Seq<RefData>, id: u64) -> Seq<RefData> {
    refs.filter(|r: RefData| is_remote_ref_name(r.name, id))
}

/// The local boundary reference of the issue rooted at `id`, if present.
pub open spec fn local_head_of(refs: Seq<RefData>, id: u64) -> Option<RefData> {
    find_named(refs, local_head_name(id))
}

/// The set of target identifiers of a reference list.
pub open spec fn targets_of(refs: Seq<RefData>) -> Set<u64> {
    Set::new(|t: u64| exists|i: int| 0 <= i < refs.len() && #[trigger] refs[i].target == t)
}

/// The set of parents of the targets of a reference list: the retained
/// baseline contributed by tip references (their parents, never the tips
/// themselves).
pub open spec fn parent_seeds(g: Graph, refs: Seq<RefData>) -> Set<u64> {
    Set::new(
        |p: u64|
            exists|i: int, k: int|
                0 <= i < refs.len() && 0 <= k < g.parents_of(refs[i].target).len()
                    && #[trigger] g.parents_of(refs[i].target)[k] == p,
    )
}

/// The seeds of the main frontier: the local boundary target (if any), the
/// parents of every local tip target, and — only when remote references
/// are considered — every remote reference's target.
pub open spec fn main_seeds(g: Graph, refs: Seq<RefData>, id: u64, consider_remote: bool) -> Set<
    u64,
> {
    let head_part = match local_head_of(refs, id) {
        Some(h) => Set::<u64>::empty().insert(h.target),
        None => Set::<u64>::empty(),
    };
    let remote_part = if consider_remote {
        targets_of(remote_refs_of(refs, id))
    } else {
        Set::<u64>::empty()
    };
    head_part.union(parent_seeds(g, local_leaves_of(refs, id))).union(remote_part)
}

/// The local-boundary part of the collectible set: the local boundary
/// reference alone, and only when the policy allows it and its target is
/// reachable from some remote boundary target — judged against a frontier
/// separate from the tip frontier.
pub open spec fn head_collectable(
    g: Graph,
    refs: Seq<RefData>,
    id: u64,
    collect_heads: ReferenceCollectionSpec,
) -> Seq<RefData> {
    match local_head_of(refs, id) {
        Some(h) => {
            if collect_heads is BackedByRemoteHead
                && g.set_reaches(targets_of(remote_heads_of(refs, id)), h.target) {
                seq![h]
            } else {
                Seq::empty()
            }
        },
        None => Seq::empty(),
    }
}

/// The full collectible set for one issue: the local-boundary part, then
/// every local tip reference whose target is reachable from the main
/// seeds, in store order.
pub open spec fn collectable_for_issue(
    g: Graph,
    refs: Seq<RefData>,
    id: u64,
    consider_remote: bool,
    collect_heads: ReferenceCollectionSpec,
) -> Seq<RefData> {
    head_collectable(g, refs, id, collect_heads) + collectable_of(
        g,
        main_seeds(g, refs, id, consider_remote),
        local_leaves_of(refs, id),
    )
}

/// Every node the computation resolves is present in the graph: the local
/// boundary target, every local tip target, the remote boundary targets
/// when the policy inspects them, and every remote target when remote
/// references are considered.
pub open spec fn seeding_ok(
    g: Graph,
    refs: Seq<RefData>,
    id: u64,
    consider_remote: bool,
    collect_heads: ReferenceCollectionSpec,
) -> bool {
    &&& match local_head_of(refs, id) {
        Some(h) => g.contains_node(h.target) && (collect_heads is BackedByRemoteHead
            ==> forall|i: int|
                0 <= i < remote_heads_of(refs, id).len() ==> g.contains_node(
                    #[trigger] remote_heads_of(refs, id)[i].target,
                )),
        None => true,
    }
    &&& forall|i: int|
        0 <= i < local_leaves_of(refs, id).len() ==> g.contains_node(
            #[trigger] local_leaves_of(refs, id)[i].target,
        )
    &&& consider_remote ==> forall|i: int|
        0 <= i < remote_refs_of(refs, id).len() ==> g.contains_node(
            #[trigger] remote_refs_of(refs, id)[i].target,
        )
}

/// Computes collectable references for one issue at a time, under a
/// configurable retention policy.
pub struct CollectableRefs {
    /// Should remote references be considered during collection?
    pub consider_remote_refs: bool,
    /// Under what circumstances should local heads be collected?
    pub collect_heads: ReferenceCollectionSpec,
}

impl CollectableRefs {
    /// By default only local references are considered, and the local
    /// boundary reference is never eligible.
    pub fn new() -> (r: CollectableRefs)
        ensures
            r.consider_remote_refs == false,
            r.collect_heads == ReferenceCollectionSpec::Never,
    {
        CollectableRefs {
            consider_remote_refs: false,
            collect_heads: ReferenceCollectionSpec::Never,
        }
    }

    /// Causes remote references to be considered (pushed as retained
    /// baseline) when deciding which local references are redundant.
    pub fn consider_remote_refs(self, option: bool) -> (r: CollectableRefs)
        ensures
            r.consider_remote_refs == option,
            r.collect_heads == self.collect_heads,
    {
        CollectableRefs { consider_remote_refs: option, ..self }
    }

    /// Causes local boundary references to be collected under the given
    /// condition.
    pub fn collect_heads(self, condition: ReferenceCollectionSpec) -> (r: CollectableRefs)
        ensures
            r.collect_heads == condition,
            r.consider_remote_refs == self.consider_remote_refs,
    {
        CollectableRefs { collect_heads: condition, ..self }
    }

    /// Push the parents of a reference's target — never the target itself,
    /// which would make the reference trivially match its own node.
    fn push_ref_parents(target: &mut RefsReferringTo, g: &Graph, reference: &GitRef) -> (r: Result<
        (),
        Error,
    >)
        requires
            g.wf(),
            old(target).inv(*g),
        ensures
            final(target).inv(*g),
            final(target).watched == old(target).watched,
            match r {
                Ok(()) => g.contains_node(reference.target) && final(target).pushed()
                    == old(target).pushed().union(g.parents_of(reference.target).to_set()),
                Err(e) => {
                    &&& !g.contains_node(reference.target)
                    &&& e == Error::CannotGetCommit(reference.target)
                    &&& *final(target) == *old(target)
                },
            },
    {
        let ps = match g.parents(reference.target) {
            Ok(ps) => ps,
            Err(e) => {
                return Err(e);
            },
        };
        let ghost gps = g.parents_of(reference.target);
        let mut k: usize = 0;
        let m = ps.len();
        while k < m
            invariant
                g.wf(),
                target.inv(*g),
                m == ps@.len(),
                ps@ == gps,
                gps == g.parents_of(reference.target),
                g.contains_node(reference.target),
                target.watched == old(target).watched,
                target.pushed() == old(target).pushed().union(gps.subrange(0, k as int).to_set()),
                0 <= k <= m,
            decreases m - k,
        {
            proof {
                crate::graph::lemma_parent_index(*g, reference.target, k as int);
            }
            let ghost before = target.pushed();
            match target.push(g, ps[k]) {
                Ok(()) => {},
                Err(_) => {
                    proof {
                        assert(false);
                    }
                },
            }
            proof {
                assert forall|x: u64|
                    before.insert(gps[k as int]).contains(x) <==> old(target).pushed().union(
                        gps.subrange(0, k + 1).to_set(),
                    ).contains(x) by {
                    let pre = gps.subrange(0, k as int);
                    let cur = gps.subrange(0, k + 1);
                    assert(cur.drop_last() =~= pre);
                    assert(cur.last() == gps[k as int]);
                    if cur.to_set().contains(x) {
                        assert(cur.contains(x));
                        let i = choose|i: int| 0 <= i < cur.len() && cur[i] == x;
                        if i < cur.len() - 1 {
                            assert(pre[i] == x);
                            assert(pre.contains(x));
                        }
                    }
                    if pre.to_set().contains(x) {
                        let i = choose|i: int| 0 <= i < pre.len() && pre[i] == x;
                        assert(cur[i] == x);
                        assert(cur.contains(x));
                    }
                    if x == gps[k as int] {
                        assert(cur[k as int] == x);
                        assert(cur.contains(x));
                    }
                }
                assert(target.pushed() =~= old(target).pushed().union(
                    gps.subrange(0, k + 1).to_set(),
                ));
            }
            k = k + 1;
        }
        proof {
            assert(gps.subrange(0, m as int) =~= gps);
        }
        Ok(())
    }
}

impl CollectableRefs {
    /// Compute the collectible references for one issue, according to the
    /// configuration: the result is exactly `collectable_for_issue`, i.e.
    /// the local boundary reference when the policy admits it and it is
    /// backed by a remote boundary, followed, in store order, by every
    /// local tip reference whose target is reachable from the retained
    /// baseline. Fails exactly when some inspected reference target cannot
    /// be resolved in the graph.
    pub fn for_issue(&self, g: &Graph, refs: &RefStore, issue: &Issue) -> (r: Result<
        Vec<GitRef>,
        Error,
    >)
        requires
            g.wf(),
        ensures
            match r {
                Ok(v) => seeding_ok(*g, refs@, issue.id, self.consider_remote_refs,
                    self.collect_heads) && v.deep_view() == collectable_for_issue(
                    *g,
                    refs@,
                    issue.id,
                    self.consider_remote_refs,
                    self.collect_heads,
                ),
                Err(e) => !seeding_ok(*g, refs@, issue.id, self.consider_remote_refs,
                    self.collect_heads) && e matches Error::CannotGetCommit(_),
            },
    {
        let id = issue.id;
        let mut retval = RefsReferringTo::new(Frontier::new());
        let mut result: Vec<GitRef>;
        let ghost head_opt_spec = local_head_of(refs@, id);

        // local head
        let head_opt = refs.local_head(id);
        match head_opt {
            Some(local_head) => {
                let ghost hv = local_head@;
                proof {
                    assert(head_opt_spec == Some(hv));
                }
                match retval.push(g, local_head.target) {
                    Ok(()) => {},
                    Err(e) => {
                        proof {
                            assert(!g.contains_node(hv.target));
                        }
                        return Err(e);
                    },
                }
                // Whether the local head is collectable is judged against a
                // separate frontier, seeded only from remote boundary
                // targets: mixing it with the tip frontier would delete the
                // head whenever any tip was posted as a reply to it.
                let mut head_history = Frontier::new();
                match self.collect_heads {
                    ReferenceCollectionSpec::Never => {},
                    ReferenceCollectionSpec::BackedByRemoteHead => {
                        let rheads = refs.remote_heads(id);
                        let ghost rh = remote_heads_of(refs@, id);
                        let mut i: usize = 0;
                        let n = rheads.len();
                        proof {
                            assert(rheads.deep_view() == rh);
                            assert(rheads.deep_view().len() == rheads@.len());
                            assert(head_history.pushed@ =~= targets_of(rh.subrange(0, 0)));
                        }
                        while i < n
                            invariant
                                g.wf(),
                                id == issue.id,
                                n == rheads@.len(),
                                rheads.deep_view() == rh,
                                rh == remote_heads_of(refs@, id),
                                local_head_of(refs@, id) == Some(hv),
                                self.collect_heads is BackedByRemoteHead,
                                rh.len() == n,
                                head_history.inv(*g),
                                head_history.pushed@ == targets_of(rh.subrange(0, i as int)),
                                forall|j: int| 0 <= j < i ==> g.contains_node(
                                    #[trigger] rh[j].target),
                                0 <= i <= n,
                            decreases n - i,
                        {
                            proof {
                                assert(rheads@[i as int].deep_view() == rh[i as int]);
                            }
                            let ghost before = head_history.pushed@;
                            match head_history.push(g, rheads[i].target) {
                                Ok(()) => {},
                                Err(e) => {
                                    proof {
                                        assert(!g.contains_node(rh[i as int].target));
                                        assert(!seeding_ok(*g, refs@, id,
                                            self.consider_remote_refs, self.collect_heads));
                                    }
                                    return Err(e);
                                },
                            }
                            proof {
                                let pre = rh.subrange(0, i as int);
                                let cur = rh.subrange(0, i + 1);
                                assert forall|x: u64|
                                    before.insert(rh[i as int].target).contains(x)
                                        <==> targets_of(cur).contains(x) by {
                                    if targets_of(cur).contains(x) {
                                        let q = choose|q: int|
                                            0 <= q < cur.len() && #[trigger] cur[q].target == x;
                                        if q < cur.len() - 1 {
                                            assert(pre[q].target == x);
                                            assert(targets_of(pre).contains(x));
                                        } else {
                                            assert(cur[q] == rh[i as int]);
                                        }
                                    }
                                    if targets_of(pre).contains(x) {
                                        let q = choose|q: int|
                                            0 <= q < pre.len() && #[trigger] pre[q].target == x;
                                        assert(cur[q].target == x);
                                        assert(targets_of(cur).contains(x));
                                    }
                                    if x == rh[i as int].target {
                                        assert(cur[i as int].target == x);
                                        assert(targets_of(cur).contains(x));
                                    }
                                }
                                assert(head_history.pushed@ =~= targets_of(cur));
                            }
                            i = i + 1;
                        }
                        proof {
                            assert(rh.subrange(0, n as int) =~= rh);
                        }
                    },
                }
                let ghost head_seeds = head_history.pushed@;
                proof {
                    if self.collect_heads is BackedByRemoteHead {
                        assert(head_seeds == targets_of(remote_heads_of(refs@, id)));
                    } else {
                        assert(head_seeds == Set::<u64>::empty());
                    }
                }
                let mut referring = RefsReferringTo::new(head_history);
                match referring.watch_ref(g, local_head) {
                    Ok(()) => {},
                    Err(_) => {
                        proof {
                            assert(false);
                        }
                    },
                }
                proof {
                    assert(referring.watched.deep_view() =~= seq![hv]);
                }
                let out = referring.collect_collectable(g);
                proof {
                    let single = seq![hv];
                    assert(single.skip(1) =~= Seq::<RefData>::empty());
                    assert(collectable_of(*g, head_seeds, single.skip(1))
                        == Seq::<RefData>::empty());
                    assert(single[0] == hv);
                    if g.set_reaches(head_seeds, hv.target) {
                        assert(collectable_of(*g, head_seeds, single)
                            =~= seq![hv]);
                    } else {
                        assert(collectable_of(*g, head_seeds, single)
                            =~= Seq::<RefData>::empty());
                    }
                    if self.collect_heads is Never {
                        assert(!g.set_reaches(Set::<u64>::empty(), hv.target));
                    }
                    assert(out.deep_view() == head_collectable(*g, refs@, id, self.collect_heads));
                }
                result = out;
            },
            None => {
                result = Vec::new();
                proof {
                    assert(result.deep_view() =~= Seq::<RefData>::empty());
                    assert(head_collectable(*g, refs@, id, self.collect_heads)
                        == Seq::<RefData>::empty());
                }
            },
        }
        let ghost head_dv = result.deep_view();
        let ghost s0 = retval.pushed();
        proof {
            assert(head_dv == head_collectable(*g, refs@, id, self.collect_heads));
            match head_opt_spec {
                Some(h) => {
                    assert(s0 =~= Set::<u64>::empty().insert(h.target));
                    assert(g.contains_node(h.target));
                },
                None => {
                    assert(s0 =~= Set::<u64>::empty());
                },
            }
        }

        // local leaves: push the parents of each tip's target — never the
        // target itself — then watch the tip.
        let leaves = refs.local_leaves(id);
        let ghost ll = local_leaves_of(refs@, id);
        let mut j: usize = 0;
        let m = leaves.len();
        proof {
            assert(leaves.deep_view() == ll);
            assert(leaves.deep_view().len() == leaves@.len());
            assert(retval.pushed() =~= s0.union(parent_seeds(*g, ll.subrange(0, 0))));
            assert(retval.watched.deep_view() =~= ll.subrange(0, 0));
        }
        while j < m
            invariant
                g.wf(),
                id == issue.id,
                m == leaves@.len(),
                leaves.deep_view() == ll,
                ll == local_leaves_of(refs@, id),
                ll.len() == m,
                retval.inv(*g),
                retval.pushed() == s0.union(parent_seeds(*g, ll.subrange(0, j as int))),
                retval.watched.deep_view() == ll.subrange(0, j as int),
                forall|q: int| 0 <= q < j ==> g.contains_node(#[trigger] ll[q].target),
                0 <= j <= m,
            decreases m - j,
        {
            proof {
                assert(leaves@[j as int].deep_view() == ll[j as int]);
            }
            let leaf = leaves[j].dup();
            let ghost before = retval.pushed();
            match Self::push_ref_parents(&mut retval, g, &leaf) {
                Ok(()) => {},
                Err(e) => {
                    proof {
                        assert(!g.contains_node(ll[j as int].target));
                        assert(!seeding_ok(*g, refs@, id, self.consider_remote_refs,
                            self.collect_heads));
                    }
                    return Err(e);
                },
            }
            match retval.watch_ref(g, leaf) {
                Ok(()) => {},
                Err(_) => {
                    proof {
                        assert(false);
                    }
                },
            }
            proof {
                let pre = ll.subrange(0, j as int);
                let cur = ll.subrange(0, j + 1);
                let pset = g.parents_of(ll[j as int].target).to_set();
                assert forall|x: u64|
                    parent_seeds(*g, cur).contains(x)
                        <==> parent_seeds(*g, pre).contains(x) || pset.contains(x) by {
                    if parent_seeds(*g, cur).contains(x) {
                        let (q, k): (int, int) = choose|q: int, k: int|
                            0 <= q < cur.len() && 0 <= k < g.parents_of(cur[q].target).len()
                                && #[trigger] g.parents_of(cur[q].target)[k] == x;
                        if q < cur.len() - 1 {
                            assert(pre[q] == cur[q]);
                            assert(g.parents_of(pre[q].target)[k] == x);
                            assert(parent_seeds(*g, pre).contains(x));
                        } else {
                            assert(cur[q] == ll[j as int]);
                            assert(g.parents_of(ll[j as int].target).contains(x));
                        }
                    }
                    if parent_seeds(*g, pre).contains(x) {
                        let (q, k): (int, int) = choose|q: int, k: int|
                            0 <= q < pre.len() && 0 <= k < g.parents_of(pre[q].target).len()
                                && #[trigger] g.parents_of(pre[q].target)[k] == x;
                        assert(cur[q] == pre[q]);
                        assert(g.parents_of(cur[q].target)[k] == x);
                        assert(parent_seeds(*g, cur).contains(x));
                    }
                    if pset.contains(x) {
                        assert(g.parents_of(ll[j as int].target).contains(x));
                        let k = choose|k: int|
                            0 <= k < g.parents_of(ll[j as int].target).len()
                                && g.parents_of(ll[j as int].target)[k] == x;
                        assert(cur[j as int] == ll[j as int]);
                        assert(g.parents_of(cur[j as int].target)[k] == x);
                        assert(parent_seeds(*g, cur).contains(x));
                    }
                }
                assert(retval.pushed() =~= s0.union(parent_seeds(*g, cur)));
                assert(retval.watched.deep_view() =~= cur);
            }
            j = j + 1;
        }
        proof {
            assert(ll.subrange(0, m as int) =~= ll);
        }

        // remote references become an unconditionally retained baseline
        if self.consider_remote_refs {
            let rrefs = refs.remote_refs(id);
            let ghost rr = remote_refs_of(refs@, id);
            let mut i: usize = 0;
            let n = rrefs.len();
            proof {
                assert(rrefs.deep_view() == rr);
                assert(rrefs.deep_view().len() == rrefs@.len());
                assert(retval.pushed() =~= s0.union(parent_seeds(*g, ll)).union(
                    targets_of(rr.subrange(0, 0))));
            }
            while i < n
                invariant
                    g.wf(),
                    id == issue.id,
                    n == rrefs@.len(),
                    rrefs.deep_view() == rr,
                    rr == remote_refs_of(refs@, id),
                    self.consider_remote_refs == true,
                    rr.len() == n,
                    retval.inv(*g),
                    retval.pushed() == s0.union(parent_seeds(*g, ll)).union(
                        targets_of(rr.subrange(0, i as int))),
                    retval.watched.deep_view() == ll,
                    forall|q: int| 0 <= q < i ==> g.contains_node(#[trigger] rr[q].target),
                    0 <= i <= n,
                decreases n - i,
            {
                proof {
                    assert(rrefs@[i as int].deep_view() == rr[i as int]);
                }
                let ghost before = retval.pushed();
                match retval.push(g, rrefs[i].target) {
                    Ok(()) => {},
                    Err(e) => {
                        proof {
                            assert(!g.contains_node(rr[i as int].target));
                            assert(!seeding_ok(*g, refs@, id, self.consider_remote_refs,
                                self.collect_heads));
                        }
                        return Err(e);
                    },
                }
                proof {
                    let pre = rr.subrange(0, i as int);
                    let cur = rr.subrange(0, i + 1);
                    assert forall|x: u64|
                        targets_of(cur).contains(x)
                            <==> targets_of(pre).contains(x) || x == rr[i as int].target by {
                        if targets_of(cur).contains(x) {
                            let q = choose|q: int|
                                0 <= q < cur.len() && #[trigger] cur[q].target == x;
                            if q < cur.len() - 1 {
                                assert(pre[q].target == x);
                                assert(targets_of(pre).contains(x));
                            } else {
                                assert(cur[q] == rr[i as int]);
                            }
                        }
                        if targets_of(pre).contains(x) {
                            let q = choose|q: int|
                                0 <= q < pre.len() && #[trigger] pre[q].target == x;
                            assert(cur[q].target == x);
                            assert(targets_of(cur).contains(x));
                        }
                        if x == rr[i as int].target {
                            assert(cur[i as int].target == x);
                            assert(targets_of(cur).contains(x));
                        }
                    }
                    assert(retval.pushed() =~= s0.union(parent_seeds(*g, ll)).union(
                        targets_of(cur)));
                }
                i = i + 1;
            }
            proof {
                assert(rr.subrange(0, n as int) =~= rr);
            }
        }

        proof {
            assert(retval.pushed() =~= main_seeds(*g, refs@, id, self.consider_remote_refs));
            assert(seeding_ok(*g, refs@, id, self.consider_remote_refs, self.collect_heads));
        }
        let mut rest = retval.collect_collectable(g);
        let ghost rest_dv = rest.deep_view();
        result.append(&mut rest);
        proof {
            assert(result.deep_view() =~= head_dv + rest_dv);
        }
        Ok(result)
    }
}


/// Membership in a collectible set: exactly the watched references whose
/// targets are reachable from the seeds.
pub proof fn lemma_collectable_of_membership(g: Graph, seeds: Set<u64>, ws: Seq<RefData>)
    ensures
        forall|r: RefData| #[trigger] collectable_of(g, seeds, ws).contains(r)
            <==> exists|i: int| 0 <= i < ws.len() && ws[i] == r && g.set_reaches(seeds, r.target),
    decreases ws.len(),
{
    let c = collectable_of(g, seeds, ws);
    if ws.len() == 0 {
        assert forall|r: RefData| !(#[trigger] c.contains(r)) by {
            assert(c.len() == 0);
        }
    } else {
        lemma_collectable_of_membership(g, seeds, ws.skip(1));
        let rest = collectable_of(g, seeds, ws.skip(1));
        assert forall|r: RefData| #[trigger] c.contains(r) implies exists|i: int|
            0 <= i < ws.len() && ws[i] == r && g.set_reaches(seeds, r.target) by {
            if g.set_reaches(seeds, ws[0].target) {
                assert(c == seq![ws[0]] + rest);
                lemma_append_contains(seq![ws[0]], rest, r);
                if seq![ws[0]].contains(r) {
                    assert(seq![ws[0]][0] == r);
                    assert(ws[0] == r);
                } else {
                    let i = choose|i: int|
                        0 <= i < ws.skip(1).len() && ws.skip(1)[i] == r && g.set_reaches(
                            seeds,
                            r.target,
                        );
                    assert(ws[i + 1] == r);
                }
            } else {
                assert(c == rest);
                let i = choose|i: int|
                    0 <= i < ws.skip(1).len() && ws.skip(1)[i] == r && g.set_reaches(
                        seeds,
                        r.target,
                    );
                assert(ws[i + 1] == r);
            }
        }
        assert forall|r: RefData| (exists|i: int|
            0 <= i < ws.len() && ws[i] == r && g.set_reaches(seeds, r.target))
            implies #[trigger] c.contains(r) by {
            let i = choose|i: int|
                0 <= i < ws.len() && ws[i] == r && g.set_reaches(seeds, r.target);
            if i == 0 {
                assert(c == seq![ws[0]] + rest);
                assert(c[0] == r);
            } else {
                assert(ws.skip(1)[i - 1] == r);
                assert(rest.contains(r));
                if g.set_reaches(seeds, ws[0].target) {
                    assert(c == seq![ws[0]] + rest);
                    lemma_append_contains(seq![ws[0]], rest, r);
                } else {
                    assert(c == rest);
                }
            }
        }
    }
}

/// If no watched target is reachable, nothing is collectible.
pub proof fn lemma_collectable_of_all_unreachable(g: Graph, seeds: Set<u64>, ws: Seq<RefData>)
    requires
        forall|i: int| 0 <= i < ws.len() ==> !g.set_reaches(seeds, (#[trigger] ws[i]).target),
    ensures
        collectable_of(g, seeds, ws) == Seq::<RefData>::empty(),
    decreases ws.len(),
{
    if ws.len() > 0 {
        assert forall|i: int| 0 <= i < ws.skip(1).len()
            implies !g.set_reaches(seeds, (#[trigger] ws.skip(1)[i]).target) by {
            assert(ws.skip(1)[i] == ws[i + 1]);
        }
        lemma_collectable_of_all_unreachable(g, seeds, ws.skip(1));
        assert(!g.set_reaches(seeds, ws[0].target));
    }
}

/// A local tip reference name is never the local boundary reference name:
/// the tip name is strictly longer than its own directory prefix, which is
/// already longer than the boundary name.
pub proof fn lemma_leaf_name_not_head(n: Seq<u8>, id: u64)
    requires
        is_local_leaf_name(n, id),
    ensures
        n != local_head_name(id),
{
    assert(local_leaf_prefix(id).len() == local_prefix().len() + hex_of(id as nat).len()
        + leaves_infix().len());
    assert(local_head_name(id).len() == local_prefix().len() + hex_of(id as nat).len()
        + head_suffix().len());
}

/// A remote-scope reference name is never a local-scope name for `id`:
/// the two conventions diverge within their fixed prefixes.
pub proof fn lemma_remote_prefixed_not_local(n: Seq<u8>, id: u64)
    requires
        n.len() > remote_prefix().len(),
        n.subrange(0, remote_prefix().len() as int) == remote_prefix(),
    ensures
        n != local_head_name(id),
        !is_local_leaf_name(n, id),
{
    assert(n[5] == n.subrange(0, remote_prefix().len() as int)[5]);
    assert(remote_prefix()[5] == 114);
    if n == local_head_name(id) {
        assert(local_head_name(id)[5] == local_prefix()[5]);
        assert(local_prefix()[5] == 100);
    }
    if is_local_leaf_name(n, id) {
        assert(n[5] == n.subrange(0, local_leaf_prefix(id).len() as int)[5]);
        assert(n.subrange(0, local_leaf_prefix(id).len() as int)[5] == local_leaf_prefix(id)[5]);
        assert(local_leaf_prefix(id)[5] == local_prefix()[5]);
        assert(local_prefix()[5] == 100);
    }
}

/// For an issue with no boundary and no tip references, the collectible
/// set is empty, whatever the configuration.
pub proof fn lemma_no_refs_no_collection(
    g: Graph,
    refs: Seq<RefData>,
    id: u64,
    consider_remote: bool,
    collect_heads: ReferenceCollectionSpec,
)
    requires
        local_head_of(refs, id) is None,
        local_leaves_of(refs, id) == Seq::<RefData>::empty(),
    ensures
        collectable_for_issue(g, refs, id, consider_remote, collect_heads)
            == Seq::<RefData>::empty(),
{
    let seeds = main_seeds(g, refs, id, consider_remote);
    assert(collectable_of(g, seeds, local_leaves_of(refs, id)) == Seq::<RefData>::empty());
    assert(head_collectable(g, refs, id, collect_heads) == Seq::<RefData>::empty());
    assert(Seq::<RefData>::empty() + Seq::<RefData>::empty() =~= Seq::<RefData>::empty());
}

/// A tip reference whose target is an ancestor of the local boundary
/// reference's target is in the collectible set.
pub proof fn lemma_tip_behind_boundary_collectable(
    g: Graph,
    refs: Seq<RefData>,
    id: u64,
    consider_remote: bool,
    collect_heads: ReferenceCollectionSpec,
    i: int,
)
    requires
        g.wf(),
        local_head_of(refs, id) is Some,
        0 <= i < local_leaves_of(refs, id).len(),
        g.reaches(local_head_of(refs, id).unwrap().target, local_leaves_of(refs, id)[i].target),
    ensures
        collectable_for_issue(g, refs, id, consider_remote, collect_heads).contains(
            local_leaves_of(refs, id)[i],
        ),
{
    let h = local_head_of(refs, id).unwrap();
    let seeds = main_seeds(g, refs, id, consider_remote);
    let leaf = local_leaves_of(refs, id)[i];
    assert(seeds.contains(h.target));
    assert(g.set_reaches(seeds, leaf.target));
    lemma_collectable_of_membership(g, seeds, local_leaves_of(refs, id));
    assert(collectable_of(g, seeds, local_leaves_of(refs, id)).contains(leaf));
    lemma_append_contains(
        head_collectable(g, refs, id, collect_heads),
        collectable_of(g, seeds, local_leaves_of(refs, id)),
        leaf,
    );
}

/// The parents-not-the-node rule in general: what a tip reference's own
/// push contributes — the parents of its target, never the target — can
/// never make that target reachable, since in the append-only graph no
/// node is an ancestor of its own parents; and a parentless target
/// contributes no seed at all.
pub proof fn lemma_tip_not_reached_by_own_push(g: Graph, t: u64)
    requires
        g.wf(),
        g.contains_node(t),
    ensures
        !g.set_reaches(g.parents_of(t).to_set(), t),
        g.parents_of(t).len() == 0 ==> g.parents_of(t).to_set() == Set::<u64>::empty(),
{
    if g.set_reaches(g.parents_of(t).to_set(), t) {
        let s = choose|s: u64| g.parents_of(t).to_set().contains(s) && g.reaches(s, t);
        assert(g.parents_of(t).contains(s));
        let k = choose|k: int| 0 <= k < g.parents_of(t).len() && g.parents_of(t)[k] == s;
        lemma_parent_index(g, t, k);
        lemma_reaches_index(g, s, t);
        assert(g.index_of(t) <= g.index_of(s));
        assert(g.index_of(s) < g.index_of(t));
    }
    if g.parents_of(t).len() == 0 {
        assert forall|x: u64| !(#[trigger] g.parents_of(t).to_set().contains(x)) by {
            if g.parents_of(t).contains(x) {
                let i = choose|i: int| 0 <= i < g.parents_of(t).len() && g.parents_of(t)[i] == x;
            }
        }
        assert(g.parents_of(t).to_set() =~= Set::<u64>::empty());
    }
}

/// A tip reference is never matched against its own node: an issue whose
/// only reference is a single tip yields nothing, whatever the tip's
/// parents — only the parents are pushed, never the tip's own target.
pub proof fn lemma_single_tip_never_self_collectable(
    g: Graph,
    refs: Seq<RefData>,
    id: u64,
    collect_heads: ReferenceCollectionSpec,
    t: RefData,
)
    requires
        g.wf(),
        g.contains_node(t.target),
        local_head_of(refs, id) is None,
        local_leaves_of(refs, id) == seq![t],
    ensures
        collectable_for_issue(g, refs, id, false, collect_heads) == Seq::<RefData>::empty(),
{
    let seeds = main_seeds(g, refs, id, false);
    assert forall|q: int| 0 <= q < local_leaves_of(refs, id).len()
        implies !g.set_reaches(seeds, (#[trigger] local_leaves_of(refs, id)[q]).target) by {
        assert(local_leaves_of(refs, id)[q] == t);
        if g.set_reaches(seeds, t.target) {
            let s = choose|s: u64| seeds.contains(s) && g.reaches(s, t.target);
            let (w, k): (int, int) = choose|w: int, k: int|
                0 <= w < local_leaves_of(refs, id).len() && 0 <= k < g.parents_of(
                    local_leaves_of(refs, id)[w].target,
                ).len() && #[trigger] g.parents_of(local_leaves_of(refs, id)[w].target)[k] == s;
            assert(local_leaves_of(refs, id)[w] == t);
            lemma_parent_index(g, t.target, k);
            lemma_reaches_index(g, s, t.target);
            assert(g.index_of(t.target) <= g.index_of(s));
            assert(g.index_of(s) < g.index_of(t.target));
        }
    }
    lemma_collectable_of_all_unreachable(g, seeds, local_leaves_of(refs, id));
    assert(head_collectable(g, refs, id, collect_heads) == Seq::<RefData>::empty());
    assert(Seq::<RefData>::empty() + Seq::<RefData>::empty() =~= Seq::<RefData>::empty());
}

/// Under `Never`, everything collected is a local tip reference; the local
/// boundary reference in particular is never in the collectible set.
pub proof fn lemma_never_collects_only_tips(
    g: Graph,
    refs: Seq<RefData>,
    id: u64,
    consider_remote: bool,
)
    ensures
        forall|r: RefData|
            #[trigger] collectable_for_issue(
                g,
                refs,
                id,
                consider_remote,
                ReferenceCollectionSpec::Never,
            ).contains(r) ==> is_local_leaf_name(r.name, id) && r.name != local_head_name(id),
{
    let seeds = main_seeds(g, refs, id, consider_remote);
    let c = collectable_for_issue(g, refs, id, consider_remote, ReferenceCollectionSpec::Never);
    let lc = collectable_of(g, seeds, local_leaves_of(refs, id));
    assert(head_collectable(g, refs, id, ReferenceCollectionSpec::Never)
        == Seq::<RefData>::empty());
    assert forall|r: RefData| #[trigger] c.contains(r) implies is_local_leaf_name(r.name, id)
        && r.name != local_head_name(id) by {
        lemma_append_contains(Seq::<RefData>::empty(), lc, r);
        assert(lc.contains(r));
        lemma_collectable_of_membership(g, seeds, local_leaves_of(refs, id));
        let i = choose|i: int|
            0 <= i < local_leaves_of(refs, id).len() && local_leaves_of(refs, id)[i] == r
                && g.set_reaches(seeds, r.target);
        lemma_filter_contains_all(refs, |x: RefData| is_local_leaf_name(x.name, id));
        assert(local_leaves_of(refs, id).contains(r));
        assert(is_local_leaf_name(r.name, id));
        lemma_leaf_name_not_head(r.name, id);
    }
}

/// Under `BackedByRemoteHead`, the local boundary reference is collected
/// exactly when its target is reachable from some remote boundary target.
pub proof fn lemma_backed_head_collectable_iff(
    g: Graph,
    refs: Seq<RefData>,
    id: u64,
    consider_remote: bool,
)
    requires
        g.wf(),
        local_head_of(refs, id) is Some,
    ensures
        collectable_for_issue(
            g,
            refs,
            id,
            consider_remote,
            ReferenceCollectionSpec::BackedByRemoteHead,
        ).contains(local_head_of(refs, id).unwrap()) <==> g.set_reaches(
            targets_of(remote_heads_of(refs, id)),
            local_head_of(refs, id).unwrap().target,
        ),
{
    let h = local_head_of(refs, id).unwrap();
    let ch = ReferenceCollectionSpec::BackedByRemoteHead;
    let seeds = main_seeds(g, refs, id, consider_remote);
    let hc = head_collectable(g, refs, id, ch);
    let lc = collectable_of(g, seeds, local_leaves_of(refs, id));
    let c = collectable_for_issue(g, refs, id, consider_remote, ch);
    lemma_find_named(refs, local_head_name(id));
    assert(h.name == local_head_name(id));
    if g.set_reaches(targets_of(remote_heads_of(refs, id)), h.target) {
        assert(hc == seq![h]);
        assert(c[0] == h);
        assert(c.contains(h));
    } else {
        assert(hc == Seq::<RefData>::empty());
        if c.contains(h) {
            lemma_append_contains(hc, lc, h);
            assert(lc.contains(h));
            lemma_collectable_of_membership(g, seeds, local_leaves_of(refs, id));
            let i = choose|i: int|
                0 <= i < local_leaves_of(refs, id).len() && local_leaves_of(refs, id)[i] == h
                    && g.set_reaches(seeds, h.target);
            lemma_filter_contains_all(refs, |x: RefData| is_local_leaf_name(x.name, id));
            assert(local_leaves_of(refs, id).contains(h));
            assert(is_local_leaf_name(h.name, id));
            lemma_leaf_name_not_head(h.name, id);
        }
    }
}

/// With remote references not considered and boundary collection off —
/// the default — the computation depends only on the local references:
/// stores that agree on them yield identical collectible sets.
pub proof fn lemma_default_reads_only_local(
    g: Graph,
    refs1: Seq<RefData>,
    refs2: Seq<RefData>,
    id: u64,
)
    requires
        local_head_of(refs1, id) == local_head_of(refs2, id),
        local_leaves_of(refs1, id) == local_leaves_of(refs2, id),
    ensures
        collectable_for_issue(g, refs1, id, false, ReferenceCollectionSpec::Never)
            == collectable_for_issue(g, refs2, id, false, ReferenceCollectionSpec::Never),
{
    assert(main_seeds(g, refs1, id, false) == main_seeds(g, refs2, id, false));
    assert(head_collectable(g, refs1, id, ReferenceCollectionSpec::Never)
        == Seq::<RefData>::empty());
    assert(head_collectable(g, refs2, id, ReferenceCollectionSpec::Never)
        == Seq::<RefData>::empty());
}



/// With remote references not considered, remote state never justifies
/// deleting a local tip: the tip part of the collectible set depends only
/// on the local boundary and the local tips, whatever the boundary policy.
pub proof fn lemma_tips_never_justified_by_remotes(
    g: Graph,
    refs1: Seq<RefData>,
    refs2: Seq<RefData>,
    id: u64,
)
    requires
        local_head_of(refs1, id) == local_head_of(refs2, id),
        local_leaves_of(refs1, id) == local_leaves_of(refs2, id),
    ensures
        collectable_of(g, main_seeds(g, refs1, id, false), local_leaves_of(refs1, id))
            == collectable_of(g, main_seeds(g, refs2, id, false), local_leaves_of(refs2, id)),
{
    assert(main_seeds(g, refs1, id, false) == main_seeds(g, refs2, id, false));
}

/// Collection is idempotent: once the collectible set has been deleted
/// from the store, a second computation over the same graph collects
/// nothing.
#[verifier::rlimit(60)]
pub proof fn lemma_collection_idempotent(
    g: Graph,
    refs: Seq<RefData>,
    refs2: Seq<RefData>,
    id: u64,
    consider_remote: bool,
    collect_heads: ReferenceCollectionSpec,
)
    requires
        g.wf(),
        forall|i: int, j: int|
            0 <= i < refs.len() && 0 <= j < refs.len() && i != j
                ==> #[trigger] refs[i].name != #[trigger] refs[j].name,
        refs2 == refs.filter(
            |r: RefData| !has_named(
                collectable_for_issue(g, refs, id, consider_remote, collect_heads),
                r.name,
            ),
        ),
    ensures
        collectable_for_issue(g, refs2, id, consider_remote, collect_heads)
            == Seq::<RefData>::empty(),
{
    let dead = collectable_for_issue(g, refs, id, consider_remote, collect_heads);
    let p = |r: RefData| !has_named(
        collectable_for_issue(g, refs, id, consider_remote, collect_heads),
        r.name,
    );
    let leafp = |r: RefData| is_local_leaf_name(r.name, id);
    let remp = |r: RefData| is_remote_ref_name(r.name, id);
    let remhp = |r: RefData| is_remote_head_name(r.name, id);
    let hc = head_collectable(g, refs, id, collect_heads);
    let ll = local_leaves_of(refs, id);
    let seeds1 = main_seeds(g, refs, id, consider_remote);
    let lc = collectable_of(g, seeds1, ll);
    lemma_collectable_of_membership(g, seeds1, ll);
    lemma_filter_contains_all(refs, leafp);
    lemma_find_named(refs, local_head_name(id));

    // every dead reference bears a local name and is an element of the store
    assert forall|w: int| 0 <= w < dead.len() implies ((#[trigger] dead[w]).name
        == local_head_name(id) || is_local_leaf_name(dead[w].name, id)) by {
        if w < hc.len() {
            let h = local_head_of(refs, id).unwrap();
            assert(hc == seq![h]);
            assert(dead[w] == h);
        } else {
            assert(dead[w] == lc[w - hc.len()]);
            assert(lc.contains(dead[w]));
            let i = choose|i: int|
                0 <= i < ll.len() && ll[i] == dead[w] && g.set_reaches(seeds1, dead[w].target);
            assert(ll.contains(dead[w]));
            assert(leafp(dead[w]));
        }
    }

    // remote-scope references never carry a dead name
    assert forall|q: int| 0 <= q < refs.len() && remp(#[trigger] refs[q])
        implies p(refs[q]) && (p(refs[q]) && remp(refs[q])) == remp(refs[q]) by {
        if has_named(dead, refs[q].name) {
            let w = choose|w: int| 0 <= w < dead.len() && #[trigger] dead[w].name == refs[q].name;
            lemma_remote_prefixed_not_local(refs[q].name, id);
        }
    }
    assert forall|q: int| 0 <= q < refs.len() && remhp(#[trigger] refs[q])
        implies p(refs[q]) && (p(refs[q]) && remhp(refs[q])) == remhp(refs[q]) by {
        if has_named(dead, refs[q].name) {
            let w = choose|w: int| 0 <= w < dead.len() && #[trigger] dead[w].name == refs[q].name;
            lemma_remote_prefixed_not_local(refs[q].name, id);
        }
    }

    // so the remote views of the store are unchanged by the deletion
    lemma_filter_compose(refs, p, remp);
    assert forall|q: int| 0 <= q < refs.len()
        implies (p(#[trigger] refs[q]) && remp(refs[q])) == remp(refs[q]) by {}
    lemma_filter_congruent(refs, |x: RefData| p(x) && remp(x), remp);
    assert(remote_refs_of(refs2, id) == remote_refs_of(refs, id));
    lemma_filter_compose(refs, p, remhp);
    assert forall|q: int| 0 <= q < refs.len()
        implies (p(#[trigger] refs[q]) && remhp(refs[q])) == remhp(refs[q]) by {}
    lemma_filter_congruent(refs, |x: RefData| p(x) && remhp(x), remhp);
    assert(remote_heads_of(refs2, id) == remote_heads_of(refs, id));

    // the surviving tips are the store's tips that were not collected
    lemma_filter_compose(refs, p, leafp);
    lemma_filter_compose(refs, leafp, p);
    assert forall|q: int| 0 <= q < refs.len()
        implies (p(#[trigger] refs[q]) && leafp(refs[q])) == (leafp(refs[q]) && p(refs[q])) by {}
    lemma_filter_congruent(refs, |x: RefData| p(x) && leafp(x), |x: RefData| leafp(x) && p(x));
    let ll2 = ll.filter(p);
    assert(local_leaves_of(refs2, id) == ll2);

    // none of the survivors' targets is reachable from the first seeds
    lemma_filter_contains_all(ll, p);
    assert forall|i: int| 0 <= i < ll2.len()
        implies !g.set_reaches(seeds1, (#[trigger] ll2[i]).target) by {
        assert(ll2.contains(ll2[i]));
        let q = choose|q: int| 0 <= q < ll.len() && ll[q] == ll2[i] && p(ll2[i]);
        if g.set_reaches(seeds1, ll2[i].target) {
            assert(lc.contains(ll2[i]));
            let w = choose|w: int| 0 <= w < lc.len() && lc[w] == ll2[i];
            assert(dead[hc.len() + w] == ll2[i]);
            assert(has_named(dead, ll2[i].name));
        }
    }

    // the local boundary of the filtered store
    lemma_find_named_filter(refs, p, local_head_name(id));

    // the new seeds are contained in the old ones
    let seeds2 = main_seeds(g, refs2, id, consider_remote);
    assert forall|x: u64| seeds2.contains(x) implies seeds1.contains(x) by {
        let head_part2 = match local_head_of(refs2, id) {
            Some(h) => Set::<u64>::empty().insert(h.target),
            None => Set::<u64>::empty(),
        };
        if head_part2.contains(x) {
            let h2 = local_head_of(refs2, id).unwrap();
            assert(local_head_of(refs, id) == Some(h2));
        } else if parent_seeds(g, ll2).contains(x) {
            let (i, k): (int, int) = choose|i: int, k: int|
                0 <= i < ll2.len() && 0 <= k < g.parents_of(ll2[i].target).len()
                    && #[trigger] g.parents_of(ll2[i].target)[k] == x;
            assert(ll2.contains(ll2[i]));
            let q = choose|q: int| 0 <= q < ll.len() && ll[q] == ll2[i] && p(ll2[i]);
            assert(g.parents_of(ll[q].target)[k] == x);
            assert(parent_seeds(g, ll).contains(x));
        } else {
            assert(consider_remote);
            assert(targets_of(remote_refs_of(refs2, id)).contains(x));
            assert(targets_of(remote_refs_of(refs, id)).contains(x));
        }
    }

    // the second pass finds no reachable survivor
    assert forall|i: int| 0 <= i < local_leaves_of(refs2, id).len()
        implies !g.set_reaches(seeds2, (#[trigger] local_leaves_of(refs2, id)[i]).target) by {
        if g.set_reaches(seeds2, local_leaves_of(refs2, id)[i].target) {
            let sd = choose|sd: u64|
                seeds2.contains(sd) && g.reaches(sd, local_leaves_of(refs2, id)[i].target);
            assert(seeds1.contains(sd));
            assert(g.set_reaches(seeds1, ll2[i].target));
        }
    }
    lemma_collectable_of_all_unreachable(g, seeds2, local_leaves_of(refs2, id));

    // and the boundary is not collected again either
    let hc2 = head_collectable(g, refs2, id, collect_heads);
    match local_head_of(refs2, id) {
        None => {
            assert(hc2 == Seq::<RefData>::empty());
        },
        Some(h2) => {
            assert(local_head_of(refs, id) == Some(h2));
            assert(p(h2));
            if hc.len() > 0 {
                assert(hc == seq![local_head_of(refs, id).unwrap()]);
                assert(dead[0] == h2);
                assert(has_named(dead, h2.name));
                assert(false);
            }
            if collect_heads is BackedByRemoteHead {
                assert(!g.set_reaches(targets_of(remote_heads_of(refs, id)), h2.target));
                assert(hc2 == Seq::<RefData>::empty());
            }
        },
    }
    assert(hc2 == Seq::<RefData>::empty());
    assert(hc2 + collectable_of(g, seeds2, local_leaves_of(refs2, id))
        =~= Seq::<RefData>::empty());
}


} // verus!
