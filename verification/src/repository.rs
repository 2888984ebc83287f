//! The repository model and the issue resolver: maps identifiers and
//! reference names to issues, walks first-parent chains, and owns the
//! object graph and the reference store.

use vstd::prelude::*;

use crate::error::Error;
use crate::gc::CollectableRefs;
use crate::graph::{lemma_parent_index, Graph};
use crate::issue::Issue;
use crate::iter::{IssueMessagesIter, Messages};
use crate::refs::{
    all_hex, dit_infix, has_named, head_suffix, hex_of, hex_value, is_hex_digit,
    lemma_filter_compose, lemma_filter_congruent, lemma_find_named_unique, lemma_hex_of_value,
    lemma_pow16_16, local_head_name, local_head_name_vec, local_prefix, named_index,
    parse_hex_range, set_ref, spec_has_boundary, GitRef, RefData, RefStore,
};

verus! {

/// The state this core operates on: the (read-only, append-only) object
/// graph and the mutable reference store, injected explicitly.
pub struct Repository {
    pub graph: Graph,
    pub refs: RefStore,
}

/// The nearest issue root at or above `from` along the first-parent chain,
/// if any boundary reference witnesses one before parent links run out.
pub open spec fn find_unit(g: Graph, refs: Seq<RefData>, from: u64) -> Option<u64>
    decreases g.index_of(from)
        when g.wf() && g.contains_node(from)
        via find_unit_decreases
{
    if spec_has_boundary(refs, from) {
        Some(from)
    } else if g.parents_of(from).len() == 0 {
        None
    } else {
        find_unit(g, refs, g.parents_of(from)[0])
    }
}

/// The index of the last `/` strictly before position `upto`, or -1.
pub open spec fn last_slash_before(s: Seq<u8>, upto: int) -> int
    decreases upto when upto <= s.len()
{
    if upto <= 0 {
        -1
    } else if s[upto - 1] == 47 {
        upto - 1
    } else {
        last_slash_before(s, upto - 1)
    }
}

/// Whether a name ends in "/head", the boundary-reference terminal.
pub open spec fn is_head_shaped(s: Seq<u8>) -> bool {
    s.len() >= head_suffix().len() && s.subrange(
        s.len() - head_suffix().len(),
        s.len() as int,
    ) == head_suffix()
}

/// The second-to-last path segment of a head-shaped name: the hex root.
pub open spec fn head_root_segment(s: Seq<u8>) -> Seq<u8> {
    let base = s.len() - head_suffix().len();
    s.subrange(last_slash_before(s, base) + 1, base)
}

/// Whether the root segment of a head-shaped name denotes an identifier.
pub open spec fn head_root_ok(s: Seq<u8>) -> bool {
    &&& is_head_shaped(s)
    &&& 1 <= head_root_segment(s).len() <= 16
    &&& all_hex(head_root_segment(s))
}

/// The last slash below `upto` is the marked one when nothing above it
/// is a slash.
proof fn lemma_last_slash_range(s: Seq<u8>, j: int, upto: int)
    requires
        0 <= j < upto <= s.len(),
        s[j] == 47,
        forall|x: int| j < x < upto ==> s[x] != 47,
    ensures
        last_slash_before(s, upto) == j,
    decreases upto,
{
    if upto - 1 > j {
        assert(s[upto - 1] != 47);
        lemma_last_slash_range(s, j, upto - 1);
    }
}

/// The resolver parses back the names the creator writes: a built local
/// boundary name is enumerated by the issue listing and denotes exactly
/// its root.
pub proof fn lemma_head_name_resolves(id: u64)
    ensures
        matches_any_head(local_head_name(id)),
        head_root_ok(local_head_name(id)),
        head_root_segment(local_head_name(id)) == hex_of(id as nat),
        parsed_root(local_head_name(id)) == id,
{
    let p = local_prefix().len() as int;
    let h = hex_of(id as nat);
    let n = local_head_name(id);
    lemma_hex_of_value(id as nat);
    lemma_pow16_16();
    assert(n.len() == p + h.len() + head_suffix().len());
    assert(n.subrange(n.len() - head_suffix().len(), n.len() as int) =~= head_suffix());
    assert(is_head_shaped(n));
    assert(occurs_at(n, dit_infix(), 4)) by {
        assert(n.subrange(4, 4 + dit_infix().len() as int) =~= dit_infix());
    }
    assert(has_dit_segment(n));
    let base = n.len() - head_suffix().len();
    assert(n[p - 1] == local_prefix()[p - 1]);
    assert(local_prefix()[p - 1] == 47);
    assert forall|x: int| p - 1 < x < base implies n[x] != 47 by {
        assert(n[x] == h[x - p]);
        assert(is_hex_digit(h[x - p]));
    }
    lemma_last_slash_range(n, p - 1, base);
    assert(head_root_segment(n) =~= h);
}

#[via_fn]
proof fn find_unit_decreases(g: Graph, refs: Seq<RefData>, from: u64) {
    if !spec_has_boundary(refs, from) && g.parents_of(from).len() > 0 {
        lemma_parent_index(g, from, 0);
    }
}

impl Repository {
    pub open spec fn wf(self) -> bool {
        self.graph.wf() && self.refs.wf()
    }

    /// An empty repository.
    pub fn new() -> (r: Repository)
        ensures
            r.wf(),
            r.graph.nodes@.len() == 0,
            r.refs@.len() == 0,
            forall|id: u64| !r.graph.contains_node(id),
    {
        Repository { graph: Graph::new(), refs: RefStore::new() }
    }

    /// Retrieve the issue with the given root identifier; the issue exists
    /// exactly when some boundary reference witnesses it.
    pub fn find_issue(&self, id: u64) -> (r: Result<Issue, Error>)
        ensures
            match r {
                Ok(is) => spec_has_boundary(self.refs@, id) && is.id == id,
                Err(e) => !spec_has_boundary(self.refs@, id) && e == Error::CannotFindIssueHead(
                    id,
                ),
            },
    {
        if self.refs.has_boundary(id) {
            Ok(Issue::new(id))
        } else {
            Err(Error::CannotFindIssueHead(id))
        }
    }

    /// Parse a boundary-reference name: the root identifier is the hex
    /// second-to-last path segment; the name must end in the boundary
    /// terminal segment.
    fn parse_head_root(name: &Vec<u8>) -> (r: Result<u64, Error>)
        ensures
            match r {
                Ok(id) => head_root_ok(name@) && id as nat == hex_value(head_root_segment(name@)),
                Err(e) => match e {
                    Error::MalFormedHeadReference(n) => !is_head_shaped(name@) && n@ == name@,
                    Error::OidFormatError(seg) => is_head_shaped(name@) && !head_root_ok(name@)
                        && seg@ == head_root_segment(name@),
                    _ => false,
                },
            },
    {
        let n = name.len();
        let mut suffix: Vec<u8> = Vec::new();
        suffix.push(47);
        suffix.push(104);
        suffix.push(101);
        suffix.push(97);
        suffix.push(100);
        proof {
            assert(suffix@ =~= head_suffix());
        }
        if n < 5 {
            return Err(Error::MalFormedHeadReference(crate::refs::clone_bytes(name)));
        }
        let base = n - 5;
        if !crate::refs::bytes_eq(&tail_from(name, base), &suffix) {
            proof {
                assert(name@.subrange(base as int, n as int).len() == head_suffix().len());
            }
            return Err(Error::MalFormedHeadReference(crate::refs::clone_bytes(name)));
        }
        proof {
            assert(is_head_shaped(name@));
        }
        // find the last slash before the terminal segment
        let mut j: usize = base;
        while j > 0 && name[j - 1] != 47
            invariant
                0 <= j <= base <= name@.len(),
                last_slash_before(name@, base as int) == last_slash_before(name@, j as int),
            decreases j,
        {
            j = j - 1;
        }
        let ghost ls = last_slash_before(name@, base as int);
        proof {
            if j > 0 {
                assert(ls == j - 1);
            } else {
                assert(ls == -1);
            }
        }
        // the segment between the last slash and the terminal
        match parse_hex_range(name, j, base) {
            Some(id) => {
                proof {
                    assert(name@.subrange(j as int, base as int) == head_root_segment(name@));
                }
                Ok(id)
            },
            None => {
                proof {
                    assert(name@.subrange(j as int, base as int) == head_root_segment(name@));
                }
                let seg = copy_range(name, j, base);
                proof {
                    assert(!head_root_ok(name@));
                }
                Err(Error::OidFormatError(seg))
            },
        }
    }

    /// Retrieve the issue a boundary reference belongs to, by parsing the
    /// reference's name. Does not require the issue's node to exist.
    pub fn issue_by_head_ref(&self, head_ref: &GitRef) -> (r: Result<Issue, Error>)
        ensures
            match r {
                Ok(is) => head_root_ok(head_ref@.name) && is.id as nat == hex_value(
                    head_root_segment(head_ref@.name),
                ),
                Err(e) => match e {
                    Error::MalFormedHeadReference(n) => !is_head_shaped(head_ref@.name)
                        && n@ == head_ref@.name,
                    Error::OidFormatError(seg) => is_head_shaped(head_ref@.name) && !head_root_ok(
                        head_ref@.name,
                    ) && seg@ == head_root_segment(head_ref@.name),
                    _ => false,
                },
            },
    {
        let id = Self::parse_head_root(&head_ref.name)?;
        Ok(Issue::new(id))
    }

    /// Find the issue containing a message: walk the first-parent chain
    /// from the message toward the roots and return the first node
    /// witnessed as an issue root by a boundary reference.
    pub fn issue_with_message(&self, message: u64) -> (r: Result<Issue, Error>)
        requires
            self.wf(),
        ensures
            match r {
                Ok(is) => self.graph.contains_node(message) && find_unit(
                    self.graph,
                    self.refs@,
                    message,
                ) == Some(is.id),
                Err(e) => match e {
                    Error::CannotGetCommit(m) => m == message && !self.graph.contains_node(
                        message,
                    ),
                    Error::NoTreeInitFound(m) => m == message && self.graph.contains_node(message)
                        && find_unit(self.graph, self.refs@, message) is None,
                    _ => false,
                },
            },
    {
        if !self.graph.contains(message) {
            return Err(Error::CannotGetCommit(message));
        }
        match self.resolve_unit(message) {
            Some(root) => Ok(Issue::new(root)),
            None => Err(Error::NoTreeInitFound(message)),
        }
    }

    /// The recursive walk behind `issue_with_message`.
    fn resolve_unit(&self, current: u64) -> (r: Option<u64>)
        requires
            self.wf(),
            self.graph.contains_node(current),
        ensures
            r == find_unit(self.graph, self.refs@, current),
        decreases self.graph.index_of(current),
    {
        if self.refs.has_boundary(current) {
            return Some(current);
        }
        let ps = match self.graph.parents(current) {
            Ok(ps) => ps,
            Err(_) => {
                proof {
                    assert(false);
                }
                vstd::pervasive::unreached()
            },
        };
        if ps.len() == 0 {
            return None;
        }
        proof {
            lemma_parent_index(self.graph, current, 0);
        }
        self.resolve_unit(ps[0])
    }

    /// Create a new issue: a fresh root node with the given parents, and a
    /// forcibly updated local boundary reference naming it. Fails exactly
    /// when the identifier space is exhausted.
    pub fn create_issue(&mut self, parents: &Vec<u64>) -> (r: Result<Issue, Error>)
        requires
            old(self).wf(),
            forall|k: int|
                0 <= k < parents@.len() ==> old(self).graph.contains_node(#[trigger] parents@[k]),
        ensures
            final(self).wf(),
            old(self).graph.next_id < u64::MAX ==> r is Ok,
            match r {
                Ok(is) => {
                    &&& is.id == old(self).graph.next_id
                    &&& !old(self).graph.contains_node(is.id)
                    &&& final(self).graph.contains_node(is.id)
                    &&& final(self).graph.nodes@.len() == old(self).graph.nodes@.len() + 1
                    &&& final(self).graph.next_id == old(self).graph.next_id + 1
                    &&& final(self).graph.parents_of(is.id) == parents@
                    &&& forall|i: int|
                        0 <= i < old(self).graph.nodes@.len()
                            ==> #[trigger] final(self).graph.nodes@[i]
                                == old(self).graph.nodes@[i]
                    &&& forall|n: u64|
                        old(self).graph.contains_node(n) ==> final(self).graph.contains_node(n)
                    &&& final(self).refs@ == set_ref(
                        old(self).refs@,
                        local_head_name(is.id),
                        is.id,
                    )
                    &&& crate::gc::local_head_of(final(self).refs@, is.id) == Some(
                        RefData { name: local_head_name(is.id), target: is.id },
                    )
                },
                Err(e) => {
                    &&& *final(self) == *old(self)
                    &&& old(self).graph.next_id == u64::MAX
                    &&& e == Error::CannotCreateMessage
                },
            },
    {
        let id = match self.graph.add_node(parents) {
            Ok(id) => id,
            Err(e) => {
                return Err(e);
            },
        };
        let name = local_head_name_vec(id);
        let ghost before = self.refs@;
        self.refs.set(name, id);
        proof {
            let hname = local_head_name(id);
            let data = RefData { name: hname, target: id };
            if has_named(before, hname) {
                let j = named_index(before, hname);
                assert(0 <= j < before.len() && before[j].name == hname);
                assert(self.refs@[j] == data);
                assert(self.refs@.contains(data));
            } else {
                assert(self.refs@[before.len() as int] == data);
                assert(self.refs@.contains(data));
            }
            lemma_find_named_unique(self.refs@, hname, data);
        }
        Ok(Issue::new(id))
    }

    /// A first-parent walk starting at `id`, in child-before-parent order.
    pub fn first_parent_messages(&self, id: u64) -> (r: Result<Messages, Error>)
        requires
            self.wf(),
        ensures
            match r {
                Ok(m) => self.graph.contains_node(id) && m.inv(self.graph) && m.current == Some(
                    id,
                ),
                Err(e) => !self.graph.contains_node(id) && e == Error::CannotGetCommit(id),
            },
    {
        Messages::start(&self.graph, id)
    }

    /// A first-parent walk starting at `commit`, truncated right after the
    /// first issue root it yields.
    pub fn issue_messages_iter(&self, commit: u64) -> (r: Result<IssueMessagesIter, Error>)
        requires
            self.wf(),
        ensures
            match r {
                Ok(it) => {
                    &&& self.graph.contains_node(commit)
                    &&& it.inv(self.graph)
                    &&& it.messages.current == Some(commit)
                    &&& it.done == false
                },
                Err(e) => !self.graph.contains_node(commit) && e == Error::CannotGetCommit(
                    commit,
                ),
            },
    {
        IssueMessagesIter::start(&self.graph, commit)
    }

    /// A reference-collection computation bound to this repository's
    /// accessors; by default nothing but redundant local tips is reported.
    pub fn collectable_refs(&self) -> (r: CollectableRefs)
        ensures
            r.consider_remote_refs == false,
            r.collect_heads == crate::gc::ReferenceCollectionSpec::Never,
    {
        CollectableRefs::new()
    }

    /// Delete every reference in the list, by name: the explicit, batched
    /// deletion step applied to a collectible set.
    pub fn delete_refs(&mut self, dead: &Vec<GitRef>)
        requires
            old(self).wf(),
        ensures
            final(self).wf(),
            final(self).refs@ == old(self).refs@.filter(
                |r: RefData| !crate::refs::has_named(dead.deep_view(), r.name),
            ),
            final(self).graph == old(self).graph,
    {
        let ghost dv = dead.deep_view();
        let ghost orig = self.refs@;
        let mut i: usize = 0;
        let n = dead.len();
        proof {
            assert(dead.deep_view().len() == dead@.len());
            let p0 = |r: RefData| !crate::refs::has_named(dv.subrange(0, 0), r.name);
            assert forall|q: int| 0 <= q < orig.len() implies p0(#[trigger] orig[q]) by {
                assert(dv.subrange(0, 0).len() == 0);
            }
            crate::refs::lemma_filter_all_true(orig, p0);
        }
        while i < n
            invariant
                n == dead@.len(),
                dead.deep_view() == dv,
                dv.len() == n,
                self.refs.wf(),
                self.graph == old(self).graph,
                orig == old(self).refs@,
                self.refs@ == orig.filter(
                    |r: RefData| !crate::refs::has_named(dv.subrange(0, i as int), r.name),
                ),
                0 <= i <= n,
            decreases n - i,
        {
            proof {
                assert(dead@[i as int].deep_view() == dv[i as int]);
            }
            let ghost mid = self.refs@;
            self.refs.delete(&dead[i].name);
            proof {
                let pre = |r: RefData| !crate::refs::has_named(dv.subrange(0, i as int), r.name);
                let one = |r: RefData| r.name != dv[i as int].name;
                let both = |r: RefData| pre(r) && one(r);
                let next = |r: RefData| !crate::refs::has_named(
                    dv.subrange(0, i + 1),
                    r.name,
                );
                assert(self.refs@ == mid.filter(one));
                lemma_filter_compose(orig, pre, both);
                lemma_filter_congruent(orig.filter(pre), one, both);
                assert(self.refs@ == orig.filter(both)) by {
                    assert(mid == orig.filter(pre));
                    assert forall|q: int| 0 <= q < orig.filter(pre).len()
                        implies one(#[trigger] orig.filter(pre)[q]) == both(
                        orig.filter(pre)[q]) by {
                        orig.lemma_filter_pred(pre, q);
                    }
                    assert(orig.filter(pre).filter(one) == orig.filter(pre).filter(both));
                    assert(orig.filter(pre).filter(both) == orig.filter(
                        |x: RefData| pre(x) && both(x)));
                    lemma_filter_congruent(orig, |x: RefData| pre(x) && both(x), both);
                }
                assert forall|q: int| 0 <= q < orig.len() implies both(#[trigger] orig[q])
                    == next(orig[q]) by {
                    let sub = dv.subrange(0, i + 1);
                    if crate::refs::has_named(sub, orig[q].name) {
                        let w = choose|w: int|
                            0 <= w < sub.len() && #[trigger] sub[w].name == orig[q].name;
                        if w < sub.len() - 1 {
                            assert(dv.subrange(0, i as int)[w] == sub[w]);
                            assert(crate::refs::has_named(
                                dv.subrange(0, i as int), orig[q].name));
                        } else {
                            assert(sub[w] == dv[i as int]);
                        }
                    }
                    if crate::refs::has_named(dv.subrange(0, i as int), orig[q].name) {
                        let w = choose|w: int|
                            0 <= w < i && #[trigger] dv.subrange(0, i as int)[w].name
                                == orig[q].name;
                        assert(sub[w].name == orig[q].name);
                        assert(crate::refs::has_named(sub, orig[q].name));
                    }
                    if orig[q].name == dv[i as int].name {
                        assert(sub[i as int].name == orig[q].name);
                        assert(crate::refs::has_named(sub, orig[q].name));
                    }
                }
                lemma_filter_congruent(orig, both, next);
            }
            i = i + 1;
        }
        proof {
            assert(dv.subrange(0, n as int) =~= dv);
            let pn = |r: RefData| !crate::refs::has_named(dv.subrange(0, n as int), r.name);
            let pf = |r: RefData| !crate::refs::has_named(dv, r.name);
            lemma_filter_congruent(orig, pn, pf);
        }
    }
}

/// Whether `pat` occurs in `s` at position `k`.
pub open spec fn occurs_at(s: Seq<u8>, pat: Seq<u8>, k: int) -> bool {
    0 <= k && k + pat.len() <= s.len() && s.subrange(k, k + pat.len()) == pat
}

/// Whether the name crosses a "/dit/" component somewhere.
pub open spec fn has_dit_segment(s: Seq<u8>) -> bool {
    exists|k: int| #[trigger] occurs_at(s, dit_infix(), k)
}

/// The names enumerated when listing every known issue: any reference
/// under a "dit" directory whose name ends in the boundary terminal.
pub open spec fn matches_any_head(s: Seq<u8>) -> bool {
    is_head_shaped(s) && has_dit_segment(s)
}

/// The names enumerated when listing the issues under a scope prefix:
/// the prefix, then "/dit/", then anything ending in the terminal.
pub open spec fn matches_prefix_head(s: Seq<u8>, prefix: Seq<u8>) -> bool {
    &&& is_head_shaped(s)
    &&& s.len() >= prefix.len() + dit_infix().len() as int
    &&& s.subrange(0, prefix.len() as int) == prefix
    &&& s.subrange(prefix.len() as int, prefix.len() + dit_infix().len() as int) == dit_infix()
}

/// The root identifier a head-shaped name denotes.
pub open spec fn parsed_root(s: Seq<u8>) -> nat {
    hex_value(head_root_segment(s))
}

/// Whether a listing's outcome is faithful to the matching references:
/// every issue in the list is named by some matching reference and every
/// matching reference's root is listed, without duplicates.
/// Whether the listing holds an issue rooted at `x`.
pub open spec fn listed(v: Seq<Issue>, x: u64) -> bool {
    exists|i: int| 0 <= i < v.len() && #[trigger] v[i].id == x
}

/// Whether some matching reference names the root `x`.
pub open spec fn root_of_matching(refs: Seq<RefData>, m: spec_fn(Seq<u8>) -> bool, x: u64) -> bool {
    exists|q: int|
        0 <= q < refs.len() && m(#[trigger] refs[q].name) && head_root_ok(refs[q].name)
            && parsed_root(refs[q].name) == x
}

/// Whether a listing's outcome is faithful to the matching references:
/// every issue in the list is named by some matching reference and every
/// matching reference's root is listed, without duplicates.
pub open spec fn issue_listing_ok(
    refs: Seq<RefData>,
    v: Seq<Issue>,
    m: spec_fn(Seq<u8>) -> bool,
) -> bool {
    &&& forall|a: int, b: int|
        0 <= a < v.len() && 0 <= b < v.len() && a != b ==> #[trigger] v[a].id != #[trigger] v[b].id
    &&& forall|x: u64| #[trigger] listed(v, x) <==> root_of_matching(refs, m, x)
}

/// Whether an issue with this root is already listed.
fn contains_issue(v: &Vec<Issue>, id: u64) -> (b: bool)
    ensures
        b == exists|i: int| 0 <= i < v@.len() && #[trigger] v@[i].id == id,
{
    let mut i: usize = 0;
    let n = v.len();
    while i < n
        invariant
            0 <= i <= n,
            n == v@.len(),
            forall|j: int| 0 <= j < i ==> #[trigger] v@[j].id != id,
        decreases n - i,
    {
        if v[i].id == id {
            return true;
        }
        i = i + 1;
    }
    false
}

/// Whether `name` ends in the boundary terminal segment.
fn is_head_shaped_exec(name: &Vec<u8>) -> (b: bool)
    ensures
        b == is_head_shaped(name@),
{
    let n = name.len();
    if n < 5 {
        return false;
    }
    let mut suffix: Vec<u8> = Vec::new();
    suffix.push(47);
    suffix.push(104);
    suffix.push(101);
    suffix.push(97);
    suffix.push(100);
    proof {
        assert(suffix@ =~= head_suffix());
    }
    crate::refs::bytes_eq(&tail_from(name, n - 5), &suffix)
}

/// Whether the name crosses a "/dit/" component.
fn has_dit_segment_exec(name: &Vec<u8>) -> (b: bool)
    ensures
        b == has_dit_segment(name@),
{
    let mut dit: Vec<u8> = Vec::new();
    dit.push(47);
    dit.push(100);
    dit.push(105);
    dit.push(116);
    dit.push(47);
    proof {
        assert(dit@ =~= dit_infix());
    }
    let n = name.len();
    if n < 5 {
        proof {
            assert forall|k: int| !occurs_at(name@, dit_infix(), k) by {}
        }
        return false;
    }
    let mut k: usize = 0;
    while k <= n - 5
        invariant
            0 <= k <= n - 4,
            n == name@.len(),
            n >= 5,
            dit@ == dit_infix(),
            forall|q: int| 0 <= q < k ==> !occurs_at(name@, dit_infix(), q),
        decreases n - k,
    {
        if crate::refs::bytes_match_at(name, k, &dit) {
            proof {
                assert(occurs_at(name@, dit_infix(), k as int));
            }
            return true;
        }
        proof {
            assert(!occurs_at(name@, dit_infix(), k as int));
        }
        k = k + 1;
    }
    proof {
        assert forall|q: int| !occurs_at(name@, dit_infix(), q) by {
            if 0 <= q < n - 4 {
            } else {
            }
        }
    }
    false
}


impl Repository {
    /// All issues known under a scope prefix: every reference named
    /// `<prefix>/dit/.../head`, mapped to its root identifier and
    /// deduplicated (local and remote scopes may both name one issue).
    pub fn issues_with_prefix(&self, prefix: &Vec<u8>) -> (r: Result<Vec<Issue>, Error>)
        ensures
            match r {
                Ok(v) => issue_listing_ok(
                    self.refs@,
                    v@,
                    |n: Seq<u8>| matches_prefix_head(n, prefix@),
                ) && forall|q: int|
                    0 <= q < self.refs@.len() && matches_prefix_head(
                        #[trigger] self.refs@[q].name,
                        prefix@,
                    ) ==> head_root_ok(self.refs@[q].name),
                Err(e) => (exists|q: int|
                    0 <= q < self.refs@.len() && matches_prefix_head(
                        #[trigger] self.refs@[q].name,
                        prefix@,
                    ) && !head_root_ok(self.refs@[q].name)) && (e matches Error::OidFormatError(
                    _,
                ) || e matches Error::MalFormedHeadReference(_)),
            },
    {
        let ghost m = |n: Seq<u8>| matches_prefix_head(n, prefix@);
        let mut dit: Vec<u8> = Vec::new();
        dit.push(47);
        dit.push(100);
        dit.push(105);
        dit.push(116);
        dit.push(47);
        proof {
            assert(dit@ =~= dit_infix());
        }
        let mut v: Vec<Issue> = Vec::new();
        let mut i: usize = 0;
        let n = self.refs.refs.len();
        while i < n
            invariant
                0 <= i <= n,
                n == self.refs@.len(),
                n == self.refs.refs@.len(),
                dit@ == dit_infix(),
                m == (|nm: Seq<u8>| matches_prefix_head(nm, prefix@)),
                forall|a: int, b: int|
                    0 <= a < v@.len() && 0 <= b < v@.len() && a != b
                        ==> #[trigger] v@[a].id != #[trigger] v@[b].id,
                forall|q: int|
                    0 <= q < i && m(#[trigger] self.refs@[q].name) ==> head_root_ok(
                        self.refs@[q].name,
                    ),
                forall|x: u64| #[trigger] listed(v@, x) <==> exists|q: int|
                    0 <= q < i && m(#[trigger] self.refs@[q].name) && head_root_ok(
                        self.refs@[q].name,
                    ) && parsed_root(self.refs@[q].name) == x,
            decreases n - i,
        {
            proof {
                assert(self.refs@[i as int] == self.refs.refs@[i as int].deep_view());
            }
            let ghost old_v = v@;
            let name = &self.refs.refs[i].name;
            let matched = if !is_head_shaped_exec(name) {
                false
            } else if name.len() < prefix.len() || name.len() - prefix.len() < 5 {
                false
            } else if !crate::refs::bytes_match_at(name, 0, prefix) {
                false
            } else {
                crate::refs::bytes_match_at(name, prefix.len(), &dit)
            };
            proof {
                assert(matched == m(self.refs@[i as int].name));
            }
            if matched {
                let id = match Self::parse_head_root(name) {
                    Ok(id) => id,
                    Err(e) => {
                        proof {
                            assert(!head_root_ok(self.refs@[i as int].name));
                        }
                        return Err(e);
                    },
                };
                if !contains_issue(&v, id) {
                    v.push(Issue::new(id));
                    proof {
                        assert forall|x: u64| #[trigger] listed(v@, x) implies (exists|q: int|
                            0 <= q < i + 1 && m(#[trigger] self.refs@[q].name) && head_root_ok(
                                self.refs@[q].name,
                            ) && parsed_root(self.refs@[q].name) == x) by {
                            let w = choose|w: int| 0 <= w < v@.len() && #[trigger] v@[w].id == x;
                            if w < old_v.len() {
                                assert(old_v[w].id == x);
                                assert(listed(old_v, x));
                            } else {
                                assert(x == id);
                                assert(m(self.refs@[i as int].name));
                            }
                        }
                        assert forall|x: u64| (exists|q: int|
                            0 <= q < i + 1 && m(#[trigger] self.refs@[q].name) && head_root_ok(
                                self.refs@[q].name,
                            ) && parsed_root(self.refs@[q].name) == x) implies #[trigger] listed(
                            v@,
                            x,
                        ) by {
                            let q = choose|q: int|
                                0 <= q < i + 1 && m(#[trigger] self.refs@[q].name)
                                    && head_root_ok(self.refs@[q].name) && parsed_root(
                                    self.refs@[q].name,
                                ) == x;
                            if q < i {
                                assert(listed(old_v, x));
                                let w = choose|w: int|
                                    0 <= w < old_v.len() && #[trigger] old_v[w].id == x;
                                assert(v@[w].id == x);
                            } else {
                                assert(v@[v@.len() - 1].id == id);
                                assert(x == id);
                            }
                        }
                    }
                } else {
                    proof {
                        assert forall|x: u64| #[trigger] listed(v@, x) <==> (exists|q: int|
                            0 <= q < i + 1 && m(#[trigger] self.refs@[q].name) && head_root_ok(
                                self.refs@[q].name,
                            ) && parsed_root(self.refs@[q].name) == x) by {
                            if listed(v@, x) {
                                let w = choose|w: int|
                                    0 <= w < v@.len() && #[trigger] v@[w].id == x;
                            }
                            if exists|q: int|
                                0 <= q < i + 1 && m(#[trigger] self.refs@[q].name)
                                    && head_root_ok(self.refs@[q].name) && parsed_root(
                                    self.refs@[q].name,
                                ) == x {
                                let q = choose|q: int|
                                    0 <= q < i + 1 && m(#[trigger] self.refs@[q].name)
                                        && head_root_ok(self.refs@[q].name) && parsed_root(
                                        self.refs@[q].name,
                                    ) == x;
                                if q == i {
                                    assert(x == id);
                                    assert(listed(v@, x));
                                }
                            }
                        }
                    }
                }
            } else {
                proof {
                    assert forall|x: u64| #[trigger] listed(v@, x) <==> (exists|q: int|
                        0 <= q < i + 1 && m(#[trigger] self.refs@[q].name) && head_root_ok(
                            self.refs@[q].name,
                        ) && parsed_root(self.refs@[q].name) == x) by {
                        if exists|q: int|
                            0 <= q < i + 1 && m(#[trigger] self.refs@[q].name) && head_root_ok(
                                self.refs@[q].name,
                            ) && parsed_root(self.refs@[q].name) == x {
                            let q = choose|q: int|
                                0 <= q < i + 1 && m(#[trigger] self.refs@[q].name)
                                    && head_root_ok(self.refs@[q].name) && parsed_root(
                                    self.refs@[q].name,
                                ) == x;
                            assert(q < i);
                        }
                    }
                }
            }
            i = i + 1;
        }
        Ok(v)
    }

    /// All issues known to the repository, across every scope.
    pub fn issues(&self) -> (r: Result<Vec<Issue>, Error>)
        ensures
            match r {
                Ok(v) => issue_listing_ok(self.refs@, v@, |n: Seq<u8>| matches_any_head(n))
                    && forall|q: int|
                    0 <= q < self.refs@.len() && matches_any_head(#[trigger] self.refs@[q].name)
                        ==> head_root_ok(self.refs@[q].name),
                Err(e) => (exists|q: int|
                    0 <= q < self.refs@.len() && matches_any_head(#[trigger] self.refs@[q].name)
                        && !head_root_ok(self.refs@[q].name)) && (e matches Error::OidFormatError(
                    _,
                ) || e matches Error::MalFormedHeadReference(_)),
            },
    {
        let ghost m = |n: Seq<u8>| matches_any_head(n);
        let mut v: Vec<Issue> = Vec::new();
        let mut i: usize = 0;
        let n = self.refs.refs.len();
        while i < n
            invariant
                0 <= i <= n,
                n == self.refs@.len(),
                n == self.refs.refs@.len(),
                m == (|nm: Seq<u8>| matches_any_head(nm)),
                forall|a: int, b: int|
                    0 <= a < v@.len() && 0 <= b < v@.len() && a != b
                        ==> #[trigger] v@[a].id != #[trigger] v@[b].id,
                forall|q: int|
                    0 <= q < i && m(#[trigger] self.refs@[q].name) ==> head_root_ok(
                        self.refs@[q].name,
                    ),
                forall|x: u64| #[trigger] listed(v@, x) <==> exists|q: int|
                    0 <= q < i && m(#[trigger] self.refs@[q].name) && head_root_ok(
                        self.refs@[q].name,
                    ) && parsed_root(self.refs@[q].name) == x,
            decreases n - i,
        {
            proof {
                assert(self.refs@[i as int] == self.refs.refs@[i as int].deep_view());
            }
            let ghost old_v = v@;
            let name = &self.refs.refs[i].name;
            let matched = if !is_head_shaped_exec(name) {
                false
            } else {
                has_dit_segment_exec(name)
            };
            proof {
                assert(matched == m(self.refs@[i as int].name));
            }
            if matched {
                let id = match Self::parse_head_root(name) {
                    Ok(id) => id,
                    Err(e) => {
                        proof {
                            assert(!head_root_ok(self.refs@[i as int].name));
                        }
                        return Err(e);
                    },
                };
                if !contains_issue(&v, id) {
                    v.push(Issue::new(id));
                    proof {
                        assert forall|x: u64| #[trigger] listed(v@, x) implies (exists|q: int|
                            0 <= q < i + 1 && m(#[trigger] self.refs@[q].name) && head_root_ok(
                                self.refs@[q].name,
                            ) && parsed_root(self.refs@[q].name) == x) by {
                            let w = choose|w: int| 0 <= w < v@.len() && #[trigger] v@[w].id == x;
                            if w < old_v.len() {
                                assert(old_v[w].id == x);
                                assert(listed(old_v, x));
                            } else {
                                assert(x == id);
                                assert(m(self.refs@[i as int].name));
                            }
                        }
                        assert forall|x: u64| (exists|q: int|
                            0 <= q < i + 1 && m(#[trigger] self.refs@[q].name) && head_root_ok(
                                self.refs@[q].name,
                            ) && parsed_root(self.refs@[q].name) == x) implies #[trigger] listed(
                            v@,
                            x,
                        ) by {
                            let q = choose|q: int|
                                0 <= q < i + 1 && m(#[trigger] self.refs@[q].name)
                                    && head_root_ok(self.refs@[q].name) && parsed_root(
                                    self.refs@[q].name,
                                ) == x;
                            if q < i {
                                assert(listed(old_v, x));
                                let w = choose|w: int|
                                    0 <= w < old_v.len() && #[trigger] old_v[w].id == x;
                                assert(v@[w].id == x);
                            } else {
                                assert(v@[v@.len() - 1].id == id);
                                assert(x == id);
                            }
                        }
                    }
                } else {
                    proof {
                        assert forall|x: u64| #[trigger] listed(v@, x) <==> (exists|q: int|
                            0 <= q < i + 1 && m(#[trigger] self.refs@[q].name) && head_root_ok(
                                self.refs@[q].name,
                            ) && parsed_root(self.refs@[q].name) == x) by {
                            if listed(v@, x) {
                                let w = choose|w: int|
                                    0 <= w < v@.len() && #[trigger] v@[w].id == x;
                            }
                            if exists|q: int|
                                0 <= q < i + 1 && m(#[trigger] self.refs@[q].name)
                                    && head_root_ok(self.refs@[q].name) && parsed_root(
                                    self.refs@[q].name,
                                ) == x {
                                let q = choose|q: int|
                                    0 <= q < i + 1 && m(#[trigger] self.refs@[q].name)
                                        && head_root_ok(self.refs@[q].name) && parsed_root(
                                        self.refs@[q].name,
                                    ) == x;
                                if q == i {
                                    assert(x == id);
                                    assert(listed(v@, x));
                                }
                            }
                        }
                    }
                }
            } else {
                proof {
                    assert forall|x: u64| #[trigger] listed(v@, x) <==> (exists|q: int|
                        0 <= q < i + 1 && m(#[trigger] self.refs@[q].name) && head_root_ok(
                            self.refs@[q].name,
                        ) && parsed_root(self.refs@[q].name) == x) by {
                        if exists|q: int|
                            0 <= q < i + 1 && m(#[trigger] self.refs@[q].name) && head_root_ok(
                                self.refs@[q].name,
                            ) && parsed_root(self.refs@[q].name) == x {
                            let q = choose|q: int|
                                0 <= q < i + 1 && m(#[trigger] self.refs@[q].name)
                                    && head_root_ok(self.refs@[q].name) && parsed_root(
                                    self.refs@[q].name,
                                ) == x;
                            assert(q < i);
                        }
                    }
                }
            }
            i = i + 1;
        }
        Ok(v)
    }
}


/// Copy the byte range `[lo, hi)` of `s`.
fn copy_range(s: &Vec<u8>, lo: usize, hi: usize) -> (r: Vec<u8>)
    requires
        lo <= hi <= s@.len(),
    ensures
        r@ == s@.subrange(lo as int, hi as int),
{
    let mut r: Vec<u8> = Vec::new();
    let mut i: usize = lo;
    while i < hi
        invariant
            lo <= i <= hi <= s@.len(),
            r@ == s@.subrange(lo as int, i as int),
        decreases hi - i,
    {
        let ghost pre = r@;
        r.push(s[i]);
        proof {
            assert(pre.push(s@[i as int]) =~= s@.subrange(lo as int, i + 1));
        }
        i = i + 1;
    }
    r
}

/// Copy the tail of `s` from position `from`.
fn tail_from(s: &Vec<u8>, from: usize) -> (r: Vec<u8>)
    requires
        from <= s@.len(),
    ensures
        r@ == s@.subrange(from as int, s@.len() as int),
{
    copy_range(s, from, s.len())
}

} // verus!
