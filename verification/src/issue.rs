//! The issue handle: a logical unit of history, identified by the node at
//! its root and witnessed by boundary references.

use vstd::prelude::*;

use crate::error::Error;
use crate::refs::{find_named, has_named, is_local_leaf_name, is_remote_head_name,
    is_remote_ref_name, lemma_find_named_unique, local_head_name, local_head_name_vec,
    local_leaf_name_vec, local_leaf_prefix, named_index, set_ref, GitRef, RefData, RefStore};
use crate::repository::Repository;
use crate::refs::hex_of;

verus! {

/// A logical unit ("issue"): its identity is exactly the identifier of its
/// root node.
#[derive(Clone, Copy, Debug, PartialEq, Eq, Structural)]
pub struct Issue {
    pub id: u64,
}

impl Issue {
    pub fn new(id: u64) -> (r: Issue)
        ensures
            r.id == id,
    {
        Issue { id }
    }

    /// The root node identifier.
    pub fn id(&self) -> (r: u64)
        ensures
            r == self.id,
    {
        self.id
    }

    /// The root node identifier; the root is also the initial message.
    pub fn initial_message(&self) -> (r: u64)
        ensures
            r == self.id,
    {
        self.id
    }

    /// This issue's local boundary reference, if present.
    pub fn local_head(&self, refs: &RefStore) -> (r: Option<GitRef>)
        ensures
            match r {
                Some(gr) => find_named(refs@, local_head_name(self.id)) == Some(gr@),
                None => find_named(refs@, local_head_name(self.id)) is None,
            },
    {
        refs.local_head(self.id)
    }

    /// This issue's local tip references, in store order.
    pub fn local_leaves(&self, refs: &RefStore) -> (v: Vec<GitRef>)
        ensures
            v.deep_view() == refs@.filter(|r: RefData| is_local_leaf_name(r.name, self.id)),
    {
        refs.local_leaves(self.id)
    }

    /// This issue's remote boundary references.
    pub fn remote_heads(&self, refs: &RefStore) -> (v: Vec<GitRef>)
        ensures
            v.deep_view() == refs@.filter(|r: RefData| is_remote_head_name(r.name, self.id)),
    {
        refs.remote_heads(self.id)
    }

    /// Every remote-scope reference of this issue.
    pub fn remote_refs(&self, refs: &RefStore) -> (v: Vec<GitRef>)
        ensures
            v.deep_view() == refs@.filter(|r: RefData| is_remote_ref_name(r.name, self.id)),
    {
        refs.remote_refs(self.id)
    }
}

impl Issue {
    /// Add a message to this issue: a fresh node with the given parents,
    /// marked as a new unmerged tip by a local leaf reference. Fails
    /// exactly when the identifier space is exhausted.
    pub fn add_message(&self, repo: &mut Repository, parents: &Vec<u64>) -> (r: Result<u64, Error>)
        requires
            old(repo).wf(),
            forall|k: int|
                0 <= k < parents@.len() ==> old(repo).graph.contains_node(#[trigger] parents@[k]),
        ensures
            final(repo).wf(),
            old(repo).graph.next_id < u64::MAX ==> r is Ok,
            match r {
                Ok(mid) => {
                    &&& mid == old(repo).graph.next_id
                    &&& !old(repo).graph.contains_node(mid)
                    &&& final(repo).graph.contains_node(mid)
                    &&& final(repo).graph.nodes@.len() == old(repo).graph.nodes@.len() + 1
                    &&& final(repo).graph.next_id == old(repo).graph.next_id + 1
                    &&& final(repo).graph.parents_of(mid) == parents@
                    &&& forall|i: int|
                        0 <= i < old(repo).graph.nodes@.len()
                            ==> #[trigger] final(repo).graph.nodes@[i] == old(repo).graph.nodes@[i]
                    &&& forall|n: u64|
                        old(repo).graph.contains_node(n) ==> final(repo).graph.contains_node(n)
                    &&& final(repo).refs@ == set_ref(
                        old(repo).refs@,
                        local_leaf_prefix(self.id) + hex_of(mid as nat),
                        mid,
                    )
                },
                Err(e) => {
                    &&& *final(repo) == *old(repo)
                    &&& old(repo).graph.next_id == u64::MAX
                    &&& e == Error::CannotCreateMessage
                },
            },
    {
        let mid = match repo.graph.add_node(parents) {
            Ok(mid) => mid,
            Err(e) => {
                return Err(e);
            },
        };
        let name = local_leaf_name_vec(self.id, mid);
        repo.refs.set(name, mid);
        Ok(mid)
    }

    /// Forcibly move this issue's local boundary reference to `target`:
    /// the store's head entry for this issue is re-pointed (or created),
    /// and nothing else changes.
    pub fn update_head(&self, repo: &mut Repository, target: u64)
        requires
            old(repo).wf(),
        ensures
            final(repo).wf(),
            final(repo).graph == old(repo).graph,
            final(repo).refs@ == set_ref(old(repo).refs@, local_head_name(self.id), target),
            crate::gc::local_head_of(final(repo).refs@, self.id) == Some(
                RefData { name: local_head_name(self.id), target },
            ),
    {
        let name = local_head_name_vec(self.id);
        let ghost before = repo.refs@;
        repo.refs.set(name, target);
        proof {
            let hname = local_head_name(self.id);
            let data = RefData { name: hname, target };
            if has_named(before, hname) {
                let j = named_index(before, hname);
                assert(0 <= j < before.len() && before[j].name == hname);
                assert(repo.refs@[j] == data);
                assert(repo.refs@.contains(data));
            } else {
                assert(repo.refs@[before.len() as int] == data);
                assert(repo.refs@.contains(data));
            }
            lemma_find_named_unique(repo.refs@, hname, data);
        }
    }
}


} // verus!
