use gitdit::gc::{CollectableRefs, ReferenceCollectionSpec};
use gitdit::refs::GitRef;
use gitdit::repository::Repository;

fn parents(ids: &[u64]) -> Vec<u64> {
    ids.to_vec()
}

fn collect_targets(refs: &[GitRef]) -> Vec<u64> {
    refs.iter().map(|r| r.target).collect()
}

#[test]
fn collectable_leaves() {
    let mut repo = Repository::new();

    let mut refs_to_collect = Vec::new();
    let mut issues = Vec::new();

    {
        // issue not supposed to be affected
        let issue = repo
            .create_issue(&parents(&[]))
            .expect("Could not create issue");
        let initial_message = issue.initial_message();
        issue
            .add_message(&mut repo, &parents(&[initial_message]))
            .expect("Could not add message");
    }

    {
        let issue = repo
            .create_issue(&parents(&[]))
            .expect("Could not create issue");
        let initial_message = issue.initial_message();
        let message = issue
            .add_message(&mut repo, &parents(&[initial_message]))
            .expect("Could not add message");
        issue.update_head(&mut repo, message);
        issues.push(issue);
        refs_to_collect.push(message);
    }

    {
        let issue = repo
            .create_issue(&parents(&[]))
            .expect("Could not create issue");
        let initial_message = issue.initial_message();
        let message1 = issue
            .add_message(&mut repo, &parents(&[initial_message]))
            .expect("Could not add message");
        issue
            .add_message(&mut repo, &parents(&[message1]))
            .expect("Could not add message");
        issues.push(issue);
        refs_to_collect.push(message1);
    }

    refs_to_collect.sort();

    let collectable = CollectableRefs::new().collect_heads(ReferenceCollectionSpec::BackedByRemoteHead);
    let mut collected: Vec<u64> = issues
        .iter()
        .flat_map(|i| {
            collectable
                .for_issue(&repo.graph, &repo.refs, i)
                .expect("Error during discovery of collectable refs")
        })
        .map(|r| r.target)
        .collect();
    collected.sort();
    assert_eq!(refs_to_collect, collected);
}

#[test]
fn single_root_without_refs_collects_nothing() {
    let mut repo = Repository::new();
    let issue = repo
        .create_issue(&parents(&[]))
        .expect("Could not create issue");
    // strip the unit down to a bare root node
    let head = repo.refs.local_head(issue.id()).unwrap();
    repo.refs.delete(&head.name);

    let collectable = CollectableRefs::new();
    let collected = collectable
        .for_issue(&repo.graph, &repo.refs, &issue)
        .expect("Error during discovery of collectable refs");
    assert!(collected.is_empty());
}

#[test]
fn tip_with_root_node_is_never_self_collected() {
    let mut repo = Repository::new();
    let issue = repo
        .create_issue(&parents(&[]))
        .expect("Could not create issue");
    // a tip reference at a parentless node, and no boundary reference
    let tip = issue
        .add_message(&mut repo, &parents(&[]))
        .expect("Could not add message");
    let head = repo.refs.local_head(issue.id()).unwrap();
    repo.refs.delete(&head.name);

    let collectable = CollectableRefs::new();
    let collected = collectable
        .for_issue(&repo.graph, &repo.refs, &issue)
        .expect("Error during discovery of collectable refs");
    assert!(collected.is_empty());
    // only references are ever collected; the node itself stays
    assert!(repo.graph.contains(tip));
}

#[test]
fn heads_never_collected_by_default() {
    let mut repo = Repository::new();
    let issue = repo
        .create_issue(&parents(&[]))
        .expect("Could not create issue");
    let message = issue
        .add_message(&mut repo, &parents(&[issue.id()]))
        .expect("Could not add message");
    issue.update_head(&mut repo, message);
    // a remote boundary already holding the local head's target
    repo.refs
        .set(b"refs/remotes/origin/dit/1/head".to_vec(), message);

    let collectable = CollectableRefs::new();
    let collected = collectable
        .for_issue(&repo.graph, &repo.refs, &issue)
        .expect("Error during discovery of collectable refs");
    let head_name = gitdit::refs::local_head_name_vec(issue.id());
    assert!(collected.iter().all(|r| r.name != head_name));
}

#[test]
fn head_collected_iff_backed_by_remote_head() {
    let mut repo = Repository::new();
    let issue = repo
        .create_issue(&parents(&[]))
        .expect("Could not create issue");
    let message = issue
        .add_message(&mut repo, &parents(&[issue.id()]))
        .expect("Could not add message");
    let head_name = gitdit::refs::local_head_name_vec(issue.id());

    let backed = CollectableRefs::new().collect_heads(ReferenceCollectionSpec::BackedByRemoteHead);

    // no remote boundary: the local head is not collectible
    let collected = backed
        .for_issue(&repo.graph, &repo.refs, &issue)
        .expect("Error during discovery of collectable refs");
    assert!(collected.iter().all(|r| r.name != head_name));

    // a remote boundary ahead of the local head: the local head is backed
    repo.refs
        .set(b"refs/remotes/origin/dit/1/head".to_vec(), message);
    let collected = backed
        .for_issue(&repo.graph, &repo.refs, &issue)
        .expect("Error during discovery of collectable refs");
    assert!(collected.iter().any(|r| r.name == head_name));

    // a remote boundary behind the local head does not back it
    issue.update_head(&mut repo, message);
    repo.refs
        .set(b"refs/remotes/origin/dit/1/head".to_vec(), issue.id());
    let collected = backed
        .for_issue(&repo.graph, &repo.refs, &issue)
        .expect("Error during discovery of collectable refs");
    assert!(collected.iter().all(|r| r.name != head_name));
}

#[test]
fn remote_refs_ignored_by_default() {
    let mut repo = Repository::new();
    let issue = repo
        .create_issue(&parents(&[]))
        .expect("Could not create issue");
    let tip = issue
        .add_message(&mut repo, &parents(&[issue.id()]))
        .expect("Could not add message");
    // remote history already holds the tip
    repo.refs
        .set(b"refs/remotes/origin/dit/1/leaves/2".to_vec(), tip);

    let default_conf = CollectableRefs::new();
    let collected = default_conf
        .for_issue(&repo.graph, &repo.refs, &issue)
        .expect("Error during discovery of collectable refs");
    assert!(collected.is_empty());

    // considering remote references makes the local tip redundant
    let with_remotes = CollectableRefs::new().consider_remote_refs(true);
    let collected = with_remotes
        .for_issue(&repo.graph, &repo.refs, &issue)
        .expect("Error during discovery of collectable refs");
    assert_eq!(collect_targets(&collected), vec![tip]);
    // and no remote reference is ever deleted
    assert!(collected.iter().all(|r| !r.name.starts_with(b"refs/remotes/")));
}

#[test]
fn collection_is_idempotent() {
    let mut repo = Repository::new();
    let issue = repo
        .create_issue(&parents(&[]))
        .expect("Could not create issue");
    let message1 = issue
        .add_message(&mut repo, &parents(&[issue.id()]))
        .expect("Could not add message");
    issue
        .add_message(&mut repo, &parents(&[message1]))
        .expect("Could not add message");
    issue.update_head(&mut repo, message1);

    let collectable = CollectableRefs::new();
    let collected = collectable
        .for_issue(&repo.graph, &repo.refs, &issue)
        .expect("Error during discovery of collectable refs");
    assert!(!collected.is_empty());
    repo.delete_refs(&collected);

    let second = collectable
        .for_issue(&repo.graph, &repo.refs, &issue)
        .expect("Error during discovery of collectable refs");
    assert!(second.is_empty());
}

#[test]
fn cross_unit_reachability_does_not_leak() {
    let mut repo = Repository::new();

    // unit B: a root with one unmerged tip
    let issue_b = repo
        .create_issue(&parents(&[]))
        .expect("Could not create issue");
    let tip_b = issue_b
        .add_message(&mut repo, &parents(&[issue_b.id()]))
        .expect("Could not add message");

    // unit A builds its history on top of B's tip and merges its own work
    let issue_a = repo
        .create_issue(&parents(&[tip_b]))
        .expect("Could not create issue");
    let message_a = issue_a
        .add_message(&mut repo, &parents(&[issue_a.id()]))
        .expect("Could not add message");
    issue_a.update_head(&mut repo, message_a);

    let collectable = CollectableRefs::new();

    // B's tip is reachable from A's history, but collecting B must not
    // use A's ancestry: the tip stays
    let collected_b = collectable
        .for_issue(&repo.graph, &repo.refs, &issue_b)
        .expect("Error during discovery of collectable refs");
    assert!(collected_b.is_empty());

    // collecting A touches only A's own references
    let collected_a = collectable
        .for_issue(&repo.graph, &repo.refs, &issue_a)
        .expect("Error during discovery of collectable refs");
    let leaf_b = gitdit::refs::local_leaf_name_vec(issue_b.id(), tip_b);
    assert!(collected_a.iter().all(|r| r.name != leaf_b));
    assert_eq!(collect_targets(&collected_a), vec![message_a]);
}

#[test]
fn exactly_one_merged_tip_reported() {
    let mut repo = Repository::new();

    // a unit with only its boundary
    let issue1 = repo
        .create_issue(&parents(&[]))
        .expect("Could not create issue");

    // a unit whose first tip is the parent of a later tip
    let issue2 = repo
        .create_issue(&parents(&[]))
        .expect("Could not create issue");
    let message1 = issue2
        .add_message(&mut repo, &parents(&[issue2.id()]))
        .expect("Could not add message");
    let message2 = issue2
        .add_message(&mut repo, &parents(&[message1]))
        .expect("Could not add message");

    // another untouched unit
    let issue3 = repo
        .create_issue(&parents(&[]))
        .expect("Could not create issue");

    let collectable = CollectableRefs::new();
    let collected = collectable
        .for_issue(&repo.graph, &repo.refs, &issue2)
        .expect("Error during discovery of collectable refs");
    assert_eq!(collect_targets(&collected), vec![message1]);
    // the unmerged tip is retained
    assert!(repo.graph.contains(message2));

    for other in [issue1, issue3] {
        let untouched = collectable
            .for_issue(&repo.graph, &repo.refs, &other)
            .expect("Error during discovery of collectable refs");
        assert!(untouched.is_empty());
    }
}

#[test]
fn unresolvable_watched_target_aborts() {
    let mut repo = Repository::new();
    let issue = repo
        .create_issue(&parents(&[]))
        .expect("Could not create issue");
    // a tip reference whose target is not a node of the graph
    repo.refs
        .set(b"refs/dit/1/leaves/dead".to_vec(), 0xdead);

    let collectable = CollectableRefs::new();
    match collectable.for_issue(&repo.graph, &repo.refs, &issue) {
        Err(gitdit::error::Error::CannotGetCommit(id)) => assert_eq!(id, 0xdead),
        other => panic!("expected CannotGetCommit, got {:?}", other),
    }
}
