use gitdit::error::Error;
use gitdit::repository::Repository;

fn new_vec(parents: &[u64]) -> Vec<u64> {
    parents.to_vec()
}

#[test]
fn find_issue() {
    let mut repo = Repository::new();
    let issue = repo
        .create_issue(&new_vec(&[]))
        .expect("Could not create issue");

    repo.find_issue(issue.id())
        .expect("Could not tretrieve issue by id");
}

#[test]
fn issue_by_head_ref() {
    let mut repo = Repository::new();
    let issue = repo
        .create_issue(&new_vec(&[]))
        .expect("Could not create issue");

    let local_head = issue
        .local_head(&repo.refs)
        .expect("Could not retrieve local head reference");
    let retrieved_issue = repo
        .issue_by_head_ref(&local_head)
        .expect("Could not retrieve issue");
    assert_eq!(issue.id(), retrieved_issue.id());
}

#[test]
fn issue_with_message() {
    let mut repo = Repository::new();
    let issue = repo
        .create_issue(&new_vec(&[]))
        .expect("Could not create issue");
    let initial_message = issue.initial_message();
    let message = issue
        .add_message(&mut repo, &new_vec(&[initial_message]))
        .expect("Could not add message");

    let retrieved_issue = repo
        .issue_with_message(message)
        .expect("Could not retrieve issue");
    assert_eq!(retrieved_issue.id(), issue.id());
}

#[test]
fn issues() {
    let mut repo = Repository::new();
    let issue = repo
        .create_issue(&new_vec(&[]))
        .expect("Could not create issue");

    let mut issues = repo
        .issues()
        .expect("Could not retrieve issues")
        .into_iter();
    let retrieved_issue = issues.next().expect("Could not retrieve issue");
    assert_eq!(retrieved_issue.id(), issue.id());
    assert!(issues.next().is_none());
}

#[test]
fn first_parent_messages() {
    let mut repo = Repository::new();
    let issue = repo
        .create_issue(&new_vec(&[]))
        .expect("Could not create issue");
    let initial_message = issue.initial_message();
    let message = issue
        .add_message(&mut repo, &new_vec(&[initial_message]))
        .expect("Could not add message");

    let mut iter = repo
        .first_parent_messages(message)
        .expect("Could not create first parent iterator");
    assert_eq!(iter.next(&repo.graph).unwrap(), message);
    assert_eq!(iter.next(&repo.graph).unwrap(), issue.id());
    assert!(iter.next(&repo.graph).is_none());
}

#[test]
fn issue_messages_iter() {
    let mut repo = Repository::new();

    let issue1 = repo
        .create_issue(&new_vec(&[]))
        .expect("Could not create issue");
    let initial_message1 = issue1.initial_message();

    let issue2 = repo
        .create_issue(&new_vec(&[initial_message1]))
        .expect("Could not create issue");
    let initial_message2 = issue2.initial_message();
    let message = issue2
        .add_message(&mut repo, &new_vec(&[initial_message2]))
        .expect("Could not add message");
    let message_id = message;

    let mut iter1 = repo
        .issue_messages_iter(initial_message1)
        .expect("Could not create issue messages iterator");
    assert_eq!(iter1.next(&repo.graph, &repo.refs).unwrap(), issue1.id());
    assert!(iter1.next(&repo.graph, &repo.refs).is_none());

    let mut iter2 = repo
        .issue_messages_iter(message)
        .expect("Could not create issue messages iterator");
    assert_eq!(iter2.next(&repo.graph, &repo.refs).unwrap(), message_id);
    assert_eq!(iter2.next(&repo.graph, &repo.refs).unwrap(), issue2.id());
    assert!(iter2.next(&repo.graph, &repo.refs).is_none());
}

#[test]
fn find_issue_unknown_root_fails() {
    let repo = Repository::new();
    match repo.find_issue(42) {
        Err(Error::CannotFindIssueHead(id)) => assert_eq!(id, 42),
        other => panic!("expected CannotFindIssueHead, got {:?}", other),
    }
}

#[test]
fn issue_by_head_ref_malformed_name() {
    let repo = Repository::new();
    let head_ref = gitdit::refs::GitRef {
        name: b"refs/dit/1/leaves/2".to_vec(),
        target: 2,
    };
    match repo.issue_by_head_ref(&head_ref) {
        Err(Error::MalFormedHeadReference(name)) => {
            assert_eq!(name, b"refs/dit/1/leaves/2".to_vec());
        }
        other => panic!("expected MalFormedHeadReference, got {:?}", other),
    }
}

#[test]
fn issue_by_head_ref_bad_hex_segment() {
    let repo = Repository::new();
    let head_ref = gitdit::refs::GitRef {
        name: b"refs/dit/zz/head".to_vec(),
        target: 1,
    };
    match repo.issue_by_head_ref(&head_ref) {
        Err(Error::OidFormatError(seg)) => assert_eq!(seg, b"zz".to_vec()),
        other => panic!("expected OidFormatError, got {:?}", other),
    }
}

#[test]
fn issue_by_head_ref_parses_remote_names() {
    let repo = Repository::new();
    let head_ref = gitdit::refs::GitRef {
        name: b"refs/remotes/origin/dit/2a/head".to_vec(),
        target: 42,
    };
    let issue = repo
        .issue_by_head_ref(&head_ref)
        .expect("Could not retrieve issue");
    assert_eq!(issue.id(), 0x2a);
}

#[test]
fn issue_with_message_without_boundary_fails() {
    let mut repo = Repository::new();
    let issue = repo
        .create_issue(&new_vec(&[]))
        .expect("Could not create issue");
    // a message chain whose walk never meets a boundary reference
    let orphan = issue
        .add_message(&mut repo, &new_vec(&[]))
        .expect("Could not add message");
    // remove every boundary reference
    let all = repo.refs.local_head(issue.id()).unwrap();
    repo.refs.delete(&all.name);
    match repo.issue_with_message(orphan) {
        Err(Error::NoTreeInitFound(m)) => assert_eq!(m, orphan),
        other => panic!("expected NoTreeInitFound, got {:?}", other),
    }
}

#[test]
fn issue_with_message_unknown_node_fails() {
    let repo = Repository::new();
    match repo.issue_with_message(7) {
        Err(Error::CannotGetCommit(m)) => assert_eq!(m, 7),
        other => panic!("expected CannotGetCommit, got {:?}", other),
    }
}

#[test]
fn issues_with_prefix_separates_scopes() {
    let mut repo = Repository::new();
    let issue = repo
        .create_issue(&new_vec(&[]))
        .expect("Could not create issue");
    // a remote boundary reference for another issue root
    repo.refs
        .set(b"refs/remotes/origin/dit/2a/head".to_vec(), issue.id());

    let local = repo
        .issues_with_prefix(&b"refs".to_vec())
        .expect("Could not retrieve issues");
    assert_eq!(local.len(), 1);
    assert_eq!(local[0].id(), issue.id());

    let remote = repo
        .issues_with_prefix(&b"refs/remotes/origin".to_vec())
        .expect("Could not retrieve issues");
    assert_eq!(remote.len(), 1);
    assert_eq!(remote[0].id(), 0x2a);

    let all = repo.issues().expect("Could not retrieve issues");
    assert_eq!(all.len(), 2);
}

#[test]
fn issues_deduplicates_by_root() {
    let mut repo = Repository::new();
    let issue = repo
        .create_issue(&new_vec(&[]))
        .expect("Could not create issue");
    // the same issue known from a remote scope as well
    repo.refs
        .set(b"refs/remotes/origin/dit/1/head".to_vec(), issue.id());
    assert_eq!(issue.id(), 1);

    let all = repo.issues().expect("Could not retrieve issues");
    assert_eq!(all.len(), 1);
    assert_eq!(all[0].id(), issue.id());
}

#[test]
fn hex_names_round_trip() {
    assert_eq!(gitdit::refs::render_hex(0), b"0".to_vec());
    assert_eq!(gitdit::refs::render_hex(255), b"ff".to_vec());
    assert_eq!(gitdit::refs::render_hex(0xdeadbeef), b"deadbeef".to_vec());

    let bytes = b"deadbeef".to_vec();
    assert_eq!(
        gitdit::refs::parse_hex_range(&bytes, 0, bytes.len()),
        Some(0xdeadbeef)
    );
    let upper = b"DEADBEEF".to_vec();
    assert_eq!(
        gitdit::refs::parse_hex_range(&upper, 0, upper.len()),
        Some(0xdeadbeef)
    );
    let empty: Vec<u8> = Vec::new();
    assert_eq!(gitdit::refs::parse_hex_range(&empty, 0, 0), None);
    let long = b"11111111111111111".to_vec(); // 17 digits
    assert_eq!(gitdit::refs::parse_hex_range(&long, 0, long.len()), None);
    let bad = b"12x4".to_vec();
    assert_eq!(gitdit::refs::parse_hex_range(&bad, 0, bad.len()), None);
}

#[test]
fn naming_convention_matchers() {
    let head = gitdit::refs::local_head_name_vec(0x2a);
    assert_eq!(head, b"refs/dit/2a/head".to_vec());
    assert!(gitdit::refs::is_local_head(&head, 0x2a));
    assert!(!gitdit::refs::is_local_head(&head, 0x2b));

    let leaf = gitdit::refs::local_leaf_name_vec(0x2a, 0x2b);
    assert_eq!(leaf, b"refs/dit/2a/leaves/2b".to_vec());
    assert!(gitdit::refs::is_local_leaf(&leaf, 0x2a));
    assert!(!gitdit::refs::is_local_leaf(&head, 0x2a));

    let remote_head = b"refs/remotes/origin/dit/2a/head".to_vec();
    assert!(gitdit::refs::is_remote_head(&remote_head, 0x2a));
    assert!(gitdit::refs::is_remote_ref(&remote_head, 0x2a));
    assert!(!gitdit::refs::is_remote_head(&remote_head, 0x2b));
    assert!(!gitdit::refs::is_remote_head(&head, 0x2a));

    let remote_leaf = b"refs/remotes/origin/dit/2a/leaves/7".to_vec();
    assert!(gitdit::refs::is_remote_ref(&remote_leaf, 0x2a));
    assert!(!gitdit::refs::is_remote_head(&remote_leaf, 0x2a));
}
