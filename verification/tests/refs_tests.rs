use git_protocol::refs::RefHandler;
use git_protocol::GitError;

#[test]
fn test_ref_handler() {
    let mut ref_handler = RefHandler::new();

    // Add a reference
    let hash = "1234567890abcdef".repeat(2).chars().take(40).collect::<String>();
    ref_handler.add_ref("refs/heads/main".to_string(), hash.clone(), false);

    // Get the reference
    let git_ref = ref_handler.get_ref("refs/heads/main").unwrap();
    assert_eq!(git_ref.name, "refs/heads/main");
    assert_eq!(git_ref.target, hash);
    assert!(!git_ref.is_symbolic);

    // List branches
    let branches = ref_handler.list_branches();
    assert_eq!(branches.len(), 1);
    assert_eq!(branches[0].name, "refs/heads/main");
}

#[test]
fn test_ref_resolution() {
    let mut ref_handler = RefHandler::new();

    let hash = "1234567890abcdef".repeat(2).chars().take(40).collect::<String>();
    ref_handler.add_ref("refs/heads/main".to_string(), hash.clone(), false);
    ref_handler.add_ref("HEAD".to_string(), "refs/heads/main".to_string(), true);

    // Resolve HEAD to the actual hash
    let resolved = ref_handler.resolve_ref("HEAD").unwrap();
    assert_eq!(resolved, hash);
}

#[test]
fn test_ref_chain_resolution() {
    let mut refs = RefHandler::new();
    let id = "a".repeat(40);
    refs.add_ref("refs/heads/main".to_string(), id.clone(), false);
    refs.add_ref("HEAD".to_string(), "refs/heads/main".to_string(), true);
    assert_eq!(refs.resolve_ref("HEAD").unwrap(), id);
}

#[test]
fn test_ref_cycle_detection() {
    let mut refs = RefHandler::new();
    refs.add_ref("HEAD".to_string(), "A".to_string(), true);
    refs.add_ref("A".to_string(), "B".to_string(), true);
    refs.add_ref("B".to_string(), "A".to_string(), true);
    assert_eq!(refs.resolve_ref("HEAD"), Err(GitError::Cycle));
}

#[test]
fn test_resolve_missing_ref() {
    let refs = RefHandler::new();
    assert_eq!(refs.resolve_ref("refs/heads/none"), Err(GitError::NotFound));
}

#[test]
fn test_add_ref_replaces_existing() {
    let mut refs = RefHandler::new();
    refs.add_ref("refs/heads/main".to_string(), "a".repeat(40), false);
    refs.add_ref("refs/heads/main".to_string(), "b".repeat(40), false);
    assert_eq!(refs.get_all_refs().len(), 1);
    assert_eq!(refs.get_ref("refs/heads/main").unwrap().target, "b".repeat(40));
}

#[test]
fn test_update_and_delete_ref() {
    let mut refs = RefHandler::new();
    refs.add_ref("refs/heads/main".to_string(), "a".repeat(40), false);
    refs.update_ref("refs/heads/main", "c".repeat(40)).unwrap();
    assert_eq!(refs.get_ref("refs/heads/main").unwrap().target, "c".repeat(40));
    assert_eq!(refs.update_ref("refs/heads/none", "d".repeat(40)), Err(GitError::NotFound));
    refs.delete_ref("refs/heads/main").unwrap();
    assert!(refs.get_ref("refs/heads/main").is_none());
    assert_eq!(refs.delete_ref("refs/heads/main"), Err(GitError::NotFound));
}

#[test]
fn test_create_and_delete_branch_and_tag() {
    let mut refs = RefHandler::new();
    refs.create_branch("main", "a".repeat(40)).unwrap();
    assert_eq!(refs.create_branch("main", "b".repeat(40)), Err(GitError::AlreadyExists));
    refs.create_tag("v1.0.0", "a".repeat(40)).unwrap();
    assert_eq!(refs.create_tag("v1.0.0", "b".repeat(40)), Err(GitError::AlreadyExists));
    assert_eq!(refs.list_branches().len(), 1);
    assert_eq!(refs.list_tags().len(), 1);
    refs.delete_branch("main").unwrap();
    refs.delete_tag("v1.0.0").unwrap();
    assert!(refs.get_all_refs().is_empty());
}

#[test]
fn test_get_head_and_set_head() {
    let mut refs = RefHandler::new();
    assert!(refs.get_head().is_none());
    refs.set_head("refs/heads/main".to_string(), true);
    let head = refs.get_head().unwrap();
    assert_eq!(head.target, "refs/heads/main");
    assert!(head.is_symbolic);
}

#[test]
fn test_default_branch_from_symbolic_head() {
    let mut refs = RefHandler::new();
    refs.add_ref("refs/heads/trunk".to_string(), "a".repeat(40), false);
    refs.add_ref("HEAD".to_string(), "refs/heads/trunk".to_string(), true);
    assert_eq!(refs.get_default_branch().unwrap(), "trunk");
}

#[test]
fn test_default_branch_fallback_names() {
    let mut refs = RefHandler::new();
    refs.add_ref("refs/heads/master".to_string(), "a".repeat(40), false);
    assert_eq!(refs.get_default_branch().unwrap(), "master");
    refs.add_ref("refs/heads/main".to_string(), "b".repeat(40), false);
    assert_eq!(refs.get_default_branch().unwrap(), "main");
    let empty = RefHandler::new();
    assert!(empty.get_default_branch().is_none());
}

#[test]
fn test_import_and_export_refs() {
    let mut refs = RefHandler::new();
    refs.import_refs(vec![
        ("refs/heads/main".to_string(), "a".repeat(40)),
        ("HEAD".to_string(), "refs/heads/main".to_string()),
        ("refs/tags/v1".to_string(), "b".repeat(40)),
    ]);
    // HEAD bound to a ref name comes in symbolic.
    assert!(refs.get_ref("HEAD").unwrap().is_symbolic);
    assert!(!refs.get_ref("refs/heads/main").unwrap().is_symbolic);
    let exported = refs.export_refs();
    assert_eq!(exported.len(), 3);
    assert_eq!(exported[0], ("refs/heads/main".to_string(), "a".repeat(40)));
    assert_eq!(refs.resolve_ref("HEAD").unwrap(), "a".repeat(40));
}

#[test]
fn test_get_refs_matching() {
    let mut refs = RefHandler::new();
    refs.add_ref("refs/heads/main".to_string(), "a".repeat(40), false);
    refs.add_ref("refs/heads/feature".to_string(), "b".repeat(40), false);
    refs.add_ref("refs/tags/v1".to_string(), "c".repeat(40), false);
    assert_eq!(refs.get_refs_matching("heads").len(), 2);
    assert_eq!(refs.get_refs_matching("tags").len(), 1);
    assert_eq!(refs.get_refs_matching("nothing").len(), 0);
}
