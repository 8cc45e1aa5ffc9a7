use git_protocol::objects::{Commit, GitTime, ObjectHandler, Tree, TreeEntry};
use git_protocol::ops::{commit_from_request, validate_registration, CreateCommitRequest, RegisterRequest};
use git_protocol::ObjectType;

#[test]
fn test_calculate_hash_known_value() {
    let handler = ObjectHandler::new();
    let id = handler.calculate_hash(ObjectType::Blob, b"hello").unwrap();
    // SHA-1 of "blob 5\0hello"
    assert_eq!(id, "b6fc4c620b67d95f953a5c1c1230aaab5db5a1b0");
    let id = handler.calculate_hash(ObjectType::Blob, b"hello world").unwrap();
    assert_eq!(id, "95d09f2b10159347eece71399a7e2e907ea3df4f");
}

#[test]
fn test_hash_is_deterministic_forty_hex() {
    let handler = ObjectHandler::new();
    for t in [ObjectType::Commit, ObjectType::Tree, ObjectType::Blob, ObjectType::Tag] {
        let a = handler.calculate_hash(t, b"some content").unwrap();
        let b = handler.calculate_hash(t, b"some content").unwrap();
        assert_eq!(a, b);
        assert_eq!(a.len(), 40);
        assert!(a.chars().all(|c| c.is_ascii_hexdigit()));
    }
}

#[test]
fn test_hash_across_size_encoding_boundary() {
    let handler = ObjectHandler::new();
    let fifteen = [7u8; 15];
    let sixteen = [7u8; 16];
    let a = handler.calculate_hash(ObjectType::Blob, &fifteen).unwrap();
    let b = handler.calculate_hash(ObjectType::Blob, &sixteen).unwrap();
    assert_eq!(a.len(), 40);
    assert_eq!(b.len(), 40);
    assert_ne!(a, b);
    // The same inputs keep hashing to the same ids.
    assert_eq!(a, handler.calculate_hash(ObjectType::Blob, &fifteen).unwrap());
    assert_eq!(b, handler.calculate_hash(ObjectType::Blob, &sixteen).unwrap());
}

#[test]
fn test_parse_object_and_blob() {
    let handler = ObjectHandler::new();
    let obj = handler.parse_object(ObjectType::Blob, b"hello").unwrap();
    assert_eq!(obj.id, "b6fc4c620b67d95f953a5c1c1230aaab5db5a1b0");
    assert_eq!(obj.obj_type, ObjectType::Blob);
    assert_eq!(obj.size, 5);
    assert_eq!(obj.content, b"hello".to_vec());

    let blob = handler.parse_blob(b"raw").unwrap();
    assert_eq!(blob.content, b"raw".to_vec());

    let created = handler.create_blob(b"hello").unwrap();
    assert_eq!(created.id, obj.id);
}

#[test]
fn test_parse_commit_headers_and_message() {
    let handler = ObjectHandler::new();
    let content = b"tree 1111111111111111111111111111111111111111\n\
parent 2222222222222222222222222222222222222222\n\
parent 3333333333333333333333333333333333333333\n\
author A U Thor <author@example.com> 1400000000 +0200\n\
committer C O Mitter <committer@example.com> 1400000100 -0330\n\
\n\
first line\n\
second line";
    let commit = handler.parse_commit(content).unwrap();
    assert_eq!(commit.tree, "1111111111111111111111111111111111111111");
    assert_eq!(
        commit.parents,
        vec![
            "2222222222222222222222222222222222222222".to_string(),
            "3333333333333333333333333333333333333333".to_string(),
        ]
    );
    assert_eq!(commit.author, "A U Thor <author@example.com> 1400000000 +0200");
    assert_eq!(commit.committer, "C O Mitter <committer@example.com> 1400000100 -0330");
    assert_eq!(commit.message, "first line\nsecond line");
    // The embedded timestamps are parsed and preserved, not replaced.
    assert_eq!(commit.author_date, Some(GitTime { seconds: 1400000000, offset_minutes: 120 }));
    assert_eq!(commit.commit_date, Some(GitTime { seconds: 1400000100, offset_minutes: -210 }));
}

#[test]
fn test_parse_commit_without_timestamp() {
    let handler = ObjectHandler::new();
    let content = b"tree 1111111111111111111111111111111111111111\n\
author Nameless\n\
committer Nameless\n\
\n\
msg";
    let commit = handler.parse_commit(content).unwrap();
    assert_eq!(commit.author, "Nameless");
    assert_eq!(commit.author_date, None);
    assert_eq!(commit.commit_date, None);
}

#[test]
fn test_serialize_commit_round_trip() {
    let handler = ObjectHandler::new();
    let commit = Commit {
        tree: "1111111111111111111111111111111111111111".to_string(),
        parents: vec!["2222222222222222222222222222222222222222".to_string()],
        author: "A U Thor <author@example.com> 1400000000 +0200".to_string(),
        committer: "C O Mitter <committer@example.com> 1400000000 +0200".to_string(),
        message: "a message".to_string(),
        author_date: Some(GitTime { seconds: 1400000000, offset_minutes: 120 }),
        commit_date: Some(GitTime { seconds: 1400000000, offset_minutes: 120 }),
    };
    let bytes = handler.serialize_commit(&commit);
    let parsed = handler.parse_commit(&bytes).unwrap();
    assert_eq!(parsed.tree, commit.tree);
    assert_eq!(parsed.parents, commit.parents);
    assert_eq!(parsed.author, commit.author);
    assert_eq!(parsed.committer, commit.committer);
    assert_eq!(parsed.message, commit.message);
    assert_eq!(parsed.author_date, commit.author_date);
}

#[test]
fn test_create_commit_hashes_serialization() {
    let handler = ObjectHandler::new();
    let commit = Commit {
        tree: "1111111111111111111111111111111111111111".to_string(),
        parents: vec![],
        author: "A <a@b.c> 1400000000 +0000".to_string(),
        committer: "A <a@b.c> 1400000000 +0000".to_string(),
        message: "m".to_string(),
        author_date: Some(GitTime { seconds: 1400000000, offset_minutes: 0 }),
        commit_date: Some(GitTime { seconds: 1400000000, offset_minutes: 0 }),
    };
    let obj = handler.create_commit(&commit).unwrap();
    assert_eq!(obj.obj_type, ObjectType::Commit);
    let expected = handler.calculate_hash(ObjectType::Commit, &obj.content).unwrap();
    assert_eq!(obj.id, expected);
    assert_eq!(obj.size, obj.content.len());
}

#[test]
fn test_serialize_and_parse_tree() {
    let handler = ObjectHandler::new();
    let tree = Tree {
        entries: vec![
            TreeEntry {
                mode: "100644".to_string(),
                name: "README.md".to_string(),
                hash: "aaaaaaaaaaaaaaaaaaaaaaaaaaaaaaaaaaaaaaaa".to_string(),
            },
            TreeEntry {
                mode: "040000".to_string(),
                name: "src".to_string(),
                hash: "bbbbbbbbbbbbbbbbbbbbbbbbbbbbbbbbbbbbbbbb".to_string(),
            },
        ],
    };
    let bytes = handler.serialize_tree(&tree);
    let parsed = handler.parse_tree(&bytes).unwrap();
    assert_eq!(parsed.entries.len(), 2);
    assert_eq!(parsed.entries[0].mode, "100644");
    assert_eq!(parsed.entries[0].name, "README.md");
    assert_eq!(parsed.entries[0].hash, "aaaaaaaaaaaaaaaaaaaaaaaaaaaaaaaaaaaaaaaa");
    assert_eq!(parsed.entries[1].mode, "040000");
    assert_eq!(parsed.entries[1].name, "src");
    assert_eq!(parsed.entries[1].hash, "bbbbbbbbbbbbbbbbbbbbbbbbbbbbbbbbbbbbbbbb");

    let obj = handler.create_tree(&tree).unwrap();
    assert_eq!(obj.obj_type, ObjectType::Tree);
    assert_eq!(obj.content, bytes);
}

#[test]
fn test_parse_tree_truncated_hash_fails() {
    let handler = ObjectHandler::new();
    let mut bytes = Vec::new();
    bytes.extend_from_slice(b"100644 file\0");
    bytes.extend_from_slice(&[0u8; 10]); // only half a hash
    assert!(handler.parse_tree(&bytes).is_err());
}

#[test]
fn test_parse_tree_missing_delimiters_fail() {
    let handler = ObjectHandler::new();
    assert!(handler.parse_tree(b"nodelimiters").is_err());
    assert!(handler.parse_tree(b"100644 name-without-nul").is_err());
}

#[test]
fn test_commit_from_request() {
    let request = CreateCommitRequest {
        tree_hash: "1111111111111111111111111111111111111111".to_string(),
        parent_hashes: vec!["2222222222222222222222222222222222222222".to_string()],
        author: "A <a@b.c>".to_string(),
        committer: "C <c@d.e>".to_string(),
        message: "message".to_string(),
    };
    let when = Some(GitTime { seconds: 1500000000, offset_minutes: 0 });
    let commit = commit_from_request(&request, when, when);
    assert_eq!(commit.tree, request.tree_hash);
    assert_eq!(commit.parents, request.parent_hashes);
    assert_eq!(commit.author, request.author);
    assert_eq!(commit.committer, request.committer);
    assert_eq!(commit.message, request.message);
    assert_eq!(commit.author_date, when);
}

#[test]
fn test_validate_registration() {
    let ok = RegisterRequest {
        username: "user".to_string(),
        email: "user@example.com".to_string(),
        password: "password123".to_string(),
        full_name: None,
    };
    assert!(validate_registration(&ok).is_none());

    let blank_name = RegisterRequest { username: "   ".to_string(), ..ok.clone() };
    assert_eq!(validate_registration(&blank_name).unwrap(), "Username cannot be empty");

    let bad_email = RegisterRequest { email: "not-an-email".to_string(), ..ok.clone() };
    assert_eq!(validate_registration(&bad_email).unwrap(), "Valid email is required");

    let short_password = RegisterRequest { password: "12345".to_string(), ..ok.clone() };
    assert_eq!(
        validate_registration(&short_password).unwrap(),
        "Password must be at least 6 characters"
    );
}
