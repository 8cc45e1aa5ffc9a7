use git_protocol::protocol::{extract_repo_path, fetch_step, push_step, FetchState, ProtocolHandler, PushState};
use git_protocol::{GitError, GitProtocol};

#[test]
fn test_protocol_handler() {
    let protocol = ProtocolHandler::new();

    // Test pkt-line parsing
    let pkt_data = b"0006a\n0000";
    let lines = protocol.parse_pkt_line(pkt_data).unwrap();
    assert_eq!(lines, vec!["a"]);

    // Test pkt-line creation
    let lines = vec!["hello"];
    let pkt_data = protocol.create_pkt_line(&lines).unwrap();
    assert!(pkt_data.starts_with(b"000a"));
    assert!(pkt_data.ends_with(b"0000"));
}

#[test]
fn test_ref_advertisement() {
    let protocol = ProtocolHandler::new();

    let refs = vec![
        (
            "refs/heads/main".to_string(),
            "1234567890abcdef".repeat(2).chars().take(40).collect(),
        ),
        (
            "refs/heads/develop".to_string(),
            "abcdef1234567890".repeat(2).chars().take(40).collect(),
        ),
    ];

    let capabilities = vec!["multi_ack", "side-band-64k"];
    let advertisement = protocol.create_ref_advertisement(&refs, &capabilities).unwrap();

    // Should contain the refs and capabilities
    assert!(!advertisement.is_empty());
}

#[test]
fn test_pkt_line_literal() {
    let protocol = ProtocolHandler::new();
    assert_eq!(protocol.parse_pkt_line(b"0006a\n0000").unwrap(), vec!["a"]);
}

#[test]
fn test_pkt_line_round_trip_zero_lines() {
    let protocol = ProtocolHandler::new();
    let lines: Vec<&str> = vec![];
    let bytes = protocol.create_pkt_line(&lines).unwrap();
    assert_eq!(bytes, b"0000".to_vec());
    let parsed = protocol.parse_pkt_line(&bytes).unwrap();
    assert!(parsed.is_empty());
}

#[test]
fn test_pkt_line_round_trip_many_lines() {
    let protocol = ProtocolHandler::new();
    let lines = vec!["want aaaa", "have bbbb", "", "done"];
    let bytes = protocol.create_pkt_line(&lines).unwrap();
    let parsed = protocol.parse_pkt_line(&bytes).unwrap();
    assert_eq!(parsed, lines);
}

#[test]
fn test_pkt_line_truncated_length_fails() {
    let protocol = ProtocolHandler::new();
    assert_eq!(protocol.parse_pkt_line(b"00"), Err(GitError::Format));
}

#[test]
fn test_pkt_line_invalid_hex_fails() {
    let protocol = ProtocolHandler::new();
    assert_eq!(protocol.parse_pkt_line(b"zzzz"), Err(GitError::Format));
}

#[test]
fn test_pkt_line_short_length_fails() {
    let protocol = ProtocolHandler::new();
    assert_eq!(protocol.parse_pkt_line(b"0003"), Err(GitError::Format));
}

#[test]
fn test_pkt_line_overlong_frame_fails() {
    let protocol = ProtocolHandler::new();
    assert_eq!(protocol.parse_pkt_line(b"0010abc"), Err(GitError::Format));
}

#[test]
fn test_pkt_line_stops_at_flush() {
    let protocol = ProtocolHandler::new();
    // Content after the flush is ignored.
    let lines = protocol.parse_pkt_line(b"0006a\n0000garbage").unwrap();
    assert_eq!(lines, vec!["a"]);
}

#[test]
fn test_parse_capabilities_with_nul() {
    let protocol = ProtocolHandler::new();
    let (ref_part, caps) = protocol.parse_capabilities("abcd refs/heads/main\0multi_ack side-band-64k");
    assert_eq!(ref_part, "abcd refs/heads/main");
    assert_eq!(caps, vec!["multi_ack", "side-band-64k"]);
}

#[test]
fn test_parse_capabilities_without_nul() {
    let protocol = ProtocolHandler::new();
    let (ref_part, caps) = protocol.parse_capabilities("abcd refs/heads/main");
    assert_eq!(ref_part, "abcd refs/heads/main");
    assert!(caps.is_empty());
}

#[test]
fn test_parse_want_have() {
    let protocol = ProtocolHandler::new();
    let lines = vec![
        "want aaaa".to_string(),
        "have bbbb".to_string(),
        "done".to_string(),
        "want cccc".to_string(),
    ];
    let (wants, haves) = protocol.parse_want_have(&lines).unwrap();
    assert_eq!(wants, vec!["aaaa", "cccc"]);
    assert_eq!(haves, vec!["bbbb"]);
}

#[test]
fn test_create_nak() {
    let protocol = ProtocolHandler::new();
    assert_eq!(protocol.create_nak(), b"0008NAK\n0000".to_vec());
}

#[test]
fn test_create_ack() {
    let protocol = ProtocolHandler::new();
    let bytes = protocol.create_ack("abcd").unwrap();
    assert_eq!(bytes, b"000dACK abcd\n0000".to_vec());
}

#[test]
fn test_empty_ref_advertisement_uses_zero_id() {
    let protocol = ProtocolHandler::new();
    let refs: Vec<(String, String)> = vec![];
    let advertisement = protocol.create_ref_advertisement(&refs, &["multi_ack"]).unwrap();
    let text = String::from_utf8_lossy(&advertisement).into_owned();
    assert!(text.contains("0000000000000000000000000000000000000000"));
    assert!(text.contains("multi_ack"));
}

#[test]
fn test_ref_advertisement_first_line_carries_capabilities() {
    let protocol = ProtocolHandler::new();
    let refs = vec![
        ("refs/heads/main".to_string(), "a".repeat(40)),
        ("refs/heads/dev".to_string(), "b".repeat(40)),
    ];
    let advertisement = protocol.create_ref_advertisement(&refs, &["multi_ack"]).unwrap();
    let lines = protocol.parse_pkt_line(&advertisement).unwrap();
    assert_eq!(lines.len(), 2);
    assert_eq!(lines[0], format!("{} refs/heads/main\0multi_ack", "a".repeat(40)));
    assert_eq!(lines[1], format!("{} refs/heads/dev", "b".repeat(40)));
}

#[test]
fn test_extract_repo_path_quoted() {
    let path = extract_repo_path("git-upload-pack '/path/to/repo.git'").unwrap();
    assert_eq!(path, "/path/to/repo.git");
}

#[test]
fn test_extract_repo_path_fallback() {
    let path = extract_repo_path("git-receive-pack repo.git").unwrap();
    assert_eq!(path, "repo.git");
}

#[test]
fn test_extract_repo_path_missing() {
    assert_eq!(extract_repo_path("git-upload-pack"), Err(GitError::Format));
}

#[test]
fn test_protocol_trait_pack_round_trip() {
    let protocol = ProtocolHandler::new();
    let handler = git_protocol::objects::ObjectHandler::new();
    let objects = vec![handler.create_blob(b"payload").unwrap()];
    let pack = protocol.create_pack(&objects).unwrap();
    let entries = protocol.parse_pack(&pack).unwrap();
    assert_eq!(entries.len(), 1);
    assert_eq!(entries[0].data, b"payload".to_vec());
}

#[test]
fn test_fetch_state_machine() {
    let s = FetchState::AdvertiseRefs;
    let s = fetch_step(s, false);
    assert_eq!(s, FetchState::AwaitWantHave);
    let s = fetch_step(s, false);
    assert_eq!(s, FetchState::Negotiate);
    let s = fetch_step(s, false);
    assert_eq!(s, FetchState::Negotiate); // rounds repeat until the client is done
    let s = fetch_step(s, true);
    assert_eq!(s, FetchState::SendPack);
    let s = fetch_step(s, true);
    assert_eq!(s, FetchState::Done);
    assert_eq!(fetch_step(s, false), FetchState::Done);
}

#[test]
fn test_push_state_machine() {
    let s = push_step(PushState::AdvertiseRefs);
    assert_eq!(s, PushState::AwaitRefCommandsAndPack);
    let s = push_step(s);
    assert_eq!(s, PushState::UnpackAndApplyRefs);
    let s = push_step(s);
    assert_eq!(s, PushState::SendReportStatus);
    let s = push_step(s);
    assert_eq!(s, PushState::Done);
    assert_eq!(push_step(s), PushState::Done);
}
