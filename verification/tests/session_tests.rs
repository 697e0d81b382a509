use cokacdir::codec::DocItem;
use cokacdir::codec::SessionDoc;
use cokacdir::codec::decode_session;
use cokacdir::codec::encode_session;
use cokacdir::session::CancelRegistry;
use cokacdir::session::HistoryKind;
use cokacdir::session::begin_exchange;
use cokacdir::session::clear_session;
use cokacdir::session::finish_exchange;
use cokacdir::session::new_session;
use cokacdir::session::persistable_history;
use cokacdir::session::record_upload;
use cokacdir::session::session_file_path;
use cokacdir::settings::AuthOutcome;
use cokacdir::settings::BotSettings;
use cokacdir::settings::credential_key;

#[test]
fn clear_then_exchange_starts_fresh_history() {
    let mut s = new_session(Some("/tmp/work".to_string()));
    finish_exchange(&mut s, "old q".to_string(), "old a".to_string(), Some("sid1".to_string()));
    assert_eq!(s.history.len(), 2);
    clear_session(&mut s);
    assert!(s.agent_session_id.is_none());
    assert!(s.cleared);
    let uploads = begin_exchange(&mut s);
    assert!(uploads.is_empty());
    assert!(!s.cleared);
    finish_exchange(&mut s, "q".to_string(), "a".to_string(), Some("sid2".to_string()));
    assert_eq!(s.history.len(), 2);
    assert!(matches!(s.history[0].kind, HistoryKind::User));
    assert_eq!(s.history[0].content, "q");
    assert!(matches!(s.history[1].kind, HistoryKind::Assistant));
    assert_eq!(s.history[1].content, "a");
    assert_eq!(s.agent_session_id.as_deref(), Some("sid2"));
}

#[test]
fn cleared_session_records_nothing() {
    let mut s = new_session(Some("/tmp/work".to_string()));
    clear_session(&mut s);
    finish_exchange(&mut s, "q".to_string(), "a".to_string(), Some("sid".to_string()));
    assert!(s.history.is_empty());
    assert!(s.agent_session_id.is_none());
}

#[test]
fn uploads_are_drained_into_next_prompt() {
    let mut s = new_session(Some("/tmp/w".to_string()));
    record_upload(&mut s, "[File uploaded] a.txt".to_string());
    assert_eq!(s.pending_uploads.len(), 1);
    assert_eq!(s.history.len(), 1);
    let uploads = begin_exchange(&mut s);
    assert_eq!(uploads, vec!["[File uploaded] a.txt".to_string()]);
    assert!(s.pending_uploads.is_empty());
}

#[test]
fn system_items_are_not_persisted() {
    let mut s = new_session(None);
    s.history.push(cokacdir::session::HistoryItem {
        kind: HistoryKind::System,
        content: "internal".to_string(),
    });
    s.history.push(cokacdir::session::HistoryItem {
        kind: HistoryKind::User,
        content: "hi".to_string(),
    });
    let kept = persistable_history(&s.history);
    assert_eq!(kept.len(), 1);
    assert_eq!(kept[0].content, "hi");
}

#[test]
fn at_most_one_cancel_token_per_conversation() {
    let mut reg = CancelRegistry::new();
    assert!(reg.attach("chat-1"));
    assert!(!reg.attach("chat-1"));
    assert!(reg.attach("chat-2"));
    assert!(reg.is_active("chat-1"));
    reg.detach("chat-1");
    assert!(!reg.is_active("chat-1"));
    assert!(reg.is_active("chat-2"));
    assert!(reg.attach("chat-1"));
}

#[test]
fn session_path_refuses_traversal() {
    assert!(session_file_path("/home/u/.cokacdir/ai_sessions", "../evil").is_none());
    assert!(session_file_path("/d", "a/b").is_none());
    assert!(session_file_path("/d", "").is_none());
    assert!(session_file_path("/d", ".").is_none());
    assert!(session_file_path("/d", "..").is_none());
    let p = session_file_path("/d", "abc-123").unwrap();
    assert_eq!(p, "/d/abc-123.json");
}

#[test]
fn owner_imprint_is_monotonic() {
    let mut st = BotSettings::default_settings();
    assert!(st.owner_user_id.is_none());
    assert_eq!(st.check_auth(7), AuthOutcome::Imprinted);
    assert_eq!(st.owner_user_id, Some(7));
    assert_eq!(st.check_auth(9), AuthOutcome::Rejected);
    assert_eq!(st.owner_user_id, Some(7));
    assert!(st.add_user(9));
    assert_eq!(st.owner_user_id, Some(7));
    assert_eq!(st.check_auth(9), AuthOutcome::Accepted);
    assert!(st.remove_user(9));
    assert_eq!(st.owner_user_id, Some(7));
    assert_eq!(st.check_auth(9), AuthOutcome::Rejected);
    assert_eq!(st.check_auth(7), AuthOutcome::Accepted);
}

#[test]
fn settings_fall_back_to_defaults_without_tools() {
    let st = BotSettings::from_parts(Some(3), vec![], vec![], vec![42]);
    assert_eq!(st.owner_user_id, Some(3));
    assert!(st.allowed_user_ids.is_empty());
    assert!(st.allowed_tools.iter().any(|t| t == "Bash"));
    let st2 = BotSettings::from_parts(None, vec!["Read".to_string()], vec![], vec![42]);
    assert_eq!(st2.allowed_tools, vec!["Read".to_string()]);
    assert_eq!(st2.allowed_user_ids, vec![42]);
}

#[test]
fn last_sessions_replace_per_key() {
    let mut st = BotSettings::default_settings();
    st.set_last_session("123", "/a");
    st.set_last_session("456", "/b");
    st.set_last_session("123", "/c");
    assert_eq!(st.last_session_of("123").map(|s| s.as_str()), Some("/c"));
    assert_eq!(st.last_session_of("456").map(|s| s.as_str()), Some("/b"));
    assert!(st.last_session_of("789").is_none());
}

#[test]
fn credential_key_is_prefixed_truncated_hash() {
    // SHA-256("test") begins 9f86d081884c7d65...
    let k = credential_key("test", "discord_");
    assert_eq!(k, "discord_9f86d081884c7d65");
    let k2 = credential_key("test", "");
    assert_eq!(k2, "9f86d081884c7d65");
}

#[test]
fn session_document_round_trips() {
    let doc = SessionDoc {
        session_id: b"abc-123".to_vec(),
        current_path: b"/tmp/work".to_vec(),
        created_at: b"2025-01-01 10:00:00".to_vec(),
        history: vec![
            DocItem { kind: HistoryKind::User, content: b"say \"hi\"\nplease".to_vec() },
            DocItem { kind: HistoryKind::Assistant, content: "hi \\ there \u{1}".as_bytes().to_vec() },
            DocItem { kind: HistoryKind::ToolUse, content: b"Read /tmp/a".to_vec() },
        ],
    };
    let bytes = encode_session(&doc);
    let back = decode_session(&bytes).expect("canonical encoding must decode");
    assert_eq!(back.session_id, doc.session_id);
    assert_eq!(back.current_path, doc.current_path);
    assert_eq!(back.created_at, doc.created_at);
    assert_eq!(back.history.len(), doc.history.len());
    for (a, b) in back.history.iter().zip(doc.history.iter()) {
        assert_eq!(a.content, b.content);
        assert_eq!(format!("{:?}", a.kind), format!("{:?}", b.kind));
    }
}

#[test]
fn session_document_is_valid_json() {
    let doc = SessionDoc {
        session_id: b"s1".to_vec(),
        current_path: b"/p".to_vec(),
        created_at: b"now".to_vec(),
        history: vec![DocItem { kind: HistoryKind::User, content: b"line1\nline2".to_vec() }],
    };
    let bytes = encode_session(&doc);
    let text = String::from_utf8(bytes).expect("encoding is UTF-8");
    let v: serde_json::Value = serde_json::from_str(&text).expect("encoding is JSON");
    assert_eq!(v["session_id"], "s1");
    assert_eq!(v["history"][0]["content"], "line1\nline2");
}

#[test]
fn malformed_documents_are_refused() {
    assert!(decode_session(&b"not json".to_vec()).is_none());
    assert!(decode_session(&b"{}".to_vec()).is_none());
    assert!(decode_session(&b"{\"session_id\":\"x\"}".to_vec()).is_none());
}
