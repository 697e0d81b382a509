use cokacdir::codec::DocItem;
use cokacdir::codec::SessionDoc;
use cokacdir::dashboard::appeared_agents;
use cokacdir::dashboard::snapshot_of_doc;
use cokacdir::dashboard::vanished_agents;
use cokacdir::session::HistoryKind;

#[test]
fn snapshot_reads_status_and_last_tool() {
    let doc = SessionDoc {
        session_id: b"s1".to_vec(),
        current_path: b"/w".to_vec(),
        created_at: b"t0".to_vec(),
        history: vec![
            DocItem { kind: HistoryKind::ToolUse, content: b"Read /a".to_vec() },
            DocItem { kind: HistoryKind::Assistant, content: b"done".to_vec() },
            DocItem { kind: HistoryKind::User, content: b"next".to_vec() },
        ],
    };
    let snap = snapshot_of_doc(&doc, 4).unwrap();
    assert_eq!(snap.id, 4);
    assert!(snap.active);
    assert_eq!(snap.last_tool.as_deref(), Some(b"Read /a".as_slice()));
    let empty = SessionDoc {
        session_id: b"s2".to_vec(),
        current_path: b"/w".to_vec(),
        created_at: b"t0".to_vec(),
        history: vec![],
    };
    assert!(snapshot_of_doc(&empty, 5).is_none());
}

#[test]
fn rescan_diff_yields_created_and_closed() {
    let before = vec![(b"a".to_vec(), 1usize), (b"b".to_vec(), 2usize)];
    let now = vec![(b"b".to_vec(), 2usize), (b"c".to_vec(), 3usize)];
    assert_eq!(appeared_agents(&before, &now), vec![3]);
    assert_eq!(vanished_agents(&before, &now), vec![1]);
    assert!(appeared_agents(&now, &now).is_empty());
    assert!(vanished_agents(&now, &now).is_empty());
}
