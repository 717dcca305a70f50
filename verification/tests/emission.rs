use folder_watch::emit::{
    change_message, tally, EmitAction, EmitEvent, EmitTotals, Emission, Message,
};
use folder_watch::json::change_bytes;
use folder_watch::model::{ObservedChange, ObservedChangeKind};

fn change(kind: ObservedChangeKind, path: &str) -> ObservedChange {
    ObservedChange {
        watcher: "folder-watch-actor".to_string(),
        stream_name: "watch.folder".to_string(),
        change_kind: kind,
        absolute_path: path.to_string(),
        relative_path: path.to_string(),
        size_bytes: None,
        modified_unix_ms: None,
        sha256: None,
        detected_at: "now".to_string(),
    }
}

fn three() -> Vec<ObservedChange> {
    vec![
        change(ObservedChangeKind::Modified, "/a"),
        change(ObservedChangeKind::Created, "/b"),
        change(ObservedChangeKind::Modified, "/c"),
    ]
}

/// Runs an emission in which the send at `fail_at` fails.
fn run(changes: Vec<ObservedChange>, fail_at: usize) -> (Vec<Message>, Result<EmitTotals, String>) {
    let mut emission = Emission::new("watch.folder", changes);
    let mut sent = Vec::new();
    let mut tried = 0;
    loop {
        match emission.action() {
            EmitAction::Connect(stream) => {
                assert_eq!(stream, "watch.folder");
                assert!(sent.is_empty());
                emission.advance(EmitEvent::Connected(Ok(())));
            }
            EmitAction::Send(message) => {
                if tried == fail_at {
                    emission.advance(EmitEvent::Sent(Err("full".to_string())));
                } else {
                    sent.push(message);
                    emission.advance(EmitEvent::Sent(Ok(())));
                }
                tried += 1;
            }
            EmitAction::Finish => {
                assert!(emission.is_over());
                return (sent, emission.outcome().unwrap());
            }
        }
    }
}

#[test]
fn each_change_is_sent_once_and_in_order() {
    let (sent, totals) = run(three(), 99);
    let data: Vec<Vec<u8>> = sent.iter().map(|m| m.data.clone()).collect();
    let expected: Vec<Vec<u8>> = three().iter().map(change_bytes).collect();
    assert_eq!(data, expected);
    assert_eq!(
        totals,
        Ok(EmitTotals { emitted: 3, created: 1, modified: 2, deleted: 0 })
    );
}

#[test]
fn a_message_says_what_it_is_about() {
    let message = change_message("other", &change(ObservedChangeKind::Deleted, "/x"));
    assert_eq!(message.topic, "file-deleted");
    assert_eq!(message.content_type, Some("application/json".to_string()));
    assert_eq!(message.data, change_bytes(&change(ObservedChangeKind::Deleted, "/x")));
    assert_eq!(
        message.metadata,
        vec![
            ("watcher".to_string(), "folder-watch-actor".to_string()),
            ("stream".to_string(), "other".to_string()),
        ]
    );
    assert_eq!(change_message("s", &change(ObservedChangeKind::Created, "")).topic, "file-created");
    assert_eq!(
        change_message("s", &change(ObservedChangeKind::Modified, "")).topic,
        "file-modified"
    );
}

#[test]
fn without_changes_nothing_is_connected() {
    let emission = Emission::new("watch.folder", vec![]);
    assert!(matches!(emission.action(), EmitAction::Finish));
    assert_eq!(
        emission.outcome(),
        Some(Ok(EmitTotals { emitted: 0, created: 0, modified: 0, deleted: 0 }))
    );
}

#[test]
fn the_first_failure_ends_the_emission() {
    let (sent, outcome) = run(three(), 1);
    assert_eq!(sent.len(), 1);
    assert_eq!(outcome, Err("full".to_string()));

    let mut emission = Emission::new("watch.folder", three());
    emission.advance(EmitEvent::Connected(Err("refused".to_string())));
    assert!(matches!(emission.action(), EmitAction::Finish));
    emission.advance(EmitEvent::Connected(Ok(())));
    assert_eq!(emission.outcome(), Some(Err("refused".to_string())));
}

#[test]
fn what_was_not_asked_for_is_ignored() {
    let mut emission = Emission::new("watch.folder", three());
    emission.advance(EmitEvent::Sent(Ok(())));
    assert!(matches!(emission.action(), EmitAction::Connect(_)));
    assert!(!emission.is_over());
    assert!(emission.outcome().is_none());
}

#[test]
fn totals_count_each_kind() {
    let changes = vec![
        change(ObservedChangeKind::Deleted, "/a"),
        change(ObservedChangeKind::Created, "/b"),
        change(ObservedChangeKind::Deleted, "/c"),
        change(ObservedChangeKind::Modified, "/d"),
    ];
    let totals = tally(&changes);
    assert_eq!(totals, EmitTotals { emitted: 4, created: 1, modified: 1, deleted: 2 });
    assert_eq!(totals.created + totals.modified + totals.deleted, totals.emitted);
}
