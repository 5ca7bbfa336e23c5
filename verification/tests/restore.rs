use mimeclip::restore::{restore_entry, RestoreState, SourceAction, SourceEvent};

fn payloads() -> Vec<(String, Vec<u8>)> {
    vec![
        ("text/plain".to_string(), b"old".to_vec()),
        ("text/html".to_string(), b"<b>".to_vec()),
        ("text/plain".to_string(), b"new".to_vec()),
    ]
}

#[test]
fn every_type_is_served_with_its_last_bytes() {
    let state = RestoreState::new(payloads());
    let mut types = state.mime_types();
    types.sort();
    assert_eq!(types, vec!["text/html", "text/plain"]);
    assert_eq!(state.payload_for("text/plain"), Some(&b"new".to_vec()));
    assert_eq!(state.payload_for("text/html"), Some(&b"<b>".to_vec()));
    assert_eq!(state.payload_for("image/png"), None);
    assert!(!state.is_done());
}

#[test]
fn entry_is_served_until_the_source_is_cancelled() {
    let mut state = restore_entry(payloads()).unwrap();
    let send = |mime: &str| SourceEvent::Send { mime_type: mime.to_string() };
    match state.event(send("text/html")) {
        SourceAction::Write { data } => assert_eq!(data, b"<b>".to_vec()),
        other => panic!("{other:?}"),
    }
    assert!(matches!(state.event(send("a/b")), SourceAction::Refuse));
    assert!(!state.is_done());
    assert!(matches!(
        state.event(SourceEvent::Cancelled),
        SourceAction::Stop
    ));
    assert!(state.is_done());
    match state.event(send("text/plain")) {
        SourceAction::Write { data } => assert_eq!(data, b"new".to_vec()),
        other => panic!("{other:?}"),
    }
    assert!(state.is_done());
}

#[test]
fn entry_is_served_until_the_device_is_gone() {
    let mut state = RestoreState::new(payloads());
    assert!(matches!(
        state.event(SourceEvent::Finished),
        SourceAction::Stop
    ));
    assert!(state.is_done());
}

#[test]
fn entry_without_payloads_is_not_offered() {
    assert!(restore_entry(Vec::new()).is_none());
}
