use mimeclip::cli::{format_line, list_lines, present, request_for, Command, Output, DEFAULT_LIMIT};
use mimeclip::ipc::{Request, Response};
use mimeclip::time::Timestamp;
use mimeclip::types::{Entry, EntryKind, MimePayload};

fn entry(id: i64, kind: EntryKind, label: &str) -> Entry {
    Entry {
        id,
        hash: "h".to_string(),
        kind,
        label: label.to_string(),
        preview: label.to_string(),
        size: 1,
        created_at: Timestamp::new(0, 0).unwrap(),
        last_used_at: Timestamp::new(1_777_371_245, 0).unwrap(),
        mime_types: Vec::new(),
    }
}

const LIST: Command = Command::List { limit: 50, json: false };

#[test]
fn commands_become_requests() {
    assert_eq!(DEFAULT_LIMIT, 50);
    let cases = [
        (LIST, Request::List { limit: Some(50) }),
        (
            Command::List { limit: 3, json: true },
            Request::List { limit: Some(3) },
        ),
        (Command::Decode { id: 4 }, Request::Decode { id: 4 }),
        (Command::Delete { id: 5 }, Request::Delete { id: 5 }),
        (Command::Restore { id: 6 }, Request::Restore { id: 6 }),
        (Command::Clear, Request::Clear),
        (Command::Ping, Request::Ping),
    ];
    for (command, request) in cases {
        assert_eq!(request_for(&command), request);
    }
}

#[test]
fn lines_are_aligned() {
    let clock = "2026-04-28 10:14:05";
    for id in [0, 7, -12, 123_456, 1_234_567] {
        for kind in [EntryKind::Uri, EntryKind::Image] {
            assert_eq!(
                format_line(id, kind, clock, "l"),
                format!("{:>6}  {:<5}  {}  {}", id, kind.label(), clock, "l")
            );
        }
    }
}

#[test]
fn entries_are_shown_one_to_a_line() {
    let entries = vec![
        entry(42, EntryKind::File, "notes.txt"),
        entry(41, EntryKind::Text, "~/documents/notes.txt"),
    ];
    let expected = vec![
        "    42  file   2026-04-28 10:14:05  notes.txt",
        "    41  text   2026-04-28 10:14:05  ~/documents/notes.txt",
    ];
    assert_eq!(list_lines(&entries), expected);
    match present(&LIST, Response::List { entries }) {
        Output::Lines { lines } => assert_eq!(lines, expected),
        other => panic!("{other:?}"),
    }
}

#[test]
fn entries_and_payloads_are_shown_in_json() {
    let entries = vec![entry(1, EntryKind::Other, "x")];
    let json = Command::List { limit: 50, json: true };
    match present(&json, Response::List { entries }) {
        Output::Entries { entries } => assert_eq!(entries[0].id, 1),
        other => panic!("{other:?}"),
    }
    let payloads = vec![MimePayload {
        mime_type: "a/b".to_string(),
        data_b64: "AA==".to_string(),
    }];
    match present(&Command::Decode { id: 1 }, Response::Decode { payloads }) {
        Output::Payloads { payloads } => assert_eq!(payloads[0].data_b64, "AA=="),
        other => panic!("{other:?}"),
    }
}

#[test]
fn errors_are_shown_for_every_command() {
    for command in [LIST, Command::Ping, Command::Decode { id: 1 }] {
        let response = Response::Error { message: "no entry with id 9".to_string() };
        match present(&command, response) {
            Output::Failure { message } => assert_eq!(message, "error: no entry with id 9"),
            other => panic!("{other:?}"),
        }
    }
}

#[test]
fn pong_is_shown() {
    match present(&Command::Ping, Response::Pong) {
        Output::Lines { lines } => assert_eq!(lines, vec!["pong"]),
        other => panic!("{other:?}"),
    }
}

#[test]
fn answers_that_do_not_fit_are_not_shown() {
    assert!(matches!(
        present(&Command::Clear, Response::Done),
        Output::Nothing
    ));
    assert!(matches!(
        present(&Command::Ping, Response::List { entries: Vec::new() }),
        Output::Nothing
    ));
    assert!(matches!(
        present(&LIST, Response::Decode { payloads: Vec::new() }),
        Output::Nothing
    ));
}
