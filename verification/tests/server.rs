use mimeclip::db::{Database, NewEntry, StoredRow, StoredTables};
use mimeclip::ipc::{Request, Response};
use mimeclip::server::{dispatch, dispatch_at, handle_line, settle, settle_at, Reply};
use mimeclip::suppress::SuppressState;
use mimeclip::time::{Moment, Timestamp};
use mimeclip::types::EntryKind;
use mimeclip::watcher::{process_ready_at, Capture, Outcome};
use sha2::Digest;

fn at(secs: i64) -> Timestamp {
    Timestamp::new(1_767_268_800 + secs, 0).unwrap()
}

fn history(n: i64) -> Database {
    let tables = StoredTables { columns: Vec::new(), rows: Vec::new(), last_id: 0 };
    let mut db = Database::open(None, tables, String::new()).unwrap();
    for i in 0..n {
        let hash = format!("hash {i}");
        let payloads = vec![("text/plain".to_string(), b"hello".to_vec())];
        db.insert(NewEntry {
            hash: &hash,
            kind: &EntryKind::Text,
            label: "hello",
            preview: "hello",
            size: 5,
            created_at: at(i),
            payloads: &payloads,
        })
        .unwrap();
    }
    db
}

fn error_of(reply: &Reply) -> &str {
    match &reply.response {
        Response::Error { message } => {
            assert!(reply.restore.is_none());
            message
        }
        other => panic!("{other:?}"),
    }
}

fn listed(reply: Reply) -> Vec<i64> {
    match reply.response {
        Response::List { entries } => entries.iter().map(|e| e.id).collect(),
        other => panic!("{other:?}"),
    }
}

#[test]
fn ping_is_answered() {
    let mut db = history(0);
    let reply = dispatch(Request::Ping, &mut db);
    assert!(matches!(reply.response, Response::Pong));
    assert!(reply.restore.is_none());
}

#[test]
fn entries_are_listed_up_to_the_limit() {
    let mut db = history(203);
    let reply = dispatch_at(Request::List { limit: Some(2) }, &mut db, at(0));
    assert_eq!(listed(reply), vec![203, 202]);
    let reply = dispatch_at(Request::List { limit: None }, &mut db, at(0));
    let ids = listed(reply);
    assert_eq!(ids.len(), 200);
    assert_eq!(ids[0], 203);
    assert_eq!(ids[199], 4);
}

#[test]
fn payloads_are_decoded() {
    let mut db = history(1);
    match dispatch(Request::Decode { id: 1 }, &mut db).response {
        Response::Decode { payloads } => {
            assert_eq!(payloads.len(), 1);
            assert_eq!(payloads[0].mime_type, "text/plain");
            assert_eq!(payloads[0].data_b64, "aGVsbG8=");
        }
        other => panic!("{other:?}"),
    }
    match dispatch(Request::Decode { id: 2 }, &mut db).response {
        Response::Decode { payloads } => assert!(payloads.is_empty()),
        other => panic!("{other:?}"),
    }
}

#[test]
fn entry_is_deleted_once() {
    let mut db = history(2);
    let reply = dispatch(Request::Delete { id: 1 }, &mut db);
    assert!(matches!(reply.response, Response::Done));
    let reply = dispatch(Request::Delete { id: 1 }, &mut db);
    assert_eq!(error_of(&reply), "no entry with id 1");
    let reply = dispatch(Request::Restore { id: 1 }, &mut db);
    assert_eq!(error_of(&reply), "no entry with id 1");
    assert_eq!(
        listed(dispatch(Request::List { limit: None }, &mut db)),
        vec![2]
    );
}

#[test]
fn missing_ids_are_named() {
    let mut db = history(1);
    for (id, text) in [
        (0, "no entry with id 0"),
        (-7, "no entry with id -7"),
        (i64::MIN, "no entry with id -9223372036854775808"),
        (i64::MAX, "no entry with id 9223372036854775807"),
    ] {
        let reply = dispatch(Request::Delete { id }, &mut db);
        assert_eq!(error_of(&reply), text);
    }
}

#[test]
fn history_is_cleared() {
    let mut db = history(3);
    let reply = dispatch(Request::Clear, &mut db);
    assert!(matches!(reply.response, Response::Done));
    assert!(listed(dispatch(Request::List { limit: None }, &mut db)).is_empty());
}

#[test]
fn restored_entry_is_offered_and_moves_up() {
    let mut db = history(3);
    let reply = dispatch_at(Request::Restore { id: 1 }, &mut db, at(100));
    assert!(matches!(reply.response, Response::Done));
    let restoration = reply.restore.unwrap();
    assert_eq!(restoration.hash, "hash 0");
    assert_eq!(
        restoration.payloads,
        vec![("text/plain".to_string(), b"hello".to_vec())]
    );
    let entries = db.list_at(10, at(0));
    assert_eq!(entries[0].id, 1);
    assert_eq!(entries[0].last_used_at, at(100));
    assert_eq!(entries[0].created_at, at(0));
}

#[test]
fn lines_are_answered() {
    let mut db = history(1);
    assert!(handle_line("", Ok(Request::Clear), &mut db, at(0)).is_none());
    assert_eq!(db.list_at(10, at(0)).len(), 1);
    let reply = handle_line("{", Err("EOF".to_string()), &mut db, at(0)).unwrap();
    assert_eq!(error_of(&reply), "parse error: EOF");
    let reply = handle_line("{}", Ok(Request::Ping), &mut db, at(0)).unwrap();
    assert!(matches!(reply.response, Response::Pong));
}

#[test]
fn restored_entry_is_waited_for() {
    let mut db = history(1);
    let mut suppress = SuppressState::default();
    let reply = dispatch(Request::Restore { id: 1 }, &mut db);
    let (response, payloads) = settle(reply, Ok(()), &mut suppress);
    assert!(matches!(response, Response::Done));
    assert_eq!(payloads.unwrap().len(), 1);
    assert!(suppress.should_suppress("hash 0"));
}

#[test]
fn failed_write_is_reported() {
    let mut db = history(1);
    let mut suppress = SuppressState::default();
    let reply = dispatch(Request::Restore { id: 1 }, &mut db);
    let failed = Err("disk I/O error".to_string());
    let (response, payloads) = settle_at(reply, failed, &mut suppress, Moment { nanos: 0 });
    match response {
        Response::Error { message } => assert_eq!(message, "disk I/O error"),
        other => panic!("{other:?}"),
    }
    assert!(payloads.is_none());
    assert!(!suppress.should_suppress_at("hash 0", Moment { nanos: 0 }));
}

#[test]
fn answer_without_entry_leaves_the_wait_alone() {
    let mut db = history(1);
    let mut suppress = SuppressState::default();
    suppress.arm_at("x".to_string(), Moment { nanos: 0 });
    let reply = dispatch(Request::Ping, &mut db);
    let (response, payloads) = settle_at(reply, Ok(()), &mut suppress, Moment { nanos: 9 });
    assert!(matches!(response, Response::Pong));
    assert!(payloads.is_none());
    assert!(suppress.should_suppress_at("x", Moment { nanos: 5_000_000_000 }));
}

fn capture(payloads: &[(String, Vec<u8>)]) -> Capture {
    let mut c = Capture::new();
    for (mime, data) in payloads {
        assert!(c.add(mime.clone(), data.clone()));
    }
    c
}

#[test]
fn restored_entry_is_not_recorded_again() {
    let mut db = history(0);
    let mut suppress = SuppressState::default();
    let offered = vec![
        ("x-special/gnome-copied-files".to_string(), b"copy\nfile:///a".to_vec()),
        ("text/uri-list".to_string(), b"file:///a".to_vec()),
        ("text/plain".to_string(), b"/a".to_vec()),
    ];
    process_ready_at(capture(&offered), &mut db, &mut suppress, at(0), Moment { nanos: 0 });
    let reply = dispatch_at(Request::Restore { id: 1 }, &mut db, at(60));
    let (_, payloads) = settle_at(reply, Ok(()), &mut suppress, Moment { nanos: 10 });
    let mut restored = payloads.unwrap();
    let mut expected = offered.clone();
    expected.sort();
    assert_eq!(restored, expected);

    restored.reverse();
    let seen = process_ready_at(
        capture(&restored),
        &mut db,
        &mut suppress,
        at(61),
        Moment { nanos: 20 },
    );
    assert!(matches!(seen, Outcome::Suppressed { .. }));
    assert_eq!(db.list_at(10, at(0))[0].last_used_at, at(60));

    let again = process_ready_at(
        capture(&restored),
        &mut db,
        &mut suppress,
        at(62),
        Moment { nanos: 30 },
    );
    match again {
        Outcome::Stored { id, kind, label } => {
            assert_eq!((id, kind, label.as_str()), (1, EntryKind::File, "a"));
        }
        other => panic!("{other:?}"),
    }
    assert_eq!(db.list_at(10, at(0)).len(), 1);
}

#[test]
fn restored_entry_with_an_outdated_hash_is_not_recorded_again() {
    let payloads = vec![("image/png".to_string(), vec![0, 1])];
    let t = Some("2024-01-01T00:00:00+00:00".to_string());
    let row = StoredRow {
        id: 1,
        hash: hex::encode(sha2::Sha256::digest(b"image/png\0\0\x01\0")),
        kind: "image".to_string(),
        label: "image".to_string(),
        preview: "image".to_string(),
        size: 2,
        created_at: t.clone(),
        last_used_at: t,
        timestamp: None,
        payloads: payloads.clone(),
    };
    let tables = StoredTables { columns: Vec::new(), rows: vec![row], last_id: 1 };
    let mut db = Database::open(None, tables, String::new()).unwrap();
    let mut suppress = SuppressState::default();
    let reply = dispatch_at(Request::Restore { id: 1 }, &mut db, at(0));
    settle_at(reply, Ok(()), &mut suppress, Moment { nanos: 0 });
    let seen = process_ready_at(
        capture(&payloads),
        &mut db,
        &mut suppress,
        at(1),
        Moment { nanos: 1 },
    );
    assert!(matches!(seen, Outcome::Suppressed { .. }));
    assert_eq!(db.list_at(10, at(0)).len(), 1);
}
