use mimeclip::db::{Database, StoredTables};
use mimeclip::hash::{hash_message, payload_hash, try_payload_hash};
use mimeclip::payload::{normalize_payloads, should_skip};
use mimeclip::suppress::SuppressState;
use mimeclip::time::{Moment, Timestamp};
use mimeclip::types::EntryKind;
use mimeclip::watcher::{
    bind_global, process_hashed, process_ready, process_ready_at, store_labelled, Binding, Capture,
    Offers, Outcome, Selected, MAX_PAYLOAD_BYTES,
};

fn empty_history() -> Database {
    let tables = StoredTables { columns: Vec::new(), rows: Vec::new(), last_id: 0 };
    Database::open(None, tables, "2026-01-01T00:00:00.000Z".to_string()).unwrap()
}

fn at(secs: i64) -> Timestamp {
    Timestamp::new(1_767_268_800 + secs, 0).unwrap()
}

fn capture(payloads: &[(&str, &[u8])]) -> Capture {
    let mut c = Capture::new();
    for (mime, data) in payloads {
        assert!(c.add(mime.to_string(), data.to_vec()));
    }
    c
}

#[test]
fn duplicate_mime_names_hash_like_deduped_payloads() {
    let duplicated = vec![
        ("text/plain".to_string(), b"/tmp/example.txt".to_vec()),
        (
            "text/plain;charset=utf-8".to_string(),
            b"/tmp/example.txt".to_vec(),
        ),
        ("text/plain".to_string(), b"/tmp/example.txt".to_vec()),
        (
            "text/plain;charset=utf-8".to_string(),
            b"/tmp/example.txt".to_vec(),
        ),
    ];
    let deduped = vec![
        (
            "text/plain;charset=utf-8".to_string(),
            b"/tmp/example.txt".to_vec(),
        ),
        ("text/plain".to_string(), b"/tmp/example.txt".to_vec()),
    ];

    let normalized_duplicated = normalize_payloads(duplicated);
    let normalized_deduped = normalize_payloads(deduped);

    assert_eq!(normalized_duplicated, normalized_deduped);
    assert_eq!(
        payload_hash(&normalized_duplicated),
        payload_hash(&normalized_deduped)
    );
}

#[test]
fn duplicate_mime_names_with_different_bytes_normalize_deterministically() {
    let first_order = vec![
        ("text/plain".to_string(), b"beta".to_vec()),
        ("text/plain".to_string(), b"alpha".to_vec()),
    ];
    let second_order = vec![
        ("text/plain".to_string(), b"alpha".to_vec()),
        ("text/plain".to_string(), b"beta".to_vec()),
    ];

    let normalized_first = normalize_payloads(first_order);
    let normalized_second = normalize_payloads(second_order);

    assert_eq!(normalized_first, normalized_second);
    assert_eq!(normalized_first.len(), 1);
    assert_eq!(normalized_first[0].0, "text/plain");
    assert_eq!(normalized_first[0].1, b"alpha".to_vec());
    assert_eq!(
        payload_hash(&normalized_first),
        payload_hash(&normalized_second)
    );
}

#[test]
fn normal_form_is_sorted_by_type() {
    let normalized = normalize_payloads(vec![
        ("text/plain".to_string(), vec![1]),
        ("image/png".to_string(), vec![2]),
        ("text/html".to_string(), vec![3]),
        ("image/png".to_string(), vec![2, 0]),
    ]);
    assert_eq!(
        normalized,
        vec![
            ("image/png".to_string(), vec![2]),
            ("text/html".to_string(), vec![3]),
            ("text/plain".to_string(), vec![1]),
        ]
    );
    assert_eq!(normalize_payloads(normalized.clone()), normalized);
    assert_eq!(normalize_payloads(Vec::new()), Vec::new());
}

#[test]
fn hashed_message_is_framed_and_sorted() {
    let payloads = vec![
        ("b".to_string(), b"2".to_vec()),
        ("a".to_string(), b"1".to_vec()),
    ];
    assert_eq!(hash_message(&payloads), b"a\x001\x00b\x002\x00".to_vec());
    assert_eq!(hash_message(&[]), Vec::<u8>::new());
}

#[test]
fn hash_is_sha256_in_lower_case_hex() {
    assert_eq!(
        payload_hash(&[]),
        "e3b0c44298fc1c149afbf4c8996fb92427ae41e4649b934ca495991b7852b855"
    );
    let payloads = vec![("a".to_string(), b"1".to_vec())];
    let hash = payload_hash(&payloads);
    assert_eq!(hash.len(), 64);
    assert!(hash.bytes().all(|b| b.is_ascii_digit() || (b'a'..=b'f').contains(&b)));
    assert_eq!(
        try_payload_hash(&payloads).unwrap(),
        payload_hash(&payloads)
    );
    assert_ne!(
        payload_hash(&payloads),
        payload_hash(&[("a".to_string(), b"2".to_vec())])
    );
}

#[test]
fn hash_ignores_order() {
    let a = vec![
        ("text/plain".to_string(), b"x".to_vec()),
        ("text/uri-list".to_string(), b"file:///x".to_vec()),
    ];
    let b = vec![a[1].clone(), a[0].clone()];
    assert_eq!(payload_hash(&a), payload_hash(&b));
}

#[test]
fn file_and_path_have_different_hashes() {
    let path = vec![("text/plain".to_string(), b"/home/me/notes.txt".to_vec())];
    let mut file = path.clone();
    file.push((
        "text/uri-list".to_string(),
        b"file:///home/me/notes.txt".to_vec(),
    ));
    assert_ne!(payload_hash(&path), payload_hash(&file));
}

#[test]
fn a_payload_that_spells_out_others_has_a_message_of_its_own() {
    let one = vec![("a".to_string(), b"x\0b\0y".to_vec())];
    let two = vec![
        ("a".to_string(), b"x".to_vec()),
        ("b".to_string(), b"y".to_vec()),
    ];
    assert_ne!(hash_message(&one), hash_message(&two));
    assert_ne!(payload_hash(&one), payload_hash(&two));
}

#[test]
fn offers_with_nul_bytes_are_escaped_and_marked() {
    let payloads = vec![("a".to_string(), vec![0, 1, 2])];
    assert_eq!(
        hash_message(&payloads),
        vec![b'a', 0, 1, 2, 1, 1, 2, 0, 1]
    );
    let named = vec![("a\0b".to_string(), b"x".to_vec())];
    assert_eq!(
        hash_message(&named),
        vec![b'a', 1, 2, b'b', 0, b'x', 0, 1]
    );
}

#[test]
fn different_offers_have_different_messages() {
    let texts: [&[u8]; 10] = [
        b"", b"x", b"\0", b"\x01", b"\x01\x02", b"\x01\x01", b"x\0", b"\0x", b"x\0b", b"x\0b\0x",
    ];
    let mut messages: Vec<Vec<u8>> = Vec::new();
    for first in texts {
        messages.push(hash_message(&[("a".to_string(), first.to_vec())]));
        messages.push(hash_message(&[("a\0".to_string(), first.to_vec())]));
        for second in texts {
            messages.push(hash_message(&[
                ("a".to_string(), first.to_vec()),
                ("b".to_string(), second.to_vec()),
            ]));
        }
    }
    for i in 0..messages.len() {
        for j in 0..i {
            assert_ne!(messages[i], messages[j]);
        }
    }
}

#[test]
fn offers_that_spell_out_each_other_are_two_entries() {
    let mut db = empty_history();
    let mut suppress = SuppressState::default();
    let one = capture(&[("a", b"x\0b\0y")]);
    let two = capture(&[("a", b"x"), ("b", b"y")]);
    process_ready_at(one, &mut db, &mut suppress, at(0), Moment { nanos: 0 });
    match process_ready_at(two, &mut db, &mut suppress, at(1), Moment { nanos: 1 }) {
        Outcome::Stored { id, .. } => assert_eq!(id, 2),
        other => panic!("{other:?}"),
    }
    assert_eq!(
        db.get_raw_payloads(1),
        vec![("a".to_string(), b"x\0b\0y".to_vec())]
    );
    assert_eq!(
        db.get_raw_payloads(2),
        vec![
            ("a".to_string(), b"x".to_vec()),
            ("b".to_string(), b"y".to_vec()),
        ]
    );
}

#[test]
fn portal_types_are_skipped() {
    assert!(should_skip("application/vnd.portal.filetransfer"));
    assert!(should_skip("application/vnd.portal.files;x=1"));
    assert!(!should_skip("application/vnd.portal"));
    assert!(!should_skip("text/plain"));
}

#[test]
fn globals_are_bound_up_to_the_known_version() {
    assert_eq!(
        bind_global("zwlr_data_control_manager_v1", 3, false),
        Binding::Manager { version: 2 }
    );
    assert_eq!(
        bind_global("zwlr_data_control_manager_v1", 1, true),
        Binding::Manager { version: 1 }
    );
    assert_eq!(bind_global("wl_seat", 9, false), Binding::Seat { version: 7 });
    assert_eq!(bind_global("wl_seat", 5, false), Binding::Seat { version: 5 });
    assert_eq!(bind_global("wl_seat", 5, true), Binding::Ignored);
    assert_eq!(bind_global("wl_output", 4, false), Binding::Ignored);
}

#[test]
fn selected_offer_is_read_without_portal_types() {
    let mut offers = Offers::new();
    offers.data_offer(7);
    offers.data_offer(8);
    offers.offer(7, "text/plain".to_string());
    offers.offer(8, "image/png".to_string());
    offers.offer(7, "application/vnd.portal.files".to_string());
    offers.offer(7, "text/uri-list".to_string());
    offers.offer(9, "text/html".to_string());
    match offers.selection(Some(7)) {
        Selected::Ready { mime_types } => {
            assert_eq!(mime_types, vec!["text/plain", "text/uri-list"]);
        }
        other => panic!("{other:?}"),
    }
    assert!(matches!(offers.selection(Some(8)), Selected::Nothing));
}

#[test]
fn offer_without_recorded_types_is_dropped() {
    let mut offers = Offers::new();
    offers.data_offer(1);
    offers.offer(1, "application/vnd.portal.filetransfer".to_string());
    assert!(matches!(offers.selection(Some(1)), Selected::Dropped));
}

#[test]
fn announcing_an_offer_again_forgets_its_types() {
    let mut offers = Offers::new();
    offers.data_offer(1);
    offers.offer(1, "text/plain".to_string());
    offers.data_offer(1);
    assert!(matches!(offers.selection(Some(1)), Selected::Dropped));
}

#[test]
fn cleared_selection_forgets_all_offers() {
    let mut offers = Offers::new();
    offers.data_offer(1);
    offers.offer(1, "text/plain".to_string());
    assert!(matches!(offers.selection(None), Selected::Nothing));
    assert!(matches!(offers.selection(Some(1)), Selected::Nothing));
}

#[test]
fn offer_is_recorded() {
    let mut db = empty_history();
    let mut suppress = SuppressState::default();
    let c = capture(&[("text/plain", b"hello"), ("text/html", b"")]);
    match process_ready_at(c, &mut db, &mut suppress, at(0), Moment { nanos: 0 }) {
        Outcome::Stored { id, kind, label } => {
            assert_eq!(id, 1);
            assert_eq!(kind, EntryKind::Text);
            assert_eq!(label, "hello");
        }
        other => panic!("{other:?}"),
    }
    let entries = db.list_at(10, at(5));
    assert_eq!(entries.len(), 1);
    assert_eq!(entries[0].preview, "hello");
    assert_eq!(entries[0].size, 5);
    assert_eq!(entries[0].mime_types, vec!["text/plain"]);
    assert_eq!(entries[0].created_at, at(0));
    assert_eq!(
        entries[0].hash,
        payload_hash(&[("text/plain".to_string(), b"hello".to_vec())])
    );
}

#[test]
fn offer_read_twice_is_one_entry() {
    let mut db = empty_history();
    let mut suppress = SuppressState::default();
    let first = capture(&[("a/b", b"1"), ("text/plain", b"2")]);
    let second = capture(&[("text/plain", b"2"), ("a/b", b"1"), ("a/b", b"1")]);
    process_ready_at(first, &mut db, &mut suppress, at(0), Moment { nanos: 0 });
    match process_ready_at(second, &mut db, &mut suppress, at(9), Moment { nanos: 1 }) {
        Outcome::Stored { id, .. } => assert_eq!(id, 1),
        other => panic!("{other:?}"),
    }
    let entries = db.list_at(10, at(10));
    assert_eq!(entries.len(), 1);
    assert_eq!(entries[0].created_at, at(0));
    assert_eq!(entries[0].last_used_at, at(9));
}

#[test]
fn offer_without_bytes_is_not_recorded() {
    let mut db = empty_history();
    let mut suppress = SuppressState::default();
    let c = capture(&[("text/plain", b"")]);
    assert!(matches!(
        process_ready(c, &mut db, &mut suppress),
        Outcome::Empty
    ));
    assert_eq!(db.list_at(10, at(0)).len(), 0);
}

#[test]
fn offer_over_the_limit_is_not_recorded() {
    let mut db = empty_history();
    let mut suppress = SuppressState::default();
    let mut c = Capture::new();
    assert!(c.add("a/b".to_string(), vec![7; MAX_PAYLOAD_BYTES]));
    assert!(c.add("a/c".to_string(), Vec::new()));
    assert!(!c.add("a/d".to_string(), vec![7]));
    assert!(!c.add("a/e".to_string(), Vec::new()));
    assert!(matches!(
        process_ready(c, &mut db, &mut suppress),
        Outcome::TooLarge
    ));
    assert_eq!(db.list_at(10, at(0)).len(), 0);
}

#[test]
fn text_that_is_long_in_a_character_is_recorded() {
    let mut db = empty_history();
    let mut suppress = SuppressState::default();
    let mut text = "x".repeat(119);
    text.push('é');
    let c = capture(&[("text/plain", text.as_bytes())]);
    match process_ready(c, &mut db, &mut suppress) {
        Outcome::Stored { label, .. } => {
            assert_eq!(label, format!("{}…", "x".repeat(119)));
        }
        other => panic!("{other:?}"),
    }
    assert_eq!(
        db.get_raw_payloads(1),
        vec![("text/plain".to_string(), text.into_bytes())]
    );
}

#[test]
fn offer_is_recorded_now() {
    let mut db = empty_history();
    let mut suppress = SuppressState::default();
    let c = capture(&[("image/png", &[0, 1])]);
    match process_ready(c, &mut db, &mut suppress) {
        Outcome::Stored { id, kind, label } => {
            assert_eq!(id, 1);
            assert_eq!(kind, EntryKind::Image);
            assert_eq!(label, "image");
        }
        other => panic!("{other:?}"),
    }
    let entries = db.list(10);
    assert!(entries[0].created_at.secs() > 1_767_268_800);
}

#[test]
fn restored_hash_is_suppressed() {
    let mut db = empty_history();
    let mut suppress = SuppressState::default();
    let payloads = vec![("text/plain".to_string(), b"x".to_vec())];
    suppress.arm_at("h".to_string(), Moment { nanos: 0 });
    match process_hashed(
        "h".to_string(),
        &payloads,
        &mut db,
        &mut suppress,
        at(0),
        Moment { nanos: 5_000_000_000 },
    ) {
        Outcome::Suppressed { hash } => assert_eq!(hash, "h"),
        other => panic!("{other:?}"),
    }
    assert_eq!(db.list_at(10, at(0)).len(), 0);
    match process_hashed(
        "h".to_string(),
        &payloads,
        &mut db,
        &mut suppress,
        at(0),
        Moment { nanos: 5_000_000_000 },
    ) {
        Outcome::Stored { id, kind, label } => {
            assert_eq!((id, kind, label.as_str()), (1, EntryKind::Text, "x"));
        }
        other => panic!("{other:?}"),
    }
}

#[test]
fn entry_is_stored_under_its_hash_kind_and_label() {
    let mut db = empty_history();
    let payloads = vec![("a/b".to_string(), vec![1, 2, 3])];
    match store_labelled(
        "h".to_string(),
        EntryKind::Other,
        "binary".to_string(),
        &payloads,
        &mut db,
        at(3),
    ) {
        Outcome::Stored { id, kind, label } => {
            assert_eq!((id, kind, label.as_str()), (1, EntryKind::Other, "binary"));
        }
        other => panic!("{other:?}"),
    }
    assert_eq!(db.find_by_hash("h"), Some(1));
    assert_eq!(db.list_at(1, at(4))[0].size, 3);
}

#[test]
fn exhausted_ids_are_reported() {
    let tables = StoredTables { columns: Vec::new(), rows: Vec::new(), last_id: i64::MAX };
    let mut db = Database::open(None, tables, String::new()).unwrap();
    let mut suppress = SuppressState::default();
    match process_ready(capture(&[("a/b", b"x")]), &mut db, &mut suppress) {
        Outcome::Failed { error } => assert_eq!(error.message(), "database or disk is full"),
        other => panic!("{other:?}"),
    }
}
