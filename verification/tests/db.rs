use chrono::{DateTime, Duration, TimeZone, Utc};
use mimeclip::db::{
    encode_payloads, entries_column_exists, entry_from_row, migrate_entries_schema,
    read_max_entries, Database, DbError, NewEntry, StoredRow, StoredTables, DEFAULT_MAX_ENTRIES,
};
use mimeclip::hash::{current_hash, payload_hash};
use mimeclip::rows::{Change, EntryRow};
use mimeclip::time::Timestamp;
use mimeclip::types::EntryKind;
use sha2::Digest;

fn stamp(t: DateTime<Utc>) -> Timestamp {
    Timestamp::new(t.timestamp(), t.timestamp_subsec_nanos()).unwrap()
}

fn now_text() -> String {
    "2026-05-01T00:00:00.000Z".to_string()
}

fn columns(names: &[&str]) -> Vec<String> {
    names.iter().map(|n| n.to_string()).collect()
}

fn current_columns() -> Vec<String> {
    columns(&[
        "id",
        "hash",
        "kind",
        "label",
        "preview",
        "size",
        "created_at",
        "last_used_at",
    ])
}

fn legacy_columns() -> Vec<String> {
    columns(&["id", "hash", "kind", "label", "preview", "size", "timestamp"])
}

fn empty(setting: Option<&str>) -> Database {
    let tables = StoredTables {
        columns: current_columns(),
        rows: Vec::new(),
        last_id: 0,
    };
    Database::open(setting, tables, now_text()).expect("open test database")
}

fn add(db: &mut Database, hash: &str, secs: i64) -> i64 {
    let payloads = vec![("text/plain".to_string(), hash.as_bytes().to_vec())];
    db.insert(NewEntry {
        hash,
        kind: &EntryKind::Text,
        label: hash,
        preview: hash,
        size: hash.len(),
        created_at: Timestamp::new(secs, 0).unwrap(),
        payloads: &payloads,
    })
    .unwrap()
}

fn listed(db: &Database) -> Vec<String> {
    let entries = db.list_at(usize::MAX, Timestamp::new(0, 0).unwrap());
    entries.iter().map(|e| e.hash.clone()).collect()
}

#[test]
fn duplicate_hash_preserves_created_at_and_updates_last_used_at_for_all_entry_kinds() {
    let cases = [
        (
            EntryKind::Text,
            vec![("text/plain".to_string(), b"/tmp/example.txt".to_vec())],
        ),
        (
            EntryKind::File,
            vec![
                (
                    "x-special/gnome-copied-files".to_string(),
                    b"copy\nfile:///tmp/example.txt\n".to_vec(),
                ),
                (
                    "text/uri-list".to_string(),
                    b"file:///tmp/example.txt\n".to_vec(),
                ),
            ],
        ),
        (
            EntryKind::Image,
            vec![("image/png".to_string(), vec![0, 1, 2, 3])],
        ),
        (
            EntryKind::Uri,
            vec![(
                "text/uri-list".to_string(),
                b"https://example.com\n".to_vec(),
            )],
        ),
    ];

    for (kind, payloads) in cases {
        let mut db = empty(None);
        let first_ts = Utc.with_ymd_and_hms(2026, 1, 1, 12, 0, 0).unwrap();
        let second_ts = first_ts + Duration::seconds(30);
        let hash = format!("dedupe-{}", kind.label());

        let first_id = db
            .insert(NewEntry {
                hash: &hash,
                kind: &kind,
                label: "first label",
                preview: "first preview",
                size: payloads.iter().map(|(_, data)| data.len()).sum(),
                created_at: stamp(first_ts),
                payloads: &payloads,
            })
            .expect("insert first entry");

        let second_id = db
            .insert(NewEntry {
                hash: &hash,
                kind: &kind,
                label: "second label",
                preview: "second preview",
                size: payloads.iter().map(|(_, data)| data.len()).sum(),
                created_at: stamp(second_ts),
                payloads: &payloads,
            })
            .expect("insert duplicate entry");

        assert_eq!(first_id, second_id, "{}", kind.label());

        let entries = db.list(10);
        assert_eq!(entries.len(), 1, "{}", kind.label());
        assert_eq!(entries[0].id, first_id, "{}", kind.label());
        assert_eq!(entries[0].hash, hash, "{}", kind.label());
        assert_eq!(entries[0].kind, kind, "{}", kind.label());
        assert_eq!(entries[0].label, "second label", "{}", kind.label());
        assert_eq!(entries[0].preview, "second preview", "{}", kind.label());
        assert_eq!(entries[0].created_at, stamp(first_ts), "{}", kind.label());
        assert_eq!(
            entries[0].last_used_at,
            stamp(second_ts),
            "{}",
            kind.label()
        );
    }
}

#[test]
fn opening_legacy_database_backfills_created_and_last_used_timestamps() {
    let legacy_ts = Utc.with_ymd_and_hms(2026, 4, 29, 18, 30, 0).unwrap();
    let tables = StoredTables {
        columns: legacy_columns(),
        rows: vec![StoredRow {
            id: 1,
            hash: "legacy-hash".to_string(),
            kind: "image".to_string(),
            label: "PNG 1920x1080".to_string(),
            preview: "PNG 1920x1080".to_string(),
            size: 123_i64,
            created_at: None,
            last_used_at: None,
            timestamp: Some(legacy_ts.to_rfc3339()),
            payloads: vec![("image/png".to_string(), vec![0_u8, 1, 2, 3])],
        }],
        last_id: 1,
    };

    let mut db = Database::open(None, tables, now_text()).expect("open migrated database");
    let entries = db.list(10);
    assert_eq!(entries.len(), 1);
    assert_eq!(entries[0].created_at, stamp(legacy_ts));
    assert_eq!(entries[0].last_used_at, stamp(legacy_ts));

    let changes = db.take_changes();
    assert_eq!(changes.len(), 1);
    match &changes[0] {
        Change::Backfill {
            id,
            created_at,
            last_used_at,
        } => {
            assert_eq!(*id, 1);
            assert_eq!(*created_at, legacy_ts.to_rfc3339());
            assert_eq!(*last_used_at, legacy_ts.to_rfc3339());
        }
        other => panic!("{other:?}"),
    }
    assert!(db.take_changes().is_empty());
}

#[test]
fn legacy_database_keeps_accepting_new_inserts_after_migration() {
    let tables = StoredTables {
        columns: legacy_columns(),
        rows: Vec::new(),
        last_id: 0,
    };
    let mut db = Database::open(None, tables, now_text()).expect("open migrated database");
    let created_at = Utc.with_ymd_and_hms(2026, 4, 29, 19, 40, 0).unwrap();

    db.insert(NewEntry {
        hash: "legacy-new-hash",
        kind: &EntryKind::Image,
        label: "PNG 1920x1080",
        preview: "PNG 1920x1080",
        size: 4,
        created_at: stamp(created_at),
        payloads: &[("image/png".to_string(), vec![0_u8, 1, 2, 3])],
    })
    .expect("insert into migrated legacy database");

    let entries = db.list(10);
    assert_eq!(entries.len(), 1);
    assert_eq!(entries[0].created_at, stamp(created_at));
    assert_eq!(entries[0].last_used_at, stamp(created_at));

    match db.take_changes().pop() {
        Some(Change::Insert { row, timestamp }) => {
            assert_eq!(row.hash, "legacy-new-hash");
            assert_eq!(timestamp, Some(created_at.to_rfc3339()));
        }
        other => panic!("{other:?}"),
    }
}

#[test]
fn new_table_is_written_without_timestamp() {
    let mut db = empty(None);
    add(&mut db, "a", 10);
    let changes = db.take_changes();
    assert_eq!(changes.len(), 1);
    match &changes[0] {
        Change::Insert { row, timestamp } => {
            assert_eq!(row.id, 1);
            assert_eq!(row.kind, "text");
            assert_eq!(row.size, 1);
            assert_eq!(row.created_at, "1970-01-01T00:00:10+00:00");
            assert_eq!(row.last_used_at, "1970-01-01T00:00:10+00:00");
            assert_eq!(row.payloads, vec![("text/plain".to_string(), b"a".to_vec())]);
            assert_eq!(*timestamp, None);
        }
        other => panic!("{other:?}"),
    }
}

fn stored(id: i64, hash: &str, created: Option<&str>, used: Option<&str>) -> StoredRow {
    StoredRow {
        id,
        hash: hash.to_string(),
        kind: "text".to_string(),
        label: String::new(),
        preview: String::new(),
        size: 0,
        created_at: created.map(|t| t.to_string()),
        last_used_at: used.map(|t| t.to_string()),
        timestamp: Some("2020-01-01T00:00:00+00:00".to_string()),
        payloads: Vec::new(),
    }
}

#[test]
fn missing_times_are_filled_in() {
    let t = "2024-01-01T00:00:00+00:00";
    let rows = vec![
        stored(1, "a", None, None),
        stored(2, "b", Some(t), None),
        stored(3, "c", None, Some(t)),
        stored(4, "d", Some(t), Some(t)),
    ];
    let tables = StoredTables {
        columns: current_columns(),
        rows,
        last_id: 4,
    };
    let mut db = Database::open(None, tables, now_text()).unwrap();
    let mut filled: Vec<(i64, String, String)> = Vec::new();
    for change in db.take_changes() {
        match change {
            Change::Backfill {
                id,
                created_at,
                last_used_at,
            } => filled.push((id, created_at, last_used_at)),
            other => panic!("{other:?}"),
        }
    }
    filled.sort();
    assert_eq!(
        filled,
        vec![
            (1, now_text(), now_text()),
            (2, t.to_string(), t.to_string()),
            (3, now_text(), t.to_string()),
        ]
    );
}

#[test]
fn legacy_times_come_before_the_time_of_creation() {
    let t = "2024-01-01T00:00:00+00:00";
    let mut all = current_columns();
    all.push("timestamp".to_string());
    let tables = StoredTables {
        columns: all,
        rows: vec![stored(1, "a", Some(t), None)],
        last_id: 1,
    };
    let db = Database::open(None, tables, now_text()).unwrap();
    let entries = db.list_at(1, Timestamp::new(0, 0).unwrap());
    assert_eq!(Some(entries[0].created_at), Timestamp::parse(t));
    assert_eq!(
        Some(entries[0].last_used_at),
        Timestamp::parse("2020-01-01T00:00:00+00:00")
    );
}

#[test]
fn unsound_tables_are_refused() {
    let t = Some("2024-01-01T00:00:00+00:00");
    let cases = [
        vec![stored(1, "a", t, t), stored(1, "b", t, t)],
        vec![stored(2, "a", t, t), stored(1, "b", t, t)],
        vec![stored(1, "a", t, t), stored(2, "a", t, t)],
    ];
    for rows in cases {
        let tables = StoredTables {
            columns: current_columns(),
            rows,
            last_id: 2,
        };
        match Database::open(None, tables, now_text()) {
            Err(e) => {
                assert_eq!(e, DbError::Constraint);
                assert_eq!(e.message(), "constraint failed");
            }
            Ok(_) => panic!("opened"),
        }
    }
}

#[test]
fn schema_is_examined() {
    let legacy = migrate_entries_schema(&legacy_columns());
    assert!(legacy.add_created_at && legacy.add_last_used_at && legacy.has_timestamp);
    let current = migrate_entries_schema(&current_columns());
    assert!(!current.add_created_at && !current.add_last_used_at && !current.has_timestamp);
    assert!(entries_column_exists(&current_columns(), "hash"));
    assert!(!entries_column_exists(&current_columns(), "Hash"));
}

#[test]
fn number_of_entries_is_read() {
    assert_eq!(DEFAULT_MAX_ENTRIES, 500);
    assert_eq!(read_max_entries(None), 500);
    assert_eq!(read_max_entries(Some("12")), 12);
    assert_eq!(read_max_entries(Some("+12")), 12);
    assert_eq!(read_max_entries(Some("0")), 0);
    for setting in ["", "+", "-1", " 1", "1e3", "99999999999999999999"] {
        assert_eq!(read_max_entries(Some(setting)), 500, "{setting:?}");
        assert!(setting.parse::<usize>().is_err());
    }
}

#[test]
fn entries_are_listed_newest_first() {
    let mut db = empty(None);
    add(&mut db, "a", 10);
    add(&mut db, "b", 30);
    add(&mut db, "c", 20);
    assert_eq!(listed(&db), vec!["b", "c", "a"]);
    let first = db.list_at(1, Timestamp::new(0, 0).unwrap());
    assert_eq!(first.len(), 1);
    assert_eq!(first[0].id, 2);
    assert_eq!(db.list_at(0, Timestamp::new(0, 0).unwrap()).len(), 0);
    db.touch_last_used_at(1, Timestamp::new(40, 0).unwrap());
    assert_eq!(listed(&db), vec!["a", "b", "c"]);
    db.touch_last_used(3);
    assert_eq!(listed(&db), vec!["c", "a", "b"]);
}

#[test]
fn touching_by_text_sets_the_text() {
    let mut db = empty(None);
    add(&mut db, "a", 10);
    db.touch_stamped(1, "later".to_string());
    let entries = db.list_at(1, Timestamp::new(77, 0).unwrap());
    assert_eq!(entries[0].created_at, Timestamp::new(10, 0).unwrap());
    assert_eq!(entries[0].last_used_at, Timestamp::new(77, 0).unwrap());
    db.take_changes();
    db.touch_stamped(9, "later".to_string());
    assert!(db.take_changes().is_empty());
}

#[test]
fn equally_recent_entries_are_listed_in_the_order_of_their_ids() {
    let mut db = empty(None);
    add(&mut db, "a", 10);
    add(&mut db, "b", 10);
    assert_eq!(listed(&db), vec!["a", "b"]);
}

#[test]
fn oldest_entries_are_dropped() {
    let mut db = empty(Some("2"));
    add(&mut db, "a", 10);
    add(&mut db, "b", 30);
    assert_eq!(add(&mut db, "c", 20), 3);
    assert_eq!(listed(&db), vec!["b", "c"]);
    assert_eq!(add(&mut db, "d", 5), 4);
    assert_eq!(listed(&db), vec!["b", "c"]);
    assert_eq!(db.get_hash(4), None);
    assert_eq!(add(&mut db, "e", 50), 5);
    assert_eq!(listed(&db), vec!["e", "b"]);
}

#[test]
fn nothing_is_kept_if_no_entries_are() {
    let mut db = empty(Some("0"));
    assert_eq!(add(&mut db, "a", 10), 1);
    assert!(listed(&db).is_empty());
}

#[test]
fn payloads_are_read_back() {
    let mut db = empty(None);
    let payloads = vec![
        ("text/plain".to_string(), b"hello".to_vec()),
        ("image/png".to_string(), vec![0, 255, 16]),
        ("a/b".to_string(), Vec::new()),
    ];
    let id = db
        .insert(NewEntry {
            hash: "h",
            kind: &EntryKind::Image,
            label: "l",
            preview: "p",
            size: 8,
            created_at: Timestamp::new(0, 0).unwrap(),
            payloads: &payloads,
        })
        .unwrap();
    assert_eq!(db.get_raw_payloads(id), payloads);
    assert_eq!(
        db.mime_types_for(id),
        vec!["text/plain", "image/png", "a/b"]
    );
    let decoded = db.get_payloads(id).unwrap();
    let texts: Vec<(&str, &str)> = decoded
        .iter()
        .map(|p| (p.mime_type.as_str(), p.data_b64.as_str()))
        .collect();
    assert_eq!(
        texts,
        vec![("text/plain", "aGVsbG8="), ("image/png", "AP8Q"), ("a/b", "")]
    );
    assert_eq!(db.get_hash(id), Some("h".to_string()));
    assert_eq!(db.find_by_hash("h"), Some(id));
    assert_eq!(db.find_by_hash("H"), None);
}

#[test]
fn base64_covers_the_alphabet() {
    let payloads = vec![
        ("a".to_string(), vec![0xfb, 0xef, 0xbe]),
        ("b".to_string(), vec![0xff]),
        ("c".to_string(), b"Man".to_vec()),
    ];
    let encoded = encode_payloads(&payloads).unwrap();
    let texts: Vec<&str> = encoded.iter().map(|p| p.data_b64.as_str()).collect();
    assert_eq!(texts, vec!["++++", "/w==", "TWFu"]);
}

#[test]
fn missing_entry_has_nothing() {
    let mut db = empty(None);
    assert_eq!(db.get_hash(1), None);
    assert!(db.get_raw_payloads(1).is_empty());
    assert!(db.get_payloads(1).unwrap().is_empty());
    assert!(db.mime_types_for(1).is_empty());
    assert!(!db.delete(1));
}

#[test]
fn deleted_entries_are_gone_and_ids_are_not_reused() {
    let mut db = empty(None);
    add(&mut db, "a", 10);
    add(&mut db, "b", 20);
    assert!(db.delete(2));
    assert!(!db.delete(2));
    assert_eq!(listed(&db), vec!["a"]);
    assert!(db.get_raw_payloads(2).is_empty());
    assert_eq!(add(&mut db, "b", 30), 3);
    assert_eq!(db.clear(), 2);
    assert_eq!(db.clear(), 0);
    assert!(listed(&db).is_empty());
    assert_eq!(add(&mut db, "a", 40), 4);
}

#[test]
fn last_id_is_taken_over() {
    let t = Some("2024-01-01T00:00:00+00:00");
    for (last_id, expected) in [(0, 8), (7, 8), (20, 21), (-5, 8)] {
        let tables = StoredTables {
            columns: current_columns(),
            rows: vec![stored(3, "a", t, t), stored(7, "b", t, t)],
            last_id,
        };
        let mut db = Database::open(None, tables, now_text()).unwrap();
        assert_eq!(add(&mut db, "c", 0), expected);
    }
}

#[test]
fn history_without_ids_left_is_full() {
    let tables = StoredTables {
        columns: current_columns(),
        rows: Vec::new(),
        last_id: i64::MAX,
    };
    let mut db = Database::open(None, tables, now_text()).unwrap();
    let r = db.insert(NewEntry {
        hash: "h",
        kind: &EntryKind::Text,
        label: "",
        preview: "",
        size: 0,
        created_at: Timestamp::new(0, 0).unwrap(),
        payloads: &[],
    });
    assert_eq!(r, Err(DbError::Full));
    assert_eq!(DbError::Full.message(), "database or disk is full");
    assert_eq!(DbError::TooLong.message(), "string or blob too big");
}

#[test]
fn changes_follow_the_operations() {
    let mut db = empty(Some("1"));
    add(&mut db, "a", 10);
    add(&mut db, "a", 15);
    add(&mut db, "b", 20);
    db.touch_last_used_at(2, Timestamp::new(30, 0).unwrap());
    db.delete(2);
    db.clear();
    let mut names = Vec::new();
    for change in db.take_changes() {
        names.push(match change {
            Change::Insert { row, .. } => format!("insert {}", row.id),
            Change::Refresh {
                id, last_used_at, ..
            } => format!("refresh {id} {last_used_at}"),
            Change::Touch { id, last_used_at } => format!("touch {id} {last_used_at}"),
            Change::Backfill { id, .. } => format!("backfill {id}"),
            Change::Rehash { id, .. } => format!("rehash {id}"),
            Change::Delete { id } => format!("delete {id}"),
            Change::Clear => "clear".to_string(),
        });
    }
    assert_eq!(
        names,
        vec![
            "insert 1",
            "refresh 1 1970-01-01T00:00:15+00:00",
            "insert 2",
            "delete 1",
            "touch 2 1970-01-01T00:00:30+00:00",
            "delete 2",
            "clear",
        ]
    );
}

#[test]
fn stamped_insert_stores_the_text() {
    let mut db = empty(None);
    let id = db
        .insert_stamped(
            NewEntry {
                hash: "h",
                kind: &EntryKind::Uri,
                label: "l",
                preview: "p",
                size: 3,
                created_at: Timestamp::new(0, 0).unwrap(),
                payloads: &[],
            },
            "2026-01-01T12:00:00Z".to_string(),
        )
        .unwrap();
    let entries = db.list_at(5, Timestamp::new(0, 0).unwrap());
    assert_eq!(entries[0].id, id);
    assert_eq!(entries[0].kind, EntryKind::Uri);
    assert_eq!(
        entries[0].created_at,
        Timestamp::new(1_767_268_800, 0).unwrap()
    );
}

#[test]
fn row_is_listed_with_its_moments() {
    let row = EntryRow {
        id: 5,
        hash: "h".to_string(),
        kind: "strange".to_string(),
        label: "l".to_string(),
        preview: "p".to_string(),
        size: 9,
        created_at: String::new(),
        last_used_at: String::new(),
        payloads: vec![("a/b".to_string(), vec![1])],
    };
    let (a, b) = (
        Timestamp::new(1, 2).unwrap(),
        Timestamp::new(3, 4).unwrap(),
    );
    let entry = entry_from_row(&row, a, b);
    assert_eq!((entry.id, entry.size), (5, 9));
    assert_eq!(entry.kind, EntryKind::Other);
    assert_eq!((entry.created_at, entry.last_used_at), (a, b));
    assert_eq!(entry.mime_types, vec!["a/b"]);
    assert_eq!(
        (entry.hash.as_str(), entry.label.as_str(), entry.preview.as_str()),
        ("h", "l", "p")
    );
}

#[test]
fn reopened_table_is_the_same() {
    let t = "2024-01-01T00:00:00+00:00";
    let later = "2025-01-01T00:00:00+00:00";
    for now in ["2026-01-01T00:00:00.000Z", "2027-01-01T00:00:00.000Z"] {
        let tables = StoredTables {
            columns: current_columns(),
            rows: vec![
                stored(1, "a", Some(t), Some(later)),
                stored(2, "b", Some(t), Some(t)),
            ],
            last_id: 2,
        };
        let mut db = Database::open(None, tables, now.to_string()).unwrap();
        assert!(db.take_changes().is_empty());
        assert_eq!(listed(&db), vec!["a", "b"]);
        let entries = db.list_at(1, Timestamp::new(0, 0).unwrap());
        assert_eq!(Some(entries[0].created_at), Timestamp::parse(t));
        assert_eq!(Some(entries[0].last_used_at), Timestamp::parse(later));
    }
}

#[test]
fn base64_tells_bytes_apart() {
    let mut samples: Vec<Vec<u8>> = vec![Vec::new()];
    for a in [0u8, 1, 16, 64, 255] {
        samples.push(vec![a]);
        for b in [0u8, 1, 255] {
            samples.push(vec![a, b]);
            samples.push(vec![a, b, 0]);
            samples.push(vec![a, b, 0, 0]);
        }
    }
    let payloads: Vec<(String, Vec<u8>)> =
        samples.iter().map(|s| ("a/b".to_string(), s.clone())).collect();
    let encoded = encode_payloads(&payloads).unwrap();
    for i in 0..encoded.len() {
        for j in 0..i {
            assert_ne!(encoded[i].data_b64, encoded[j].data_b64);
        }
    }
}

/// The SHA-256 digest of bytes, in hexadecimal notation.
fn digest(bytes: &[u8]) -> String {
    hex::encode(sha2::Sha256::digest(bytes))
}

fn stored_with(id: i64, hash: String, payloads: Vec<(String, Vec<u8>)>) -> StoredRow {
    let t = "2024-01-01T00:00:00+00:00";
    let mut row = stored(id, &hash, Some(t), Some(t));
    row.payloads = payloads;
    row
}

#[test]
fn entries_under_the_digest_of_unescaped_frames_get_their_hashes() {
    let image = vec![
        ("image/png".to_string(), vec![0x89, 0, 1]),
        ("image/bmp".to_string(), vec![7]),
    ];
    let text = vec![("text/plain".to_string(), b"x".to_vec())];
    let image_digest = digest(b"image/bmp\0\x07\0image/png\0\x89\0\x01\0");
    let text_digest = digest(b"text/plain\0x\0");
    assert_eq!(payload_hash(&text), text_digest);
    assert_ne!(payload_hash(&image), image_digest);
    assert_eq!(
        current_hash(&image_digest, &image),
        Some(payload_hash(&image))
    );
    assert_eq!(current_hash(&text_digest, &text), None);
    assert_eq!(current_hash("other", &image), None);

    let open = || {
        let tables = StoredTables {
            columns: current_columns(),
            rows: vec![
                stored_with(1, image_digest.clone(), image.clone()),
                stored_with(2, text_digest.clone(), text.clone()),
                stored_with(3, "other".to_string(), image.clone()),
            ],
            last_id: 3,
        };
        Database::open(None, tables, now_text()).unwrap()
    };
    let mut db = open();
    assert_eq!(db.get_hash(1), Some(payload_hash(&image)));
    assert_eq!(db.get_hash(2), Some(text_digest.clone()));
    assert_eq!(db.get_hash(3), Some("other".to_string()));
    assert_eq!(db.get_raw_payloads(1), image);
    let changes = db.take_changes();
    assert_eq!(changes.len(), 1);
    match &changes[0] {
        Change::Rehash { id, hash } => {
            assert_eq!((*id, hash.as_str()), (1, payload_hash(&image).as_str()));
        }
        other => panic!("{other:?}"),
    }

    let id = db
        .insert(NewEntry {
            hash: &payload_hash(&image),
            kind: &EntryKind::Image,
            label: "image",
            preview: "image",
            size: 4,
            created_at: Timestamp::new(2_000_000_000, 0).unwrap(),
            payloads: &image,
        })
        .unwrap();
    assert_eq!(id, 1);
    assert_eq!(db.list(10).len(), 3);
}

#[test]
fn a_hash_that_is_taken_is_not_given_to_another_entry() {
    let image = vec![("image/png".to_string(), vec![0])];
    let outdated = digest(b"image/png\0\0\0");
    let tables = StoredTables {
        columns: current_columns(),
        rows: vec![
            stored_with(1, outdated.clone(), image.clone()),
            stored_with(2, payload_hash(&image), image.clone()),
        ],
        last_id: 2,
    };
    let mut db = Database::open(None, tables, now_text()).unwrap();
    assert!(db.take_changes().is_empty());
    assert_eq!(db.get_hash(1), Some(outdated));
    assert_eq!(db.get_hash(2), Some(payload_hash(&image)));
}

#[test]
fn proposed_hashes_are_taken_over_where_they_are_free() {
    let mut db = empty(None);
    for (i, hash) in ["a", "b", "c", "d", "e"].iter().enumerate() {
        add(&mut db, hash, i as i64);
    }
    db.take_changes();
    let some = |h: &str| Some(h.to_string());
    db.adopt_hashes(&[some("x"), some("c"), None, some("y"), some("y")]);
    let hashes: Vec<Option<String>> = (1..6).map(|id| db.get_hash(id)).collect();
    assert_eq!(
        hashes,
        vec![some("x"), some("b"), some("c"), some("d"), some("e")]
    );
    assert_eq!(db.take_changes().len(), 1);
}
