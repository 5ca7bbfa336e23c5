//! What holds of the history, whatever is done with it.
use vstd::prelude::*;

use crate::db::{
    after_insert, current_hashes, entry_of, filled_created_at, filled_last_used_at, filled_row,
    filled_rows, insert_result, is_free, lemma_adopting_sound, lemma_all_kept, listing, mimes_of,
    new_row, payloads_of, readdressed, sound, stores_moment, DatabaseView, DbError, NewEntryView,
    StoredRow,
};
use crate::hash::{
    hash_input, hash_text, is_outdated_hash, law_hash_separates, lemma_same_unescaped_hash,
};
use crate::order::views;
use crate::outside::{is_plain_moment, moment_before, rfc3339_text};
use crate::rows::{
    hashes_differ, id_with_hash, ids_ascend, kept, lemma_hash_absent, lemma_hash_at,
    lemma_newer_order, lemma_newest_first_exists, lemma_row_absent, lemma_row_at, lemma_row_found,
    lemma_without_absent_id, lemma_without_id_at, newer, newest, newest_first, row_with_id,
    touched, without_id, RowView,
};
use crate::text::text_before;
use crate::types::{law_kind_name_roundtrip, EntryView};

verus! {

// ---------------------------------------------------------------------------
// Keeping the most recently used rows
// ---------------------------------------------------------------------------

proof fn lemma_filtered_rows(rows: Seq<RowView>, keep: spec_fn(RowView) -> bool)
    ensures
        forall|r: RowView| #[trigger]
            rows.filter(keep).contains(r) <==> rows.contains(r) && keep(r),
        ids_ascend(rows) ==> ids_ascend(rows.filter(keep)),
        hashes_differ(rows) ==> hashes_differ(rows.filter(keep)),
    decreases rows.len(),
{
    reveal(Seq::filter);
    let f = rows.filter(keep);
    if rows.len() > 0 {
        let (head, last) = (rows.drop_last(), rows.last());
        let g = head.filter(keep);
        lemma_filtered_rows(head, keep);
        assert forall|r: RowView| rows.contains(r) <==> #[trigger] head.contains(r) || r == last by {
            if rows.contains(r) {
                let i = choose|i: int| 0 <= i < rows.len() && rows[i] == r;
                if i < head.len() {
                    assert(head[i] == r);
                }
            }
            if head.contains(r) {
                let i = choose|i: int| 0 <= i < head.len() && head[i] == r;
                assert(rows[i] == r);
            }
            assert(rows[rows.len() - 1] == last);
        }
        assert forall|r: RowView| #[trigger] f.contains(r) <==> rows.contains(r) && keep(r) by {
            assert(head.contains(r) || !head.contains(r));
            if keep(last) {
                assert(f == g.push(last));
                if g.contains(r) {
                    let i = choose|i: int| 0 <= i < g.len() && g[i] == r;
                    assert(f[i] == r);
                }
                assert(f[g.len() as int] == last);
                if f.contains(r) && r != last {
                    let i = choose|i: int| 0 <= i < f.len() && f[i] == r;
                    assert(g[i] == r);
                }
            } else {
                assert(f == g);
            }
        }
        if keep(last) {
            assert(f == g.push(last));
            assert forall|i: int| 0 <= i < g.len() implies head.contains(#[trigger] g[i]) by {
                assert(g.contains(g[i]));
            }
            if ids_ascend(rows) {
                assert(ids_ascend(head));
                assert forall|i: int, j: int| 0 <= i < j < f.len() implies f[i].id < f[j].id by {
                    if j == g.len() {
                        assert(head.contains(g[i]));
                        let k = choose|k: int| 0 <= k < head.len() && head[k] == g[i];
                        assert(rows[k].id < rows[rows.len() - 1].id);
                    }
                }
            }
            if hashes_differ(rows) {
                assert(hashes_differ(head));
                assert forall|i: int, j: int| 0 <= i < j < f.len() implies f[i].hash != f[j].hash by {
                    if j == g.len() {
                        assert(head.contains(g[i]));
                        let k = choose|k: int| 0 <= k < head.len() && head[k] == g[i];
                        assert(rows[k].hash != rows[rows.len() - 1].hash);
                    }
                }
            }
        } else {
            assert(f == g);
            if ids_ascend(rows) {
                assert(ids_ascend(head));
            }
            if hashes_differ(rows) {
                assert(hashes_differ(head));
            }
        }
    } else {
        assert(f.len() == 0);
    }
}

/// Rows with ascending ids are different.
proof fn lemma_rows_differ(rows: Seq<RowView>)
    requires
        ids_ascend(rows),
    ensures
        rows.no_duplicates(),
{
    assert forall|i: int, j: int| 0 <= i < rows.len() && 0 <= j < rows.len() && i != j implies rows[i]
        != rows[j] by {
        if i < j {
            assert(rows[i].id < rows[j].id);
        } else {
            assert(rows[j].id < rows[i].id);
        }
    }
}

/// Only so many rows are kept, and no row that is dropped was used later than one that is kept.
pub proof fn law_oldest_are_dropped(rows: Seq<RowView>, n: nat)
    requires
        ids_ascend(rows),
    ensures
        kept(rows, n).len() == (if n < rows.len() {
            n
        } else {
            rows.len()
        }),
        forall|r: RowView| #[trigger] kept(rows, n).contains(r) <==> newest(rows, n).contains(r),
        forall|r: RowView, dropped: RowView|
            kept(rows, n).contains(r) && rows.contains(dropped) && !kept(rows, n).contains(dropped)
                ==> #[trigger] newer(r, dropped),
        ids_ascend(kept(rows, n)),
        hashes_differ(rows) ==> hashes_differ(kept(rows, n)),
{
    let (all, first, k) = (newest_first(rows), newest(rows, n), kept(rows, n));
    let keep = |r: RowView| first.contains(r);
    lemma_newest_first_exists(rows);
    lemma_filtered_rows(rows, keep);
    assert forall|r: RowView| #[trigger] first.contains(r) implies all.contains(r) by {
        let i = choose|i: int| 0 <= i < first.len() && first[i] == r;
        assert(all[i] == r);
    }
    assert forall|r: RowView| #[trigger] k.contains(r) <==> first.contains(r) by {
        if first.contains(r) {
            assert(all.contains(r));
        }
    }
    assert(first.no_duplicates()) by {
        assert forall|i: int, j: int|
            0 <= i < first.len() && 0 <= j < first.len() && i != j implies first[i] != first[j] by {
            if i < j {
                assert(newer(all[i], all[j]));
                lemma_newer_order(all[i], all[j], all[i]);
            } else {
                assert(newer(all[j], all[i]));
                lemma_newer_order(all[i], all[j], all[i]);
            }
        }
    }
    lemma_rows_differ(k);
    assert(k.to_set() =~= first.to_set()) by {
        assert forall|r: RowView| #[trigger] k.to_set().contains(r) <==> first.to_set().contains(
            r,
        ) by {
            assert(k.contains(r) <==> first.contains(r));
        }
    }
    k.unique_seq_to_set();
    first.unique_seq_to_set();
    assert forall|r: RowView, dropped: RowView|
        k.contains(r) && rows.contains(dropped) && !k.contains(dropped) implies #[trigger] newer(
        r,
        dropped,
    ) by {
        assert(first.contains(r) && !first.contains(dropped));
        let i = choose|i: int| 0 <= i < first.len() && first[i] == r;
        assert(all.contains(dropped));
        let j = choose|j: int| 0 <= j < all.len() && all[j] == dropped;
        if j < first.len() {
            assert(first[j] == dropped);
        }
        assert(newer(all[i], all[j]));
    }
}

/// A row that comes before all others is listed first, and kept as long as any is.
proof fn lemma_first_row(rows: Seq<RowView>, x: RowView, n: nat)
    requires
        ids_ascend(rows),
        rows.contains(x),
        forall|r: RowView| #[trigger] rows.contains(r) && r != x ==> newer(x, r),
    ensures
        newest_first(rows)[0] == x,
        n > 0 ==> newest(rows, n).contains(x),
{
    lemma_newest_first_exists(rows);
    let all = newest_first(rows);
    assert(all.contains(x));
    let i = choose|i: int| 0 <= i < all.len() && all[i] == x;
    if i > 0 {
        assert(all.contains(all[0]));
        assert(newer(all[0], all[i]));
        lemma_newer_order(all[0], x, all[0]);
        assert(rows.contains(all[0]));
    }
    if n > 0 {
        assert(newest(rows, n)[0] == x);
    }
}

// ---------------------------------------------------------------------------
// Recording an entry
// ---------------------------------------------------------------------------

/// Recording an entry that is in the history adds nothing: its row keeps its id, the time of its
/// creation and its payloads, takes over what describes the entry and counts as used; all other
/// rows stay as they are.
pub proof fn law_known_entry_is_refreshed(
    db: DatabaseView,
    entry: NewEntryView,
    stamp: Seq<char>,
    k: int,
)
    requires
        sound(db),
        0 <= k < db.rows.len(),
        db.rows[k].hash == entry.hash,
    ensures
        insert_result(db, entry) == Ok::<i64, DbError>(db.rows[k].id),
        ({
            let after = after_insert(db, entry, stamp);
            &&& after.rows.len() == db.rows.len()
            &&& after.last_id == db.last_id
            &&& forall|i: int|
                0 <= i < db.rows.len() && i != k ==> #[trigger] after.rows[i] == db.rows[i]
            &&& after.rows[k] == (RowView {
                id: db.rows[k].id,
                created_at: db.rows[k].created_at,
                last_used_at: stamp,
                payloads: db.rows[k].payloads,
                ..new_row(entry, db.rows[k].id, stamp)
            })
        }),
{
    lemma_hash_at(db.rows, k);
    let after = after_insert(db, entry, stamp);
    assert forall|i: int| 0 <= i < db.rows.len() && i != k implies #[trigger] after.rows[i]
        == db.rows[i] by {
        if i < k {
            assert(db.rows[i].id < db.rows[k].id);
        } else {
            assert(db.rows[k].id < db.rows[i].id);
        }
    }
}

/// A new entry gets an id that no entry ever had, and the history holds no more entries than it
/// should: of the rows it had and the new one, those that were not used as late are dropped.
pub proof fn law_new_entry_is_added(db: DatabaseView, entry: NewEntryView, stamp: Seq<char>)
    requires
        sound(db),
        id_with_hash(db.rows, entry.hash) is None,
        db.last_id < i64::MAX,
    ensures
        ({
            let after = after_insert(db, entry, stamp);
            let id = (db.last_id + 1) as i64;
            let rows = db.rows.push(new_row(entry, id, stamp));
            &&& insert_result(db, entry) == Ok::<i64, DbError>(id)
            &&& forall|i: int| 0 <= i < db.rows.len() ==> #[trigger] db.rows[i].id < id
            &&& after.last_id == id
            &&& ids_ascend(rows)
            &&& after.rows == kept(rows, db.max_entries as nat)
            &&& after.rows.len() <= db.max_entries
            &&& db.rows.len() < db.max_entries ==> after.rows == rows
        }),
{
    let id = (db.last_id + 1) as i64;
    let row = new_row(entry, id, stamp);
    let rows = db.rows.push(row);
    lemma_added_row(db, row);
    law_oldest_are_dropped(rows, db.max_entries as nat);
    if db.rows.len() < db.max_entries {
        lemma_all_kept(rows, db.max_entries as nat);
    }
}

proof fn lemma_added_row(db: DatabaseView, row: RowView)
    requires
        sound(db),
        db.last_id < i64::MAX,
        row.id == db.last_id + 1,
        id_with_hash(db.rows, row.hash) is None,
    ensures
        ids_ascend(db.rows.push(row)),
        hashes_differ(db.rows.push(row)),
{
    let rows = db.rows.push(row);
    lemma_hash_absent(db.rows, row.hash);
    assert forall|i: int, j: int| 0 <= i < j < rows.len() implies rows[i].id < rows[j].id
        && rows[i].hash != rows[j].hash by {
        if j < db.rows.len() {
            assert(db.rows[i].id < db.rows[j].id && db.rows[i].hash != db.rows[j].hash);
        } else {
            assert(db.rows[i].id <= db.last_id);
        }
    }
}

/// What was recorded is read back: as long as a new entry is not dropped at once, its row is found
/// under its id, with exactly the payloads that were recorded.
pub proof fn law_read_back(db: DatabaseView, entry: NewEntryView, stamp: Seq<char>)
    requires
        sound(db),
        id_with_hash(db.rows, entry.hash) is None,
        db.last_id < i64::MAX,
        ({
            let row = new_row(entry, (db.last_id + 1) as i64, stamp);
            newest(db.rows.push(row), db.max_entries as nat).contains(row)
        }),
    ensures
        ({
            let id = (db.last_id + 1) as i64;
            let after = after_insert(db, entry, stamp);
            &&& row_with_id(after.rows, id) == Some(new_row(entry, id, stamp))
            &&& payloads_of(after.rows, id) == entry.payloads
            &&& id_with_hash(after.rows, entry.hash) == Some(id)
        }),
{
    let id = (db.last_id + 1) as i64;
    let row = new_row(entry, id, stamp);
    let rows = db.rows.push(row);
    let after = after_insert(db, entry, stamp);
    lemma_added_row(db, row);
    law_oldest_are_dropped(rows, db.max_entries as nat);
    assert(kept(rows, db.max_entries as nat).contains(row));
    let k = choose|k: int| 0 <= k < after.rows.len() && after.rows[k] == row;
    lemma_row_at(after.rows, k);
    lemma_hash_at(after.rows, k);
}

/// A new entry that is recorded later than all others were used is listed first, and not dropped
/// as long as any entry is kept.
pub proof fn law_latest_entry_is_kept(db: DatabaseView, entry: NewEntryView, stamp: Seq<char>)
    requires
        sound(db),
        id_with_hash(db.rows, entry.hash) is None,
        db.last_id < i64::MAX,
        db.max_entries > 0,
        forall|i: int|
            0 <= i < db.rows.len() ==> text_before(#[trigger] db.rows[i].last_used_at, stamp),
    ensures
        ({
            let row = new_row(entry, (db.last_id + 1) as i64, stamp);
            &&& newest(db.rows.push(row), db.max_entries as nat).contains(row)
            &&& newest_first(db.rows.push(row))[0] == row
        }),
{
    let row = new_row(entry, (db.last_id + 1) as i64, stamp);
    let rows = db.rows.push(row);
    lemma_added_row(db, row);
    assert(rows[db.rows.len() as int] == row);
    assert forall|r: RowView| #[trigger] rows.contains(r) && r != row implies newer(row, r) by {
        let i = choose|i: int| 0 <= i < rows.len() && rows[i] == r;
        assert(db.rows[i] == r);
    }
    lemma_first_row(rows, row, db.max_entries as nat);
}

// ---------------------------------------------------------------------------
// Listing
// ---------------------------------------------------------------------------

/// Of two moments in the years 0 to 9999, the later one is stored as the text that sorts later.
pub proof fn law_later_moment_sorts_later(earlier: (i64, u32), later: (i64, u32))
    requires
        is_plain_moment(earlier.0 as int, earlier.1 as int),
        is_plain_moment(later.0 as int, later.1 as int),
        moment_before(earlier.0 as int, earlier.1 as int, later.0 as int, later.1 as int),
        stores_moment(later),
    ensures
        text_before(rfc3339_text(earlier.0, earlier.1), rfc3339_text(later.0, later.1)),
{
}

/// An entry that is used later than all others were is listed first.
pub proof fn law_used_entry_lists_first(rows: Seq<RowView>, k: int, stamp: Seq<char>)
    requires
        ids_ascend(rows),
        0 <= k < rows.len(),
        forall|i: int|
            0 <= i < rows.len() && i != k ==> text_before(#[trigger] rows[i].last_used_at, stamp),
    ensures
        newest_first(touched(rows, rows[k].id, stamp))[0] == (RowView {
            last_used_at: stamp,
            ..rows[k]
        }),
{
    let after = touched(rows, rows[k].id, stamp);
    let x = RowView { last_used_at: stamp, ..rows[k] };
    assert forall|i: int, j: int| 0 <= i < j < after.len() implies after[i].id < after[j].id by {
        assert(rows[i].id < rows[j].id);
    }
    assert(after[k] == x);
    assert forall|r: RowView| #[trigger] after.contains(r) && r != x implies newer(x, r) by {
        let i = choose|i: int| 0 <= i < after.len() && after[i] == r;
        assert(i != k);
        if i < k {
            assert(rows[i].id < rows[k].id);
        } else {
            assert(rows[k].id < rows[i].id);
        }
        assert(after[i] == rows[i]);
    }
    lemma_first_row(after, x, 1);
}

/// A listing holds the entries that were used last, no more than asked for, the one used last
/// first.
pub proof fn law_listing_is_newest_first(rows: Seq<RowView>, limit: nat, now: (i64, u32))
    requires
        ids_ascend(rows),
    ensures
        ({
            let shown = newest(rows, limit);
            &&& listing(rows, limit, now).len() == shown.len()
            &&& shown.len() == (if limit < rows.len() {
                limit
            } else {
                rows.len()
            })
            &&& forall|i: int|
                0 <= i < shown.len() ==> listing(rows, limit, now)[i] == entry_of(
                    #[trigger] shown[i],
                    now,
                ) && rows.contains(shown[i])
            &&& forall|i: int, j: int|
                0 <= i < j < shown.len() ==> newer(#[trigger] shown[i], #[trigger] shown[j])
            &&& forall|i: int, r: RowView|
                0 <= i < shown.len() && #[trigger] rows.contains(r) && !shown.contains(r) ==> newer(
                    #[trigger] shown[i],
                    r,
                )
        }),
{
    lemma_newest_first_exists(rows);
    let all = newest_first(rows);
    let shown = newest(rows, limit);
    assert forall|i: int| 0 <= i < shown.len() implies listing(rows, limit, now)[i] == entry_of(
        #[trigger] shown[i],
        now,
    ) && rows.contains(shown[i]) by {
        assert(all.contains(all[i]));
    }
    assert forall|i: int, r: RowView|
        0 <= i < shown.len() && #[trigger] rows.contains(r) && !shown.contains(r) implies newer(
        #[trigger] shown[i],
        r,
    ) by {
        assert(all.contains(r));
        let j = choose|j: int| 0 <= j < all.len() && all[j] == r;
        if j < shown.len() {
            assert(shown[j] == r);
        }
        assert(newer(all[i], all[j]));
    }
}

/// A new entry is listed as it was recorded: with its hash, kind, label, preview, size and MIME
/// types, and the moment it was recorded at.
pub proof fn law_listed_as_recorded(entry: NewEntryView, id: i64, now: (i64, u32))
    requires
        stores_moment(entry.created_at),
    ensures
        entry_of(
            new_row(entry, id, rfc3339_text(entry.created_at.0, entry.created_at.1)),
            now,
        ) == (EntryView {
            id,
            hash: entry.hash,
            kind: entry.kind,
            label: entry.label,
            preview: entry.preview,
            size: entry.size,
            created_at: entry.created_at,
            last_used_at: entry.created_at,
            mime_types: mimes_of(entry.payloads),
        }),
{
    law_kind_name_roundtrip(entry.kind);
    let n = entry.size;
    assert((n as i64) as usize == n) by (bit_vector);
}

// ---------------------------------------------------------------------------
// Deleting
// ---------------------------------------------------------------------------

/// A deleted entry is gone, and all others stay.
pub proof fn law_deleted_entry_is_gone(rows: Seq<RowView>, id: i64)
    requires
        ids_ascend(rows),
    ensures
        row_with_id(without_id(rows, id), id) is None,
        forall|r: RowView| #[trigger]
            without_id(rows, id).contains(r) <==> rows.contains(r) && r.id != id,
        ids_ascend(without_id(rows, id)),
        row_with_id(rows, id) is Some ==> without_id(rows, id).len() == rows.len() - 1,
        row_with_id(rows, id) is None ==> without_id(rows, id) == rows,
{
    let after = without_id(rows, id);
    let keep = |r: RowView| r.id != id;
    lemma_filtered_rows(rows, keep);
    if row_with_id(after, id) is Some {
        let k = lemma_row_found(after, id);
        assert(after.contains(after[k]));
    }
    if row_with_id(rows, id) is Some {
        let k = lemma_row_found(rows, id);
        lemma_without_id_at(rows, k);
    } else {
        lemma_row_absent(rows, id);
        lemma_without_absent_id(rows, id);
    }
}

// ---------------------------------------------------------------------------
// Stored rows
// ---------------------------------------------------------------------------

/// Times that are stored are kept when a table is taken over.
pub proof fn law_stored_times_are_kept(row: StoredRow, has_timestamp: bool, now: Seq<char>)
    requires
        row.created_at is Some,
        row.last_used_at is Some,
    ensures
        filled_row(row, has_timestamp, now) == row@,
{
}

/// A row of a table that had only a `timestamp` column was created and last used at that time.
pub proof fn law_legacy_times_are_filled(row: StoredRow, now: Seq<char>)
    requires
        row.created_at is None,
        row.last_used_at is None,
        row.timestamp is Some,
    ensures
        filled_created_at(row, true, now) == row.timestamp->0@,
        filled_last_used_at(row, true, now) == row.timestamp->0@,
{
}

/// Taking over a table keeps everything of its rows but the hashes, and of these all but those of
/// rows that are kept under the digest of their unescaped frames.
pub proof fn law_other_hashes_stay(rows: Seq<RowView>, i: int)
    requires
        0 <= i < rows.len(),
    ensures
        readdressed(rows).len() == rows.len(),
        readdressed(rows)[i] == (RowView { hash: readdressed(rows)[i].hash, ..rows[i] }),
        readdressed(rows)[i].hash == rows[i].hash || readdressed(rows)[i].hash == hash_text(
            rows[i].payloads,
        ),
        !is_outdated_hash(rows[i].hash, rows[i].payloads) || rows[i].hash == hash_text(
            rows[i].payloads,
        ) ==> readdressed(rows)[i] == rows[i],
{
}

/// An entry that is kept under the digest of its unescaped frames is found under its hash once the
/// table was taken over, unless another entry is kept under that hash, as long as SHA-256 does not
/// give two messages of entries the same digest though they differ.
pub proof fn law_outdated_hashes_are_replaced(rows: Seq<RowView>, k: int)
    requires
        ids_ascend(rows),
        hashes_differ(rows),
        0 <= k < rows.len(),
        is_outdated_hash(rows[k].hash, rows[k].payloads),
        forall|j: int|
            0 <= j < rows.len() && j != k ==> (#[trigger] rows[j]).hash != hash_text(
                rows[k].payloads,
            ),
        forall|j: int|
            0 <= j < rows.len() && hash_text((#[trigger] rows[j]).payloads) == hash_text(
                rows[k].payloads,
            ) ==> hash_input(rows[j].payloads) == hash_input(rows[k].payloads),
    ensures
        readdressed(rows)[k].hash == hash_text(rows[k].payloads),
        id_with_hash(readdressed(rows), hash_text(rows[k].payloads)) == Some(rows[k].id),
{
    let hashes = current_hashes(rows);
    assert(hashes[k] == Some(hash_text(rows[k].payloads)));
    assert forall|j: int| 0 <= j < rows.len() && j != k implies #[trigger] hashes[j]
        != hashes[k] by {
        if hashes[j] == hashes[k] {
            let (a, b) = (rows[j].payloads, rows[k].payloads);
            assert(is_outdated_hash(rows[j].hash, a));
            assert(hash_text(a) == hash_text(b));
            law_hash_separates(a, b);
            lemma_same_unescaped_hash(a, b);
            if j < k {
                assert(rows[j].hash != rows[k].hash);
            } else {
                assert(rows[k].hash != rows[j].hash);
            }
        }
    }
    assert(rows[k].hash != hash_text(rows[k].payloads) ==> is_free(rows, hashes, k));
    let after = readdressed(rows);
    lemma_adopting_sound(rows, hashes, rows.len() as int);
    assert(after.take(rows.len() as int) + rows.skip(rows.len() as int) =~= after);
    lemma_hash_at(after, k);
}

/// A table whose rows all have their times, none of them kept under the digest of its unescaped
/// frames instead of its hash, is taken over as it is, however often.
pub proof fn law_reopened_history_is_the_same(
    rows: Seq<StoredRow>,
    has_timestamp: bool,
    now: Seq<char>,
)
    requires
        forall|i: int|
            0 <= i < rows.len() ==> (#[trigger] rows[i]).created_at is Some
                && rows[i].last_used_at is Some,
        forall|i: int|
            0 <= i < rows.len() ==> !is_outdated_hash(
                (#[trigger] rows[i])@.hash,
                rows[i]@.payloads,
            ) || rows[i]@.hash == hash_text(rows[i]@.payloads),
    ensures
        readdressed(filled_rows(rows, has_timestamp, now)) == views(rows),
{
    assert forall|i: int| 0 <= i < rows.len() implies filled_rows(rows, has_timestamp, now)[i]
        == views(rows)[i] by {
        law_stored_times_are_kept(rows[i], has_timestamp, now);
    }
    assert(filled_rows(rows, has_timestamp, now) =~= views(rows));
    assert forall|i: int| 0 <= i < rows.len() implies readdressed(views(rows))[i]
        == views(rows)[i] by {
        assert(views(rows)[i] == rows[i]@);
        law_other_hashes_stay(views(rows), i);
    }
    assert(readdressed(views(rows)) =~= views(rows));
}

} // verus!
