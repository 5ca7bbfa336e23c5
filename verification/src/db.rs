//! The history table.
//!
//! The table is held in memory; each operation also notes what it changed, so that the same
//! changes can be written to disk.
use vstd::prelude::*;

use crate::hash::{current_hash, hash_text, is_outdated_hash};
use crate::order::{is_sorted_order, picked, sorted_order, views};
use crate::outside::{
    base64_encode, base64_len, base64_text, is_plain_moment, rfc3339_moment, rfc3339_text,
    sorts_after_earlier,
};
use crate::payload::PayloadView;
use crate::rows::{
    applied, applied_all, backfilled, copy_payloads, hashes_differ, id_with_hash, ids_ascend,
    is_newest_first, kept, lemma_applied_push, lemma_hash_absent, lemma_hash_found,
    lemma_newer_order, lemma_newest_first_exists, lemma_newest_first_unique, lemma_row_at,
    lemma_without_absent_id, lemma_without_id_at, newer, newest, newest_first, refreshed,
    refreshed_row, rehashed, row_with_id, touched, without_id, Change, ChangeView, EntryRow,
    Refreshed, RowView,
};
use crate::text::{parse_usize, parsed_usize, same_text};
use crate::time::Timestamp;
use crate::types::{
    kind_name, kind_named, parse_kind, Entry, EntryKind, EntryView, MimePayload,
};

verus! {

/// How many entries are kept unless another number is set.
pub const DEFAULT_MAX_ENTRIES: usize = 500;

/// Why an operation on the history failed.
#[derive(Debug, Clone, Copy, PartialEq, Eq, Structural)]
pub enum DbError {
    /// All ids have been given out.
    Full,
    /// A payload is too long to be written in Base64 notation.
    TooLong,
    /// Two stored rows have the same id or the same hash.
    Constraint,
}

/// How an error is reported.
pub open spec fn error_text(e: DbError) -> Seq<char> {
    match e {
        DbError::Full => "database or disk is full"@,
        DbError::TooLong => "string or blob too big"@,
        DbError::Constraint => "constraint failed"@,
    }
}

impl DbError {
    /// How the error is reported.
    pub fn message(&self) -> (r: &'static str)
        ensures
            r@ == error_text(*self),
    {
        match self {
            DbError::Full => "database or disk is full",
            DbError::TooLong => "string or blob too big",
            DbError::Constraint => "constraint failed",
        }
    }
}

/// An entry that is to be recorded.
pub struct NewEntry<'a> {
    pub hash: &'a str,
    pub kind: &'a EntryKind,
    pub label: &'a str,
    pub preview: &'a str,
    pub size: usize,
    pub created_at: Timestamp,
    pub payloads: &'a [(String, Vec<u8>)],
}

/// What an entry that is to be recorded is.
pub struct NewEntryView {
    pub hash: Seq<char>,
    pub kind: EntryKind,
    pub label: Seq<char>,
    pub preview: Seq<char>,
    pub size: usize,
    pub created_at: (i64, u32),
    pub payloads: Seq<PayloadView>,
}

impl<'a> View for NewEntry<'a> {
    type V = NewEntryView;

    open spec fn view(&self) -> NewEntryView {
        NewEntryView {
            hash: self.hash@,
            kind: *self.kind,
            label: self.label@,
            preview: self.preview@,
            size: self.size,
            created_at: self.created_at@,
            payloads: views(self.payloads@),
        }
    }
}

// ---------------------------------------------------------------------------
// What the operations do
// ---------------------------------------------------------------------------

/// What the history is: its rows in the order of their ids, the last id that was given out, how
/// many rows are kept, and whether the table on disk has a `timestamp` column.
pub struct DatabaseView {
    pub rows: Seq<RowView>,
    pub last_id: i64,
    pub max_entries: usize,
    pub has_legacy_timestamp: bool,
}

/// The row of a new entry.
pub open spec fn new_row(entry: NewEntryView, id: i64, stamp: Seq<char>) -> RowView {
    RowView {
        id,
        hash: entry.hash,
        kind: kind_name(entry.kind),
        label: entry.label,
        preview: entry.preview,
        size: entry.size as i64,
        created_at: stamp,
        last_used_at: stamp,
        payloads: entry.payloads,
    }
}

/// What changes in the row of an entry that is recorded again.
pub open spec fn refreshed_by(entry: NewEntryView, stamp: Seq<char>) -> Refreshed {
    Refreshed {
        kind: kind_name(entry.kind),
        label: entry.label,
        preview: entry.preview,
        size: entry.size as i64,
        last_used_at: stamp,
    }
}

/// What recording an entry returns: the id of the row with its hash, or a new id.
pub open spec fn insert_result(db: DatabaseView, entry: NewEntryView) -> Result<i64, DbError> {
    match id_with_hash(db.rows, entry.hash) {
        Some(id) => Ok(id),
        None => if db.last_id == i64::MAX {
            Err(DbError::Full)
        } else {
            Ok((db.last_id + 1) as i64)
        },
    }
}

/// The history after an entry was recorded at the moment `stamp`. A row with the same hash is
/// refreshed; otherwise a row is added, and the rows that are not among the most recently used
/// ones are dropped.
pub open spec fn after_insert(
    db: DatabaseView,
    entry: NewEntryView,
    stamp: Seq<char>,
) -> DatabaseView {
    match id_with_hash(db.rows, entry.hash) {
        Some(id) => DatabaseView {
            rows: refreshed(db.rows, id, refreshed_by(entry, stamp)),
            ..db
        },
        None => if db.last_id == i64::MAX {
            db
        } else {
            let id = (db.last_id + 1) as i64;
            DatabaseView {
                rows: kept(db.rows.push(new_row(entry, id, stamp)), db.max_entries as nat),
                last_id: id,
                ..db
            }
        },
    }
}

/// The moment that a stored text stands for, or `now` if it stands for none.
pub open spec fn moment_or(text: Seq<char>, now: (i64, u32)) -> (i64, u32) {
    match rfc3339_moment(text) {
        Some(moment) => moment,
        None => now,
    }
}

/// The MIME types of payloads.
pub open spec fn mimes_of(payloads: Seq<PayloadView>) -> Seq<Seq<char>> {
    payloads.map_values(|p: PayloadView| p.0)
}

/// How a row is listed, given the moments its texts stand for.
pub open spec fn entry_at(
    row: RowView,
    created_at: (i64, u32),
    last_used_at: (i64, u32),
) -> EntryView {
    EntryView {
        id: row.id,
        hash: row.hash,
        kind: kind_named(row.kind),
        label: row.label,
        preview: row.preview,
        size: row.size as usize,
        created_at,
        last_used_at,
        mime_types: mimes_of(row.payloads),
    }
}

/// How a row is listed at the moment `now`.
pub open spec fn entry_of(row: RowView, now: (i64, u32)) -> EntryView {
    entry_at(row, moment_or(row.created_at, now), moment_or(row.last_used_at, now))
}

/// The listing of the `limit` most recently used rows at the moment `now`.
pub open spec fn listing(rows: Seq<RowView>, limit: nat, now: (i64, u32)) -> Seq<EntryView> {
    newest(rows, limit).map_values(|r: RowView| entry_of(r, now))
}

/// The payloads of the row with an id; none if there is no such row.
pub open spec fn payloads_of(rows: Seq<RowView>, id: i64) -> Seq<PayloadView> {
    match row_with_id(rows, id) {
        Some(row) => row.payloads,
        None => Seq::empty(),
    }
}

/// Payloads with their bytes in Base64 notation.
pub open spec fn in_base64(payloads: Seq<PayloadView>) -> Seq<(Seq<char>, Seq<char>)> {
    payloads.map_values(|p: PayloadView| (p.0, base64_text(p.1)))
}

/// Whether all payloads are short enough to be written in Base64 notation.
pub open spec fn fit_base64(payloads: Seq<PayloadView>) -> bool {
    forall|i: int|
        0 <= i < payloads.len() ==> base64_len(#[trigger] payloads[i].1.len()) <= isize::MAX
}

/// Whether the text a moment is stored as stands for that moment and, in the years 0 to 9999, comes
/// after the texts of all earlier ones.
pub open spec fn stores_moment(moment: (i64, u32)) -> bool {
    let text = rfc3339_text(moment.0, moment.1);
    &&& rfc3339_moment(text) == Some(moment)
    &&& is_plain_moment(moment.0 as int, moment.1 as int) ==> sorts_after_earlier(
        moment.0,
        moment.1,
        text,
    )
}

// ---------------------------------------------------------------------------
// Tables on disk
// ---------------------------------------------------------------------------

/// A row as it is stored on disk. A column that the table lacks, or that holds nothing, is `None`.
#[derive(Debug)]
pub struct StoredRow {
    pub id: i64,
    pub hash: String,
    pub kind: String,
    pub label: String,
    pub preview: String,
    pub size: i64,
    pub created_at: Option<String>,
    pub last_used_at: Option<String>,
    pub timestamp: Option<String>,
    pub payloads: Vec<(String, Vec<u8>)>,
}

/// A text column.
pub open spec fn column(text: Option<String>) -> Option<Seq<char>> {
    match text {
        Some(t) => Some(t@),
        None => None,
    }
}

/// The text of a column, nothing counting as the empty text.
pub open spec fn column_or_empty(text: Option<String>) -> Seq<char> {
    match text {
        Some(t) => t@,
        None => Seq::empty(),
    }
}

impl View for StoredRow {
    type V = RowView;

    /// The row, with the empty text in place of times that are missing.
    open spec fn view(&self) -> RowView {
        RowView {
            id: self.id,
            hash: self.hash@,
            kind: self.kind@,
            label: self.label@,
            preview: self.preview@,
            size: self.size,
            created_at: column_or_empty(self.created_at),
            last_used_at: column_or_empty(self.last_used_at),
            payloads: views(self.payloads@),
        }
    }
}

/// The columns and rows of the table on disk, the rows in the order of their ids, and the last id
/// that was given out.
#[derive(Debug)]
pub struct StoredTables {
    pub columns: Vec<String>,
    pub rows: Vec<StoredRow>,
    pub last_id: i64,
}

/// What the table on disk lacks.
#[derive(Debug, Clone, Copy, PartialEq, Eq, Structural)]
pub struct SchemaPlan {
    pub add_created_at: bool,
    pub add_last_used_at: bool,
    /// Whether there is a `timestamp` column to fill the others from.
    pub has_timestamp: bool,
}

/// Tells whether the table on disk has a column.
pub fn entries_column_exists(columns: &[String], column_name: &str) -> (r: bool)
    ensures
        r == views(columns@).contains(column_name@),
{
    let ghost names = views(columns@);
    let mut i: usize = 0;
    while i < columns.len()
        invariant
            names == views(columns@),
            i <= columns@.len(),
            forall|k: int| 0 <= k < i ==> names[k] != column_name@,
        decreases columns@.len() - i,
    {
        assert(names[i as int] == columns@[i as int]@);
        if same_text(columns[i].as_str(), column_name) {
            return true;
        }
        i += 1;
    }
    false
}

/// Finds out what the table on disk lacks.
pub fn migrate_entries_schema(columns: &[String]) -> (plan: SchemaPlan)
    ensures
        plan.add_created_at == !views(columns@).contains("created_at"@),
        plan.add_last_used_at == !views(columns@).contains("last_used_at"@),
        plan.has_timestamp == views(columns@).contains("timestamp"@),
{
    SchemaPlan {
        add_created_at: !entries_column_exists(columns, "created_at"),
        add_last_used_at: !entries_column_exists(columns, "last_used_at"),
        has_timestamp: entries_column_exists(columns, "timestamp"),
    }
}

/// The first of three columns that holds something, or else a text.
pub open spec fn coalesced(
    first: Option<Seq<char>>,
    second: Option<Seq<char>>,
    otherwise: Seq<char>,
) -> Seq<char> {
    match (first, second) {
        (Some(t), _) => t,
        (None, Some(t)) => t,
        (None, None) => otherwise,
    }
}

/// The time of creation of a stored row: what is stored, or the time in its `timestamp` column,
/// or `now`.
pub open spec fn filled_created_at(
    row: StoredRow,
    has_timestamp: bool,
    now: Seq<char>,
) -> Seq<char> {
    coalesced(
        column(row.created_at),
        if has_timestamp {
            column(row.timestamp)
        } else {
            None
        },
        now,
    )
}

/// The time of the last use of a stored row: what is stored, or the time in its `timestamp`
/// column, or the time of its creation.
pub open spec fn filled_last_used_at(
    row: StoredRow,
    has_timestamp: bool,
    now: Seq<char>,
) -> Seq<char> {
    coalesced(
        column(row.last_used_at),
        if has_timestamp {
            column(row.timestamp)
        } else {
            None
        },
        filled_created_at(row, has_timestamp, now),
    )
}

/// A stored row with its times filled in.
pub open spec fn filled_row(row: StoredRow, has_timestamp: bool, now: Seq<char>) -> RowView {
    RowView {
        created_at: filled_created_at(row, has_timestamp, now),
        last_used_at: filled_last_used_at(row, has_timestamp, now),
        ..row@
    }
}

/// Stored rows with their times filled in.
pub open spec fn filled_rows(
    rows: Seq<StoredRow>,
    has_timestamp: bool,
    now: Seq<char>,
) -> Seq<RowView> {
    rows.map_values(|r: StoredRow| filled_row(r, has_timestamp, now))
}

/// The hashes that rows should be kept under, where they are kept under the digest of their
/// unescaped frames.
pub open spec fn current_hashes(rows: Seq<RowView>) -> Seq<Option<Seq<char>>> {
    rows.map_values(
        |r: RowView|
            if is_outdated_hash(r.hash, r.payloads) {
                Some(hash_text(r.payloads))
            } else {
                None
            },
    )
}

/// Whether the hash proposed for a row is the hash of no row and proposed for no other one.
pub open spec fn is_free(rows: Seq<RowView>, hashes: Seq<Option<Seq<char>>>, i: int) -> bool {
    &&& hashes[i] is Some
    &&& forall|j: int| 0 <= j < rows.len() ==> #[trigger] rows[j].hash != hashes[i]->0
    &&& forall|j: int| 0 <= j < rows.len() && j != i ==> #[trigger] hashes[j] != hashes[i]
}

/// A row after the hashes proposed for it and the others were taken over.
pub open spec fn adopted_row(
    rows: Seq<RowView>,
    hashes: Seq<Option<Seq<char>>>,
    i: int,
) -> RowView {
    if is_free(rows, hashes, i) {
        RowView { hash: hashes[i]->0, ..rows[i] }
    } else {
        rows[i]
    }
}

/// Rows after the hashes proposed for them were taken over, each that is free.
pub open spec fn adopted(rows: Seq<RowView>, hashes: Seq<Option<Seq<char>>>) -> Seq<RowView> {
    Seq::new(rows.len(), |i: int| adopted_row(rows, hashes, i))
}

/// Rows that are kept under their hashes: where one is kept under the digest of its unescaped
/// frames, and its hash is free, it gets its hash.
pub open spec fn readdressed(rows: Seq<RowView>) -> Seq<RowView> {
    adopted(rows, current_hashes(rows))
}

/// How many entries are kept: the number that is set, or the default if none is or it is no
/// number.
pub open spec fn max_entries_of(setting: Option<&str>) -> nat {
    match setting {
        Some(s) => match parsed_usize(s@) {
            Some(n) => n,
            None => DEFAULT_MAX_ENTRIES as nat,
        },
        None => DEFAULT_MAX_ENTRIES as nat,
    }
}

/// Reads how many entries are kept.
pub fn read_max_entries(setting: Option<&str>) -> (n: usize)
    ensures
        n == max_entries_of(setting),
{
    match setting {
        Some(s) => match parse_usize(s) {
            Some(n) => n,
            None => DEFAULT_MAX_ENTRIES,
        },
        None => DEFAULT_MAX_ENTRIES,
    }
}

/// The larger of two ids.
pub open spec fn larger_id(a: i64, b: i64) -> i64 {
    if a < b {
        b
    } else {
        a
    }
}

/// The last id given out: what is on record, but no less than zero or than the id of a row.
pub open spec fn last_id_of(rows: Seq<RowView>, recorded: i64) -> i64 {
    larger_id(
        larger_id(recorded, 0),
        if rows.len() > 0 {
            rows[rows.len() - 1].id
        } else {
            0
        },
    )
}

// ---------------------------------------------------------------------------
// The history
// ---------------------------------------------------------------------------

/// The clipboard history.
pub struct Database {
    rows: Vec<EntryRow>,
    last_id: i64,
    max_entries: usize,
    has_legacy_timestamp: bool,
    changes: Vec<Change>,
    stored: Ghost<Seq<RowView>>,
}

impl View for Database {
    type V = DatabaseView;

    closed spec fn view(&self) -> DatabaseView {
        DatabaseView {
            rows: views(self.rows@),
            last_id: self.last_id,
            max_entries: self.max_entries,
            has_legacy_timestamp: self.has_legacy_timestamp,
        }
    }
}

/// Whether a history is sound: ids ascend and none is beyond the last one given out, and no two
/// rows have the same hash.
pub open spec fn sound(db: DatabaseView) -> bool {
    &&& ids_ascend(db.rows)
    &&& hashes_differ(db.rows)
    &&& forall|i: int| 0 <= i < db.rows.len() ==> #[trigger] db.rows[i].id <= db.last_id
}

/// Whether a new row is written with its `timestamp` column exactly where there is such a column.
pub open spec fn writes_timestamp(change: ChangeView, has_legacy_timestamp: bool) -> bool {
    change matches ChangeView::Insert { row, timestamp } ==> timestamp == (
    if has_legacy_timestamp {
        Some(row.created_at)
    } else {
        None
    })
}

/// Removing a row leaves ids ascending and hashes different.
proof fn lemma_remove_sound(rows: Seq<RowView>, k: int)
    requires
        ids_ascend(rows),
        hashes_differ(rows),
        0 <= k < rows.len(),
    ensures
        ids_ascend(rows.remove(k)),
        hashes_differ(rows.remove(k)),
{
    let r = rows.remove(k);
    assert forall|i: int, j: int| 0 <= i < j < r.len() implies r[i].id < r[j].id && r[i].hash
        != r[j].hash by {
        let oi = if i < k { i } else { i + 1 };
        let oj = if j < k { j } else { j + 1 };
        assert(r[i] == rows[oi] && r[j] == rows[oj]);
    }
}

/// Positions in sorted order are the listing order.
proof fn lemma_order_lists(rows: Seq<EntryRow>, order: Seq<usize>)
    requires
        ids_ascend(views(rows)),
        order.len() == rows.len(),
        is_sorted_order::<EntryRow>(views(rows), order),
        picked(views(rows), order).to_multiset() == views(rows).to_multiset(),
    ensures
        picked(views(rows), order) == newest_first(views(rows)),
{
    broadcast use vstd::seq_lib::group_to_multiset_ensures;

    let all = views(rows);
    let s = picked(all, order);
    assert forall|i: int, j: int| 0 <= i < j < s.len() implies newer(s[i], s[j]) by {
        assert(!newer(all[order[j] as int], all[order[i] as int]));
        assert(order[i] != order[j]);
        if order[i] < order[j] {
            assert(all[order[i] as int].id < all[order[j] as int].id);
        } else {
            assert(all[order[j] as int].id < all[order[i] as int].id);
        }
        lemma_newer_order(s[i], s[j], s[i]);
    }
    assert forall|r: RowView| #[trigger] s.contains(r) <==> all.contains(r) by {
        assert(s.contains(r) <==> s.to_multiset().count(r) > 0);
        assert(all.contains(r) <==> all.to_multiset().count(r) > 0);
    }
    assert(is_newest_first(all, s));
    lemma_newest_first_unique(all, s);
}

/// If there are no more rows than are kept, all are.
pub proof fn lemma_all_kept(rows: Seq<RowView>, n: nat)
    requires
        ids_ascend(rows),
        rows.len() <= n,
    ensures
        kept(rows, n) == rows,
{
    lemma_newest_first_exists(rows);
    let keep = |r: RowView| newest(rows, n).contains(r);
    assert forall|i: int| 0 <= i < rows.len() implies keep(#[trigger] rows[i]) by {
        assert(rows.contains(rows[i]));
        assert(newest_first(rows).contains(rows[i]));
    }
    lemma_filter_all(rows, keep);
}

proof fn lemma_filter_all(rows: Seq<RowView>, keep: spec_fn(RowView) -> bool)
    requires
        forall|i: int| 0 <= i < rows.len() ==> keep(#[trigger] rows[i]),
    ensures
        rows.filter(keep) == rows,
    decreases rows.len(),
{
    reveal(Seq::filter);
    if rows.len() > 0 {
        let head = rows.drop_last();
        assert forall|i: int| 0 <= i < head.len() implies keep(#[trigger] head[i]) by {
            assert(head[i] == rows[i]);
        }
        lemma_filter_all(head, keep);
        assert(keep(rows[rows.len() - 1]));
        assert(rows =~= head.push(rows.last()));
    }
}

/// Marks the positions that come first in an order.
fn mark_first(order: &[usize], count: usize) -> (marks: Vec<bool>)
    requires
        count <= order@.len(),
        forall|k: int| 0 <= k < order@.len() ==> #[trigger] order@[k] < order@.len(),
    ensures
        marks@.len() == order@.len(),
        forall|i: int|
            0 <= i < marks@.len() ==> (#[trigger] marks@[i] <==> order@.take(count as int).contains(
                i as usize,
            )),
{
    let mut marks: Vec<bool> = Vec::new();
    let mut i: usize = 0;
    while i < order.len()
        invariant
            i <= order@.len(),
            marks@.len() == i,
            forall|j: int| 0 <= j < i ==> !#[trigger] marks@[j],
        decreases order@.len() - i,
    {
        marks.push(false);
        i += 1;
    }
    let mut k: usize = 0;
    while k < count
        invariant
            k <= count <= order@.len(),
            marks@.len() == order@.len(),
            forall|j: int| 0 <= j < order@.len() ==> #[trigger] order@[j] < order@.len(),
            forall|i: int|
                0 <= i < marks@.len() ==> (#[trigger] marks@[i] <==> order@.take(k as int).contains(
                    i as usize,
                )),
        decreases count - k,
    {
        let ghost before = marks@;
        let ghost (a, b) = (order@.take(k as int), order@.take(k + 1));
        marks.set(order[k], true);
        assert forall|i: int| 0 <= i < marks@.len() implies (#[trigger] marks@[i] <==> b.contains(
            i as usize,
        )) by {
            assert(b =~= a.push(order@[k as int]));
            assert(b[k as int] == order@[k as int]);
            assert(before[i] <==> a.contains(i as usize));
            if a.contains(i as usize) {
                let j = choose|j: int| 0 <= j < a.len() && a[j] == i as usize;
                assert(b[j] == i as usize);
            }
            if b.contains(i as usize) && i != order@[k as int] {
                let j = choose|j: int| 0 <= j < b.len() && b[j] == i as usize;
                assert(a[j] == i as usize);
            }
        }
        k += 1;
    }
    marks
}

impl Database {
    /// Whether the history is sound, and the changes that are yet to be written, made to the rows
    /// that are stored on disk, give its rows.
    pub closed spec fn wf(&self) -> bool {
        &&& sound(self@)
        &&& applied_all(self.stored@, views(self.changes@)) == self@.rows
        &&& forall|i: int|
            0 <= i < self.changes@.len() ==> writes_timestamp(
                #[trigger] self.changes@[i]@,
                self.has_legacy_timestamp,
            )
    }

    /// The rows that are stored on disk.
    pub closed spec fn stored_rows(&self) -> Seq<RowView> {
        self.stored@
    }

    /// A history that is in order is sound.
    pub proof fn lemma_sound(&self)
        requires
            self.wf(),
        ensures
            sound(self@),
    {
    }

    /// Notes a change that was made.
    fn record(&mut self, change: Change)
        requires
            writes_timestamp(change@, old(self).has_legacy_timestamp),
            forall|i: int|
                0 <= i < old(self).changes@.len() ==> writes_timestamp(
                    #[trigger] old(self).changes@[i]@,
                    old(self).has_legacy_timestamp,
                ),
        ensures
            final(self).rows == old(self).rows,
            final(self).last_id == old(self).last_id,
            final(self).max_entries == old(self).max_entries,
            final(self).has_legacy_timestamp == old(self).has_legacy_timestamp,
            final(self).stored == old(self).stored,
            applied_all(final(self).stored@, views(final(self).changes@)) == applied(
                applied_all(old(self).stored@, views(old(self).changes@)),
                change@,
            ),
            forall|i: int|
                0 <= i < final(self).changes@.len() ==> writes_timestamp(
                    #[trigger] final(self).changes@[i]@,
                    final(self).has_legacy_timestamp,
                ),
    {
        let ghost before = views(self.changes@);
        let ghost noted = change@;
        self.changes.push(change);
        proof {
            assert(views(self.changes@) =~= before.push(noted));
            lemma_applied_push(self.stored@, before, noted);
        }
    }

    /// Hands over the changes that are yet to be written to disk.
    pub fn take_changes(&mut self) -> (changes: Vec<Change>)
        requires
            old(self).wf(),
        ensures
            final(self).wf(),
            final(self)@ == old(self)@,
            applied_all(old(self).stored_rows(), views(changes@)) == old(self)@.rows,
            final(self).stored_rows() == old(self)@.rows,
            forall|i: int|
                0 <= i < changes@.len() ==> writes_timestamp(
                    #[trigger] changes@[i]@,
                    old(self)@.has_legacy_timestamp,
                ),
    {
        let mut changes: Vec<Change> = Vec::new();
        std::mem::swap(&mut changes, &mut self.changes);
        self.stored = Ghost(views(self.rows@));
        assert(views(self.changes@) =~= Seq::empty());
        changes
    }

    /// The positions of the rows in listing order.
    fn newest_order(&self) -> (order: Vec<usize>)
        requires
            ids_ascend(views(self.rows@)),
        ensures
            order@.len() == self.rows@.len(),
            forall|k: int| 0 <= k < order@.len() ==> #[trigger] order@[k] < order@.len(),
            order@.no_duplicates(),
            picked(views(self.rows@), order@) == newest_first(views(self.rows@)),
    {
        let order = sorted_order(self.rows.as_slice());
        proof {
            lemma_order_lists(self.rows@, order@);
        }
        order
    }

    /// The position of the row with an id.
    fn position(&self, id: i64) -> (r: Option<usize>)
        requires
            ids_ascend(self@.rows),
        ensures
            match r {
                Some(k) => k < self.rows@.len() && self.rows@[k as int].id == id && row_with_id(
                    self@.rows,
                    id,
                ) == Some(self.rows@[k as int]@),
                None => row_with_id(self@.rows, id) is None && forall|i: int|
                    0 <= i < self@.rows.len() ==> #[trigger] self@.rows[i].id != id,
            },
    {
        let ghost all = views(self.rows@);
        let mut k: usize = 0;
        assert(all.skip(0) =~= all);
        while k < self.rows.len()
            invariant
                all == views(self.rows@),
                all == self@.rows,
                ids_ascend(all),
                k <= all.len(),
                forall|i: int| 0 <= i < k ==> #[trigger] all[i].id != id,
                row_with_id(all, id) == row_with_id(all.skip(k as int), id),
            decreases all.len() - k,
        {
            assert(all[k as int] == self.rows@[k as int]@);
            assert(all.skip(k as int)[0] == all[k as int]);
            assert(all.skip(k as int).drop_first() =~= all.skip(k + 1));
            if self.rows[k].id == id {
                return Some(k);
            }
            k += 1;
        }
        None
    }

    /// Drops the rows that are not among the most recently used ones.
    fn trim(&mut self)
        requires
            old(self).wf(),
        ensures
            final(self).wf(),
            final(self).stored_rows() == old(self).stored_rows(),
            final(self)@ == (DatabaseView {
                rows: kept(old(self)@.rows, old(self)@.max_entries as nat),
                ..old(self)@
            }),
    {
        let ghost all = self@.rows;
        let n = self.rows.len();
        if n <= self.max_entries {
            proof {
                lemma_all_kept(all, self.max_entries as nat);
            }
            return;
        }
        let order = self.newest_order();
        let marks = mark_first(order.as_slice(), self.max_entries);
        let ghost top = newest(all, self.max_entries as nat);
        let ghost keep = |r: RowView| top.contains(r);
        proof {
            let first = order@.take(self.max_entries as int);
            assert forall|i: int| 0 <= i < n implies (#[trigger] marks@[i] <==> keep(all[i])) by {
                if first.contains(i as usize) {
                    let j = choose|j: int| 0 <= j < first.len() && first[j] == i as usize;
                    assert(top[j] == all[i]);
                }
                if top.contains(all[i]) {
                    let j = choose|j: int| 0 <= j < top.len() && top[j] == all[i];
                    assert(top[j] == picked(all, order@)[j]);
                    assert(all[order@[j] as int].id == all[i].id);
                    if order@[j] < i {
                        assert(all[order@[j] as int].id < all[i].id);
                    } else if i < order@[j] {
                        assert(all[i].id < all[order@[j] as int].id);
                    }
                    assert(first[j] == i as usize);
                }
            }
        }
        let mut i: usize = 0;
        let mut k: usize = 0;
        assert(all.take(0).filter(keep) =~= Seq::empty()) by {
            reveal(Seq::filter);
        }
        assert(views(self.rows@) =~= all.take(0).filter(keep) + all.skip(0));
        while i < n
            invariant
                n == all.len(),
                i <= n,
                marks@.len() == n,
                forall|j: int| 0 <= j < n ==> (#[trigger] marks@[j] <==> keep(all[j])),
                k == all.take(i as int).filter(keep).len(),
                self@.rows == all.take(i as int).filter(keep) + all.skip(i as int),
                self@.last_id == old(self)@.last_id,
                self@.max_entries == old(self)@.max_entries,
                self@.has_legacy_timestamp == old(self)@.has_legacy_timestamp,
                self.stored_rows() == old(self).stored_rows(),
                self.wf(),
            decreases n - i,
        {
            let ghost current = self@.rows;
            let ghost done = all.take(i as int).filter(keep);
            assert(current[k as int] == all[i as int]);
            assert(all.take(i + 1).drop_last() =~= all.take(i as int));
            assert(all.take(i + 1).filter(keep) == (if keep(all[i as int]) {
                done.push(all[i as int])
            } else {
                done
            })) by {
                reveal(Seq::filter);
            }
            if marks[i] {
                assert(done.push(all[i as int]) + all.skip(i + 1) =~= done + all.skip(i as int));
                k += 1;
            } else {
                let row = self.rows.remove(k);
                proof {
                    assert(row@ == current[k as int]);
                    assert(views(self.rows@) =~= current.remove(k as int));
                    lemma_without_id_at(current, k as int);
                    lemma_remove_sound(current, k as int);
                    assert(current.remove(k as int) =~= done + all.skip(i + 1));
                    assert forall|j: int| 0 <= j < self@.rows.len() implies
                        #[trigger] self@.rows[j].id <= self@.last_id by {
                        let oj = if j < k { j } else { j + 1 };
                        assert(self@.rows[j] == current[oj]);
                    }
                }
                self.record(Change::Delete { id: row.id });
            }
            i += 1;
        }
        proof {
            assert(all.take(n as int) =~= all);
            assert(self@.rows =~= all.filter(keep));
            assert(kept(all, old(self)@.max_entries as nat) == all.filter(keep));
        }
    }

    /// The id of the row with a hash.
    pub fn find_by_hash(&self, hash: &str) -> (r: Option<i64>)
        requires
            self.wf(),
        ensures
            r == id_with_hash(self@.rows, hash@),
    {
        let ghost all = views(self.rows@);
        let mut k: usize = 0;
        assert(all.skip(0) =~= all);
        while k < self.rows.len()
            invariant
                all == views(self.rows@),
                k <= all.len(),
                id_with_hash(all, hash@) == id_with_hash(all.skip(k as int), hash@),
            decreases all.len() - k,
        {
            assert(all[k as int] == self.rows@[k as int]@);
            assert(all.skip(k as int)[0] == all[k as int]);
            assert(all.skip(k as int).drop_first() =~= all.skip(k + 1));
            if same_text(self.rows[k].hash.as_str(), hash) {
                return Some(self.rows[k].id);
            }
            k += 1;
        }
        None
    }

    /// Records an entry. A row with the same hash is refreshed and its id returned; otherwise a
    /// row is added and its id returned, and the least recently used rows are dropped.
    pub fn insert(&mut self, entry: NewEntry<'_>) -> (r: Result<i64, DbError>)
        requires
            old(self).wf(),
        ensures
            final(self).wf(),
            final(self).stored_rows() == old(self).stored_rows(),
            r == insert_result(old(self)@, entry@),
            final(self)@ == after_insert(
                old(self)@,
                entry@,
                rfc3339_text(entry.created_at@.0, entry.created_at@.1),
            ),
            stores_moment(entry.created_at@),
    {
        let stamp = entry.created_at.to_rfc3339();
        self.insert_stamped(entry, stamp)
    }

    /// Records an entry, given the text that its moment is stored as.
    pub fn insert_stamped(&mut self, entry: NewEntry<'_>, stamp: String) -> (r: Result<
        i64,
        DbError,
    >)
        requires
            old(self).wf(),
        ensures
            final(self).wf(),
            final(self).stored_rows() == old(self).stored_rows(),
            r == insert_result(old(self)@, entry@),
            final(self)@ == after_insert(old(self)@, entry@, stamp@),
    {
        let ghost all = self@.rows;
        match self.find_by_hash(entry.hash) {
            Some(id) => {
                proof {
                    let k = lemma_hash_found(all, entry.hash@);
                    lemma_row_at(all, k);
                }
                match self.position(id) {
                    Some(k) => {
                        let size = entry.size as i64;
                        let ghost with = refreshed_by(entry@, stamp@);
                        let mut row = self.rows.remove(k);
                        let ghost old_row = row@;
                        row.kind = entry.kind.label().to_string();
                        row.label = entry.label.to_string();
                        row.preview = entry.preview.to_string();
                        row.size = size;
                        row.last_used_at = stamp.clone();
                        let ghost new_view = row@;
                        self.rows.insert(k, row);
                        proof {
                            assert(old_row == all[k as int]);
                            assert(new_view == refreshed_row(old_row, with));
                            assert(views(self.rows@) =~= all.update(k as int, new_view));
                            lemma_update_by_id(all, k as int, new_view);
                            assert(views(self.rows@) =~= refreshed(all, id, with));
                        }
                        let change = Change::Refresh {
                            id,
                            kind: entry.kind.label().to_string(),
                            label: entry.label.to_string(),
                            preview: entry.preview.to_string(),
                            size,
                            last_used_at: stamp,
                        };
                        self.record(change);
                    },
                    None => {},
                }
                Ok(id)
            },
            None => {
                if self.last_id == i64::MAX {
                    return Err(DbError::Full);
                }
                let id = self.last_id + 1;
                let row = EntryRow {
                    id,
                    hash: entry.hash.to_string(),
                    kind: entry.kind.label().to_string(),
                    label: entry.label.to_string(),
                    preview: entry.preview.to_string(),
                    size: entry.size as i64,
                    created_at: stamp.clone(),
                    last_used_at: stamp.clone(),
                    payloads: copy_payloads(entry.payloads),
                };
                let ghost added = new_row(entry@, id, stamp@);
                assert(row@ == added);
                let copy = row.copied();
                let timestamp = if self.has_legacy_timestamp {
                    Some(stamp)
                } else {
                    None
                };
                self.rows.push(row);
                self.last_id = id;
                proof {
                    lemma_hash_absent(all, entry.hash@);
                    assert(views(self.rows@) =~= all.push(added));
                    lemma_push_sound(all, added);
                    assert forall|i: int| 0 <= i < self@.rows.len() implies
                        #[trigger] self@.rows[i].id <= self@.last_id by {
                        if i < all.len() {
                            assert(self@.rows[i] == all[i]);
                        }
                    }
                }
                self.record(Change::Insert { row: copy, timestamp });
                self.trim();
                Ok(id)
            },
        }
    }

    /// The hash of the entry with an id.
    pub fn get_hash(&self, entry_id: i64) -> (r: Option<String>)
        requires
            self.wf(),
        ensures
            match r {
                Some(hash) => row_with_id(self@.rows, entry_id) matches Some(row) && row.hash
                    == hash@,
                None => row_with_id(self@.rows, entry_id) is None,
            },
    {
        match self.position(entry_id) {
            Some(k) => Some(self.rows[k].hash.clone()),
            None => None,
        }
    }

    /// The payloads of the entry with an id; none if there is no such entry.
    pub fn get_raw_payloads(&self, entry_id: i64) -> (r: Vec<(String, Vec<u8>)>)
        requires
            self.wf(),
        ensures
            views(r@) == payloads_of(self@.rows, entry_id),
    {
        match self.position(entry_id) {
            Some(k) => copy_payloads(self.rows[k].payloads.as_slice()),
            None => {
                let none: Vec<(String, Vec<u8>)> = Vec::new();
                assert(views(none@) =~= Seq::empty());
                none
            },
        }
    }

    /// The payloads of the entry with an id, in Base64 notation; none if there is no such entry.
    pub fn get_payloads(&self, entry_id: i64) -> (r: Result<Vec<MimePayload>, DbError>)
        requires
            self.wf(),
        ensures
            match r {
                Ok(payloads) => fit_base64(payloads_of(self@.rows, entry_id)) && views(payloads@)
                    == in_base64(payloads_of(self@.rows, entry_id)),
                Err(e) => e == DbError::TooLong && !fit_base64(payloads_of(self@.rows, entry_id)),
            },
    {
        let raw = self.get_raw_payloads(entry_id);
        encode_payloads(raw.as_slice())
    }

    /// The MIME types of the entry with an id; none if there is no such entry.
    pub fn mime_types_for(&self, entry_id: i64) -> (r: Vec<String>)
        requires
            self.wf(),
        ensures
            views(r@) == mimes_of(payloads_of(self@.rows, entry_id)),
    {
        match self.position(entry_id) {
            Some(k) => mime_types_of(self.rows[k].payloads.as_slice()),
            None => {
                let none: Vec<String> = Vec::new();
                assert(views(none@) =~= mimes_of(Seq::empty()));
                none
            },
        }
    }

    /// Notes that the entry with an id is being used now. Nothing happens if there is no such
    /// entry.
    pub fn touch_last_used(&mut self, entry_id: i64)
        requires
            old(self).wf(),
        ensures
            final(self).wf(),
            final(self).stored_rows() == old(self).stored_rows(),
            exists|now: (i64, u32)|
                {
                    &&& stores_moment(now)
                    &&& final(self)@ == (DatabaseView {
                        rows: touched(old(self)@.rows, entry_id, rfc3339_text(now.0, now.1)),
                        ..old(self)@
                    })
                },
    {
        let now = Timestamp::now();
        self.touch_last_used_at(entry_id, now);
        assert(stores_moment(now@));
    }

    /// Notes that the entry with an id is used at `now`.
    pub fn touch_last_used_at(&mut self, entry_id: i64, now: Timestamp)
        requires
            old(self).wf(),
        ensures
            final(self).wf(),
            final(self).stored_rows() == old(self).stored_rows(),
            final(self)@ == (DatabaseView {
                rows: touched(old(self)@.rows, entry_id, rfc3339_text(now@.0, now@.1)),
                ..old(self)@
            }),
            stores_moment(now@),
    {
        let stamp = now.to_rfc3339();
        self.touch_stamped(entry_id, stamp);
    }

    /// Notes that the entry with an id is used, given the text that the moment is stored as.
    pub fn touch_stamped(&mut self, entry_id: i64, stamp: String)
        requires
            old(self).wf(),
        ensures
            final(self).wf(),
            final(self).stored_rows() == old(self).stored_rows(),
            final(self)@ == (DatabaseView {
                rows: touched(old(self)@.rows, entry_id, stamp@),
                ..old(self)@
            }),
    {
        let ghost all = self@.rows;
        match self.position(entry_id) {
            Some(k) => {
                let mut row = self.rows.remove(k);
                let ghost old_row = row@;
                row.last_used_at = stamp.clone();
                let ghost new_view = row@;
                self.rows.insert(k, row);
                proof {
                    assert(old_row == all[k as int]);
                    assert(new_view == RowView { last_used_at: stamp@, ..old_row });
                    assert(views(self.rows@) =~= all.update(k as int, new_view));
                    lemma_update_by_id(all, k as int, new_view);
                    assert(views(self.rows@) =~= touched(all, entry_id, stamp@));
                }
                self.record(Change::Touch { id: entry_id, last_used_at: stamp });
            },
            None => {
                assert(touched(all, entry_id, stamp@) =~= all);
            },
        }
    }

    /// Deletes the entry with an id and tells whether there was one.
    pub fn delete(&mut self, entry_id: i64) -> (r: bool)
        requires
            old(self).wf(),
        ensures
            final(self).wf(),
            final(self).stored_rows() == old(self).stored_rows(),
            r == (row_with_id(old(self)@.rows, entry_id) is Some),
            final(self)@ == (DatabaseView {
                rows: without_id(old(self)@.rows, entry_id),
                ..old(self)@
            }),
    {
        let ghost all = self@.rows;
        match self.position(entry_id) {
            Some(k) => {
                let row = self.rows.remove(k);
                proof {
                    assert(row@ == all[k as int]);
                    assert(views(self.rows@) =~= all.remove(k as int));
                    lemma_without_id_at(all, k as int);
                    lemma_remove_sound(all, k as int);
                    assert forall|j: int| 0 <= j < self@.rows.len() implies
                        #[trigger] self@.rows[j].id <= self@.last_id by {
                        let oj = if j < k { j } else { j + 1 };
                        assert(self@.rows[j] == all[oj]);
                    }
                }
                self.record(Change::Delete { id: entry_id });
                true
            },
            None => {
                proof {
                    lemma_without_absent_id(all, entry_id);
                }
                false
            },
        }
    }

    /// Deletes all entries and tells how many there were.
    pub fn clear(&mut self) -> (n: usize)
        requires
            old(self).wf(),
        ensures
            final(self).wf(),
            final(self).stored_rows() == old(self).stored_rows(),
            n == old(self)@.rows.len(),
            final(self)@ == (DatabaseView { rows: Seq::empty(), ..old(self)@ }),
    {
        let n = self.rows.len();
        self.rows.clear();
        assert(views(self.rows@) =~= Seq::empty());
        self.record(Change::Clear);
        n
    }

    /// Lists the `limit` most recently used entries, the most recent one first.
    pub fn list(&self, limit: usize) -> (r: Vec<Entry>)
        requires
            self.wf(),
        ensures
            exists|now: (i64, u32)| views(r@) == listing(self@.rows, limit as nat, now),
    {
        let now = Timestamp::now();
        let entries = self.list_at(limit, now);
        assert(views(entries@) == listing(self@.rows, limit as nat, now@));
        entries
    }

    /// Lists the `limit` most recently used entries; `now` stands for times that are not stored
    /// in RFC 3339 notation.
    pub fn list_at(&self, limit: usize, now: Timestamp) -> (r: Vec<Entry>)
        requires
            self.wf(),
        ensures
            views(r@) == listing(self@.rows, limit as nat, now@),
    {
        let ghost all = self@.rows;
        let order = self.newest_order();
        let n: usize = if limit < order.len() {
            limit
        } else {
            order.len()
        };
        let mut entries: Vec<Entry> = Vec::new();
        let mut k: usize = 0;
        while k < n
            invariant
                all == views(self.rows@),
                k <= n <= order@.len() == all.len(),
                forall|j: int| 0 <= j < order@.len() ==> #[trigger] order@[j] < order@.len(),
                picked(all, order@) == newest_first(all),
                entries@.len() == k,
                forall|j: int|
                    0 <= j < k ==> #[trigger] entries@[j]@ == entry_of(newest_first(all)[j], now@),
            decreases n - k,
        {
            let row = &self.rows[order[k]];
            assert(row@ == picked(all, order@)[k as int]);
            let created_at = match Timestamp::parse(row.created_at.as_str()) {
                Some(t) => t,
                None => now,
            };
            let last_used_at = match Timestamp::parse(row.last_used_at.as_str()) {
                Some(t) => t,
                None => now,
            };
            entries.push(entry_from_row(row, created_at, last_used_at));
            k += 1;
        }
        assert(views(entries@) =~= listing(all, limit as nat, now@));
        entries
    }

    /// Takes over a table from disk: fills in times that are missing, gives rows that are kept
    /// under the digest of their unescaped frames their hashes, and reads how many entries are
    /// kept. `now` is the text of the current moment.
    pub fn open(setting: Option<&str>, tables: StoredTables, now: String) -> (r: Result<
        Database,
        DbError,
    >)
        ensures
            r is Ok <==> ids_ascend(views(tables.rows@)) && hashes_differ(views(tables.rows@)),
            r matches Err(e) ==> e == DbError::Constraint,
            r matches Ok(db) ==> {
                let has_timestamp = views(tables.columns@).contains("timestamp"@);
                &&& db.wf()
                &&& db.stored_rows() == views(tables.rows@)
                &&& db@.rows == readdressed(filled_rows(tables.rows@, has_timestamp, now@))
                &&& db@.last_id == last_id_of(views(tables.rows@), tables.last_id)
                &&& db@.max_entries == max_entries_of(setting)
                &&& db@.has_legacy_timestamp == has_timestamp
            },
    {
        if !rows_sound(tables.rows.as_slice()) {
            return Err(DbError::Constraint);
        }
        let plan = migrate_entries_schema(tables.columns.as_slice());
        let max_entries = read_max_entries(setting);
        let ghost given = tables.rows@;
        let ghost stored = views(given);
        let mut last_id: i64 = if tables.last_id > 0 {
            tables.last_id
        } else {
            0
        };
        if tables.rows.len() > 0 {
            let newest_id = tables.rows[tables.rows.len() - 1].id;
            assert(stored[stored.len() - 1].id == newest_id);
            if newest_id > last_id {
                last_id = newest_id;
            }
        }
        let mut db = Database {
            rows: Vec::new(),
            last_id,
            max_entries,
            has_legacy_timestamp: plan.has_timestamp,
            changes: Vec::new(),
            stored: Ghost(stored),
        };
        db.fill(tables.rows, plan.has_timestamp, now);
        let hashes = find_current_hashes(db.rows.as_slice());
        assert(texts(hashes@).len() == hashes@.len());
        db.adopt_hashes(hashes.as_slice());
        Ok(db)
    }

    /// Gives rows other hashes: to each row the one that stands in its place in `hashes`, unless
    /// that is the hash of a row or stands there twice.
    pub fn adopt_hashes(&mut self, hashes: &[Option<String>])
        requires
            old(self).wf(),
            hashes@.len() == old(self)@.rows.len(),
        ensures
            final(self).wf(),
            final(self).stored_rows() == old(self).stored_rows(),
            final(self)@ == (DatabaseView {
                rows: adopted(old(self)@.rows, texts(hashes@)),
                ..old(self)@
            }),
    {
        let ghost all = self@.rows;
        let ghost proposed = texts(hashes@);
        let ghost full = adopted(all, proposed);
        let free = mark_free(self.rows.as_slice(), hashes);
        let n = self.rows.len();
        let mut i: usize = 0;
        assert(full.take(0) + all.skip(0) =~= all);
        while i < n
            invariant
                n == all.len(),
                i <= n,
                sound(old(self)@),
                all == old(self)@.rows,
                proposed == texts(hashes@),
                hashes@.len() == n,
                free@.len() == n,
                forall|j: int| 0 <= j < n ==> (#[trigger] free@[j] <==> is_free(all, proposed, j)),
                full == adopted(all, proposed),
                self@.rows == full.take(i as int) + all.skip(i as int),
                self@.last_id == old(self)@.last_id,
                self@.max_entries == old(self)@.max_entries,
                self@.has_legacy_timestamp == old(self)@.has_legacy_timestamp,
                self.stored_rows() == old(self).stored_rows(),
                self.wf(),
            decreases n - i,
        {
            let ghost current = self@.rows;
            let ghost next = full.take(i + 1) + all.skip(i + 1);
            assert(current[i as int] == all[i as int]);
            assert(full.take(i + 1) =~= full.take(i as int).push(full[i as int]));
            if free[i] {
                if let Some(hash) = &hashes[i] {
                    let mut row = self.rows.remove(i);
                    let id = row.id;
                    let ghost old_row = row@;
                    row.hash = hash.clone();
                    let ghost new_view = row@;
                    self.rows.insert(i, row);
                    proof {
                        assert(old_row == all[i as int]);
                        assert(new_view == full[i as int]);
                        assert(views(self.rows@) =~= current.update(i as int, new_view));
                        assert(current.update(i as int, new_view) =~= next);
                        lemma_adopting_sound(all, proposed, i + 1);
                        lemma_ids_differ(current, i as int);
                        assert(rehashed(current, id, hash@) =~= next);
                        assert forall|j: int| 0 <= j < self@.rows.len() implies
                            #[trigger] self@.rows[j].id <= self@.last_id by {
                            assert(next[j].id == all[j].id);
                        }
                    }
                    self.record(Change::Rehash { id, hash: hash.clone() });
                }
            } else {
                assert(next =~= current);
            }
            i += 1;
        }
        assert(full.take(n as int) + all.skip(n as int) =~= full);
    }

    /// Takes over stored rows, filling in times that are missing.
    fn fill(&mut self, stored: Vec<StoredRow>, has_timestamp: bool, now: String)
        requires
            ids_ascend(views(stored@)),
            hashes_differ(views(stored@)),
            old(self).rows@.len() == 0,
            old(self).changes@.len() == 0,
            old(self).stored@ == views(stored@),
            stored@.len() > 0 ==> views(stored@)[stored@.len() - 1].id <= old(self).last_id,
        ensures
            final(self).wf(),
            final(self).stored_rows() == old(self).stored_rows(),
            final(self)@ == (DatabaseView {
                rows: filled_rows(stored@, has_timestamp, now@),
                ..old(self)@
            }),
    {
        let ghost given = stored@;
        let ghost base = views(given);
        let ghost full = filled_rows(given, has_timestamp, now@);
        let mut rest = stored;
        let mut reversed: Vec<EntryRow> = Vec::new();
        proof {
            assert(views(self.changes@) =~= Seq::empty());
            assert(base =~= base.take(base.len() as int) + full.skip(base.len() as int));
        }
        while rest.len() > 0
            invariant
                base == views(given),
                full == filled_rows(given, has_timestamp, now@),
                ids_ascend(base),
                rest@.len() <= given.len(),
                rest@ == given.take(rest@.len() as int),
                reversed@.len() == given.len() - rest@.len(),
                forall|j: int|
                    0 <= j < reversed@.len() ==> #[trigger] reversed@[j]@ == full[full.len() - 1 - j],
                self.rows@.len() == 0,
                self.stored@ == base,
                self.last_id == old(self).last_id,
                self.max_entries == old(self).max_entries,
                self.has_legacy_timestamp == old(self).has_legacy_timestamp,
                applied_all(self.stored@, views(self.changes@)) == base.take(rest@.len() as int)
                    + full.skip(rest@.len() as int),
                forall|i: int|
                    0 <= i < self.changes@.len() ==> writes_timestamp(
                        #[trigger] self.changes@[i]@,
                        self.has_legacy_timestamp,
                    ),
            decreases rest@.len(),
        {
            let ghost n = rest@.len() - 1;
            let ghost before = base.take(n + 1) + full.skip(n + 1);
            if let Some(row) = rest.pop() {
                assert(row == given[n]);
                assert(base[n] == row@);
                let created_at = pick_text(
                    &row.created_at,
                    if has_timestamp {
                        &row.timestamp
                    } else {
                        &None
                    },
                    now.as_str(),
                );
                let last_used_at = pick_text(
                    &row.last_used_at,
                    if has_timestamp {
                        &row.timestamp
                    } else {
                        &None
                    },
                    created_at.as_str(),
                );
                let missing = row.created_at.is_none() || row.last_used_at.is_none();
                let ghost filled = filled_row(row, has_timestamp, now@);
                assert(full[n] == filled);
                if missing {
                    let change = Change::Backfill {
                        id: row.id,
                        created_at: created_at.clone(),
                        last_used_at: last_used_at.clone(),
                    };
                    self.record(change);
                    proof {
                        lemma_backfill_step(base, full, n);
                    }
                } else {
                    assert(filled == row@);
                    assert(base.take(n) + full.skip(n) =~= before);
                }
                reversed.push(
                    EntryRow {
                        id: row.id,
                        hash: row.hash,
                        kind: row.kind,
                        label: row.label,
                        preview: row.preview,
                        size: row.size,
                        created_at,
                        last_used_at,
                        payloads: row.payloads,
                    },
                );
                assert(reversed@[reversed@.len() - 1]@ == filled);
            }
        }
        assert(base.take(0) + full.skip(0) =~= full);
        let ghost total = reversed@;
        while reversed.len() > 0
            invariant
                total.len() == full.len(),
                forall|j: int|
                    0 <= j < total.len() ==> #[trigger] total[j]@ == full[full.len() - 1 - j],
                reversed@.len() <= total.len(),
                reversed@ == total.take(reversed@.len() as int),
                self.rows@.len() == total.len() - reversed@.len(),
                forall|j: int| 0 <= j < self.rows@.len() ==> #[trigger] self.rows@[j]@ == full[j],
                self.stored@ == base,
                self.last_id == old(self).last_id,
                self.max_entries == old(self).max_entries,
                self.has_legacy_timestamp == old(self).has_legacy_timestamp,
                applied_all(self.stored@, views(self.changes@)) == full,
                forall|i: int|
                    0 <= i < self.changes@.len() ==> writes_timestamp(
                        #[trigger] self.changes@[i]@,
                        self.has_legacy_timestamp,
                    ),
            decreases reversed@.len(),
        {
            if let Some(row) = reversed.pop() {
                assert(row == total[reversed@.len() as int]);
                self.rows.push(row);
            }
        }
        proof {
            assert(views(self.rows@) =~= full);
            assert forall|i: int, j: int| 0 <= i < j < full.len() implies full[i].id < full[j].id
                && full[i].hash != full[j].hash by {
                assert(full[i].id == base[i].id && full[j].id == base[j].id);
                assert(full[i].hash == base[i].hash && full[j].hash == base[j].hash);
            }
            assert forall|i: int| 0 <= i < full.len() implies #[trigger] full[i].id
                <= self.last_id by {
                let last = base.len() - 1;
                assert(full[i].id == base[i].id);
                if i < last {
                    assert(base[i].id < base[last].id);
                }
            }
        }
    }
}

/// The texts that may be there.
pub open spec fn texts(hashes: Seq<Option<String>>) -> Seq<Option<Seq<char>>> {
    hashes.map_values(|h: Option<String>| column(h))
}

/// Finds the hashes that rows should be kept under, where they are kept under the digest of their
/// unescaped frames.
fn find_current_hashes(rows: &[EntryRow]) -> (hashes: Vec<Option<String>>)
    ensures
        texts(hashes@) == current_hashes(views(rows@)),
{
    let ghost all = views(rows@);
    let mut hashes: Vec<Option<String>> = Vec::new();
    let mut i: usize = 0;
    while i < rows.len()
        invariant
            all == views(rows@),
            i <= rows@.len(),
            hashes@.len() == i,
            forall|j: int| 0 <= j < i ==> column(#[trigger] hashes@[j]) == current_hashes(all)[j],
        decreases rows@.len() - i,
    {
        assert(all[i as int] == rows@[i as int]@);
        let found = current_hash(rows[i].hash.as_str(), rows[i].payloads.as_slice());
        assert(column(found) == current_hashes(all)[i as int]);
        hashes.push(found);
        i += 1;
    }
    assert(texts(hashes@) =~= current_hashes(all));
    hashes
}

/// Tells whether a text is there and is the given one.
fn is_text(text: &Option<String>, expected: &str) -> (r: bool)
    ensures
        r == (column(*text) == Some(expected@)),
{
    match text {
        Some(t) => same_text(t.as_str(), expected),
        None => false,
    }
}

/// Tells whether the hash proposed for a row is the hash of no row and proposed for no other one.
fn is_hash_free(rows: &[EntryRow], hashes: &[Option<String>], i: usize) -> (r: bool)
    requires
        rows@.len() == hashes@.len(),
        i < rows@.len(),
    ensures
        r == is_free(views(rows@), texts(hashes@), i as int),
{
    let ghost all = views(rows@);
    let ghost proposed = texts(hashes@);
    match &hashes[i] {
        None => false,
        Some(hash) => {
            assert(proposed[i as int] == Some(hash@));
            let mut j: usize = 0;
            while j < rows.len()
                invariant
                    all == views(rows@),
                    proposed == texts(hashes@),
                    rows@.len() == hashes@.len(),
                    i < rows@.len(),
                    j <= rows@.len(),
                    proposed[i as int] == Some(hash@),
                    forall|k: int| 0 <= k < j ==> #[trigger] all[k].hash != hash@,
                    forall|k: int|
                        0 <= k < j && k != i ==> #[trigger] proposed[k] != proposed[i as int],
                decreases rows@.len() - j,
            {
                assert(all[j as int] == rows@[j as int]@);
                assert(proposed[j as int] == column(hashes@[j as int]));
                if same_text(rows[j].hash.as_str(), hash.as_str()) {
                    assert(all[j as int].hash == proposed[i as int]->0);
                    return false;
                }
                if j != i && is_text(&hashes[j], hash.as_str()) {
                    assert(proposed[j as int] == proposed[i as int]);
                    return false;
                }
                j += 1;
            }
            true
        },
    }
}

/// Marks the rows for which the proposed hash is free.
fn mark_free(rows: &[EntryRow], hashes: &[Option<String>]) -> (marks: Vec<bool>)
    requires
        rows@.len() == hashes@.len(),
    ensures
        marks@.len() == rows@.len(),
        forall|i: int|
            0 <= i < marks@.len() ==> (#[trigger] marks@[i] <==> is_free(
                views(rows@),
                texts(hashes@),
                i,
            )),
{
    let mut marks: Vec<bool> = Vec::new();
    let mut i: usize = 0;
    while i < rows.len()
        invariant
            rows@.len() == hashes@.len(),
            i <= rows@.len(),
            marks@.len() == i,
            forall|j: int|
                0 <= j < i ==> (#[trigger] marks@[j] <==> is_free(views(rows@), texts(hashes@), j)),
        decreases rows@.len() - i,
    {
        marks.push(is_hash_free(rows, hashes, i));
        i += 1;
    }
    marks
}

/// Taking over hashes, row by row, leaves ids ascending and hashes different.
pub proof fn lemma_adopting_sound(rows: Seq<RowView>, hashes: Seq<Option<Seq<char>>>, n: int)
    requires
        ids_ascend(rows),
        hashes_differ(rows),
        hashes.len() == rows.len(),
        0 <= n <= rows.len(),
    ensures
        ids_ascend(adopted(rows, hashes).take(n) + rows.skip(n)),
        hashes_differ(adopted(rows, hashes).take(n) + rows.skip(n)),
{
    let full = adopted(rows, hashes);
    let mixed = full.take(n) + rows.skip(n);
    assert forall|i: int, j: int| 0 <= i < j < mixed.len() implies mixed[i].id < mixed[j].id
        && mixed[i].hash != mixed[j].hash by {
        assert(rows[i].id < rows[j].id && rows[i].hash != rows[j].hash);
        assert(mixed[i] == (if i < n { full[i] } else { rows[i] }));
        assert(mixed[j] == (if j < n { full[j] } else { rows[j] }));
        if is_free(rows, hashes, i) && is_free(rows, hashes, j) {
            assert(hashes[i] != hashes[j]);
        }
    }
}

/// The id at a position is the id of no other row.
proof fn lemma_ids_differ(rows: Seq<RowView>, k: int)
    requires
        ids_ascend(rows),
        0 <= k < rows.len(),
    ensures
        forall|i: int| 0 <= i < rows.len() ==> (#[trigger] rows[i].id == rows[k].id <==> i == k),
{
    assert forall|i: int| 0 <= i < rows.len() implies (#[trigger] rows[i].id == rows[k].id <==> i
        == k) by {
        if i < k {
            assert(rows[i].id < rows[k].id);
        } else if k < i {
            assert(rows[k].id < rows[i].id);
        }
    }
}

/// One step of filling in times, from the last row to the first.
proof fn lemma_backfill_step(base: Seq<RowView>, full: Seq<RowView>, n: int)
    requires
        ids_ascend(base),
        base.len() == full.len(),
        0 <= n < base.len(),
        forall|i: int| 0 <= i < full.len() ==> #[trigger] full[i].id == base[i].id,
        full[n] == (RowView {
            created_at: full[n].created_at,
            last_used_at: full[n].last_used_at,
            ..base[n]
        }),
    ensures
        backfilled(
            base.take(n + 1) + full.skip(n + 1),
            base[n].id,
            full[n].created_at,
            full[n].last_used_at,
        ) == base.take(n) + full.skip(n),
{
    let before = base.take(n + 1) + full.skip(n + 1);
    let after = base.take(n) + full.skip(n);
    let filled = backfilled(
        before,
        base[n].id,
        full[n].created_at,
        full[n].last_used_at,
    );
    assert forall|i: int| 0 <= i < before.len() implies filled[i] == #[trigger] after[i] by {
        if i < n {
            assert(before[i] == base[i]);
            assert(base[i].id < base[n].id);
        } else if i == n {
            assert(before[i] == base[n]);
        } else {
            assert(before[i] == full[i]);
            assert(base[n].id < base[i].id);
        }
    }
    assert(filled =~= after);
}

/// Changing the row with an id is changing the row at its position.
proof fn lemma_update_by_id(rows: Seq<RowView>, k: int, row: RowView)
    requires
        ids_ascend(rows),
        hashes_differ(rows),
        0 <= k < rows.len(),
        row.id == rows[k].id,
        row.hash == rows[k].hash,
    ensures
        ids_ascend(rows.update(k, row)),
        hashes_differ(rows.update(k, row)),
        forall|i: int| 0 <= i < rows.len() ==> (#[trigger] rows[i].id == row.id <==> i == k),
        forall|i: int| 0 <= i < rows.len() ==> rows[i].id == #[trigger] rows.update(k, row)[i].id,
{
    assert forall|i: int| 0 <= i < rows.len() implies (#[trigger] rows[i].id == row.id <==> i
        == k) by {
        if i < k {
            assert(rows[i].id < rows[k].id);
        } else if k < i {
            assert(rows[k].id < rows[i].id);
        }
    }
    let new = rows.update(k, row);
    assert forall|i: int, j: int| 0 <= i < j < new.len() implies new[i].id < new[j].id
        && new[i].hash != new[j].hash by {
        assert(rows[i].id < rows[j].id && rows[i].hash != rows[j].hash);
    }
}

/// Adding a row with a new id and a new hash.
proof fn lemma_push_sound(rows: Seq<RowView>, row: RowView)
    requires
        ids_ascend(rows),
        hashes_differ(rows),
        forall|i: int| 0 <= i < rows.len() ==> #[trigger] rows[i].id < row.id,
        forall|i: int| 0 <= i < rows.len() ==> #[trigger] rows[i].hash != row.hash,
    ensures
        ids_ascend(rows.push(row)),
        hashes_differ(rows.push(row)),
{
    let new = rows.push(row);
    assert forall|i: int, j: int| 0 <= i < j < new.len() implies new[i].id < new[j].id
        && new[i].hash != new[j].hash by {
        if j < rows.len() {
            assert(rows[i].id < rows[j].id && rows[i].hash != rows[j].hash);
        } else {
            assert(rows[i].id < row.id && rows[i].hash != row.hash);
        }
    }
}

/// Picks the first text that is there.
fn pick_text(first: &Option<String>, second: &Option<String>, otherwise: &str) -> (r: String)
    ensures
        r@ == coalesced(column(*first), column(*second), otherwise@),
{
    match first {
        Some(t) => t.clone(),
        None => match second {
            Some(t) => t.clone(),
            None => otherwise.to_string(),
        },
    }
}

/// Tells whether the ids of stored rows ascend and their hashes differ.
fn rows_sound(rows: &[StoredRow]) -> (r: bool)
    ensures
        r == (ids_ascend(views(rows@)) && hashes_differ(views(rows@))),
{
    let ghost all = views(rows@);
    let mut j: usize = 0;
    while j < rows.len()
        invariant
            all == views(rows@),
            j <= rows@.len(),
            forall|a: int, b: int| 0 <= a < b < j ==> all[a].id < all[b].id,
            forall|a: int, b: int| 0 <= a < b < j ==> all[a].hash != all[b].hash,
        decreases rows@.len() - j,
    {
        assert(all[j as int] == rows@[j as int]@);
        let mut i: usize = 0;
        while i < j
            invariant
                all == views(rows@),
                i <= j < rows@.len(),
                forall|a: int| 0 <= a < i ==> #[trigger] all[a].id < all[j as int].id,
                forall|a: int| 0 <= a < i ==> #[trigger] all[a].hash != all[j as int].hash,
            decreases j - i,
        {
            assert(all[i as int] == rows@[i as int]@);
            assert(all[j as int] == rows@[j as int]@);
            if rows[i].id >= rows[j].id {
                assert(!ids_ascend(all));
                return false;
            }
            if same_text(rows[i].hash.as_str(), rows[j].hash.as_str()) {
                assert(!hashes_differ(all));
                return false;
            }
            i += 1;
        }
        j += 1;
    }
    true
}

/// The MIME types of payloads.
pub fn mime_types_of(payloads: &[(String, Vec<u8>)]) -> (r: Vec<String>)
    ensures
        views(r@) == mimes_of(views(payloads@)),
{
    let mut mimes: Vec<String> = Vec::new();
    let mut i: usize = 0;
    while i < payloads.len()
        invariant
            i <= payloads@.len(),
            mimes@.len() == i,
            forall|j: int| 0 <= j < i ==> #[trigger] mimes@[j]@ == payloads@[j].0@,
        decreases payloads@.len() - i,
    {
        mimes.push(payloads[i].0.clone());
        i += 1;
    }
    assert(views(mimes@) =~= mimes_of(views(payloads@)));
    mimes
}

/// How a row is listed, given the moments its texts stand for.
pub fn entry_from_row(row: &EntryRow, created_at: Timestamp, last_used_at: Timestamp) -> (r: Entry)
    ensures
        r@ == entry_at(row@, created_at@, last_used_at@),
{
    Entry {
        id: row.id,
        hash: row.hash.clone(),
        kind: parse_kind(row.kind.as_str()),
        label: row.label.clone(),
        preview: row.preview.clone(),
        size: row.size as usize,
        created_at,
        last_used_at,
        mime_types: mime_types_of(row.payloads.as_slice()),
    }
}

/// Payloads with their bytes in Base64 notation.
pub fn encode_payloads(payloads: &[(String, Vec<u8>)]) -> (r: Result<Vec<MimePayload>, DbError>)
    ensures
        match r {
            Ok(encoded) => fit_base64(views(payloads@)) && views(encoded@) == in_base64(
                views(payloads@),
            ),
            Err(e) => e == DbError::TooLong && !fit_base64(views(payloads@)),
        },
{
    let ghost all = views(payloads@);
    let mut encoded: Vec<MimePayload> = Vec::new();
    let mut i: usize = 0;
    while i < payloads.len()
        invariant
            all == views(payloads@),
            i <= payloads@.len(),
            encoded@.len() == i,
            forall|j: int| 0 <= j < i ==> base64_len(#[trigger] all[j].1.len()) <= isize::MAX,
            forall|j: int|
                0 <= j < i ==> #[trigger] encoded@[j]@ == (all[j].0, base64_text(all[j].1)),
        decreases payloads@.len() - i,
    {
        let p = &payloads[i];
        assert(all[i as int] == p@);
        let n = p.1.len();
        let groups: usize = n / 3 + if n % 3 > 0 {
            1
        } else {
            0
        };
        if groups > isize::MAX as usize / 4 {
            assert(base64_len(all[i as int].1.len()) > isize::MAX);
            return Err(DbError::TooLong);
        }
        assert(base64_len(all[i as int].1.len()) <= isize::MAX);
        encoded.push(
            MimePayload { mime_type: p.0.clone(), data_b64: base64_encode(p.1.as_slice()) },
        );
        i += 1;
    }
    assert(views(encoded@) =~= in_base64(all));
    Ok(encoded)
}

} // verus!
