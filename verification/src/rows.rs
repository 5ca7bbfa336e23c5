//! The rows of the history table: their order by last use, and what each kind of change does to
//! them.
use vstd::prelude::*;

use crate::order::{lemma_strictly_sorted_equal, views, Ranked};
use crate::payload::PayloadView;
use crate::text::{is_text_before, lemma_text_before_order, same_text, text_before};

verus! {

/// A stored entry with its payloads.
#[derive(Debug)]
pub struct EntryRow {
    pub id: i64,
    pub hash: String,
    /// The name of the kind.
    pub kind: String,
    pub label: String,
    pub preview: String,
    pub size: i64,
    /// When the entry was first recorded, in RFC 3339 notation.
    pub created_at: String,
    /// When the entry was last recorded or restored, in RFC 3339 notation.
    pub last_used_at: String,
    /// The MIME types with their bytes, in the order they were recorded in.
    pub payloads: Vec<(String, Vec<u8>)>,
}

/// What a stored entry is.
pub struct RowView {
    pub id: i64,
    pub hash: Seq<char>,
    pub kind: Seq<char>,
    pub label: Seq<char>,
    pub preview: Seq<char>,
    pub size: i64,
    pub created_at: Seq<char>,
    pub last_used_at: Seq<char>,
    pub payloads: Seq<PayloadView>,
}

impl View for EntryRow {
    type V = RowView;

    open spec fn view(&self) -> RowView {
        RowView {
            id: self.id,
            hash: self.hash@,
            kind: self.kind@,
            label: self.label@,
            preview: self.preview@,
            size: self.size,
            created_at: self.created_at@,
            last_used_at: self.last_used_at@,
            payloads: views(self.payloads@),
        }
    }
}

// ---------------------------------------------------------------------------
// Order by last use
// ---------------------------------------------------------------------------

/// Whether row `a` is listed before row `b`: it was used later, or equally late and it is older.
pub open spec fn newer(a: RowView, b: RowView) -> bool {
    text_before(b.last_used_at, a.last_used_at) || (a.last_used_at == b.last_used_at && a.id < b.id)
}

/// The listing order is transitive and asymmetric, and of two rows with different ids one comes
/// first.
pub proof fn lemma_newer_order(a: RowView, b: RowView, c: RowView)
    ensures
        newer(a, b) && newer(b, c) ==> newer(a, c),
        !(newer(a, b) && newer(b, a)),
        a.id != b.id ==> newer(a, b) || newer(b, a),
        !newer(b, a) && !newer(c, b) ==> !newer(c, a),
{
    let (x, y, z) = (a.last_used_at, b.last_used_at, c.last_used_at);
    lemma_text_before_order(x, y, z);
    lemma_text_before_order(z, y, x);
    lemma_text_before_order(y, z, x);
    lemma_text_before_order(x, z, y);
    lemma_text_before_order(y, x, z);
}

impl Ranked for EntryRow {
    open spec fn ranks_at_most(a: RowView, b: RowView) -> bool {
        !newer(b, a)
    }

    proof fn lemma_ranks(a: RowView, b: RowView, c: RowView) {
        lemma_newer_order(a, b, c);
    }

    fn may_precede(&self, other: &Self) -> (r: bool) {
        proof {
            lemma_text_before_order(self@.last_used_at, other@.last_used_at, self@.last_used_at);
        }
        if same_text(self.last_used_at.as_str(), other.last_used_at.as_str()) {
            self.id <= other.id
        } else {
            is_text_before(other.last_used_at.as_str(), self.last_used_at.as_str())
        }
    }
}

/// Whether the ids of rows ascend.
pub open spec fn ids_ascend(rows: Seq<RowView>) -> bool {
    forall|i: int, j: int| 0 <= i < j < rows.len() ==> rows[i].id < rows[j].id
}

/// Whether no two rows have the same hash.
pub open spec fn hashes_differ(rows: Seq<RowView>) -> bool {
    forall|i: int, j: int| 0 <= i < j < rows.len() ==> rows[i].hash != rows[j].hash
}

/// Whether `s` holds the rows in listing order.
pub open spec fn is_newest_first(rows: Seq<RowView>, s: Seq<RowView>) -> bool {
    &&& s.len() == rows.len()
    &&& forall|i: int, j: int| 0 <= i < j < s.len() ==> newer(s[i], s[j])
    &&& forall|r: RowView| #[trigger] s.contains(r) <==> rows.contains(r)
}

/// The rows in listing order: the most recently used one first.
pub open spec fn newest_first(rows: Seq<RowView>) -> Seq<RowView> {
    choose|s: Seq<RowView>| is_newest_first(rows, s)
}

/// The first `n` rows in listing order, or all if there are fewer.
pub open spec fn newest(rows: Seq<RowView>, n: nat) -> Seq<RowView> {
    if n < rows.len() {
        newest_first(rows).take(n as int)
    } else {
        newest_first(rows)
    }
}

/// The rows that are kept when only the `n` most recently used ones are.
pub open spec fn kept(rows: Seq<RowView>, n: nat) -> Seq<RowView> {
    rows.filter(|r: RowView| newest(rows, n).contains(r))
}

/// There is only one listing order of rows.
pub proof fn lemma_newest_first_unique(rows: Seq<RowView>, s: Seq<RowView>)
    requires
        is_newest_first(rows, s),
    ensures
        newest_first(rows) == s,
{
    let t = newest_first(rows);
    assert(is_newest_first(rows, t));
    let before = |x: RowView, y: RowView| newer(x, y);
    assert forall|x: RowView, y: RowView| !(#[trigger] before(x, y) && before(y, x)) by {
        lemma_newer_order(x, y, x);
    }
    assert forall|r: RowView| #[trigger] t.contains(r) <==> s.contains(r) by {
        assert(s.contains(r) <==> rows.contains(r));
    }
    lemma_strictly_sorted_equal(t, s, before);
}

/// Where a row belongs in a listing.
proof fn lemma_listing_position(s: Seq<RowView>, x: RowView) -> (k: int)
    requires
        forall|i: int, j: int| 0 <= i < j < s.len() ==> newer(s[i], s[j]),
        forall|i: int| 0 <= i < s.len() ==> #[trigger] s[i].id != x.id,
    ensures
        0 <= k <= s.len(),
        forall|i: int| 0 <= i < k ==> newer(#[trigger] s[i], x),
        forall|i: int| k <= i < s.len() ==> newer(x, #[trigger] s[i]),
    decreases s.len(),
{
    if s.len() == 0 {
        0
    } else {
        let last = s[s.len() - 1];
        lemma_newer_order(x, last, x);
        if newer(x, last) {
            let head = s.drop_last();
            let k = lemma_listing_position(head, x);
            assert forall|i: int| 0 <= i < k implies newer(#[trigger] s[i], x) by {
                assert(head[i] == s[i]);
            }
            assert forall|i: int| k <= i < s.len() implies newer(x, #[trigger] s[i]) by {
                if i < head.len() {
                    assert(head[i] == s[i]);
                }
            }
            k
        } else {
            assert forall|i: int| 0 <= i < s.len() implies newer(#[trigger] s[i], x) by {
                if i < s.len() - 1 {
                    assert(newer(s[i], last));
                    lemma_newer_order(s[i], last, x);
                }
            }
            s.len() as int
        }
    }
}

/// Rows with ascending ids have a listing order.
pub proof fn lemma_newest_first_exists(rows: Seq<RowView>)
    requires
        ids_ascend(rows),
    ensures
        is_newest_first(rows, newest_first(rows)),
    decreases rows.len(),
{
    if rows.len() == 0 {
        assert(is_newest_first(rows, rows));
    } else {
        let (head, x) = (rows.drop_last(), rows[rows.len() - 1]);
        assert(ids_ascend(head));
        lemma_newest_first_exists(head);
        let s = newest_first(head);
        assert forall|i: int| 0 <= i < s.len() implies #[trigger] s[i].id != x.id by {
            assert(s.contains(s[i]));
            assert(head.contains(s[i]));
            let j = choose|j: int| 0 <= j < head.len() && head[j] == s[i];
            assert(rows[j] == s[i]);
        }
        let k = lemma_listing_position(s, x);
        let t = s.insert(k, x);
        assert forall|i: int, j: int| 0 <= i < j < t.len() implies newer(t[i], t[j]) by {
            if i == k {
                assert(t[j] == s[j - 1]);
            } else if j == k {
                assert(t[i] == s[i]);
            } else {
                let si = if i < k { i } else { i - 1 };
                let sj = if j < k { j } else { j - 1 };
                assert(t[i] == s[si] && t[j] == s[sj]);
            }
        }
        assert forall|r: RowView| #[trigger] t.contains(r) <==> rows.contains(r) by {
            if t.contains(r) {
                let i = choose|i: int| 0 <= i < t.len() && t[i] == r;
                if i == k {
                    assert(rows[rows.len() - 1] == r);
                } else {
                    let si = if i < k { i } else { i - 1 };
                    assert(s[si] == r);
                    assert(s.contains(r));
                    let j = choose|j: int| 0 <= j < head.len() && head[j] == r;
                    assert(rows[j] == r);
                }
            }
            if rows.contains(r) {
                let j = choose|j: int| 0 <= j < rows.len() && rows[j] == r;
                if j == rows.len() - 1 {
                    assert(t[k] == r);
                } else {
                    assert(head[j] == r);
                    assert(head.contains(r));
                    assert(s.contains(r));
                    let i = choose|i: int| 0 <= i < s.len() && s[i] == r;
                    let ti = if i < k { i } else { i + 1 };
                    assert(t[ti] == r);
                }
            }
        }
        assert(is_newest_first(rows, t));
    }
}

// ---------------------------------------------------------------------------
// Looking up rows
// ---------------------------------------------------------------------------

/// The id of the row with a hash.
pub open spec fn id_with_hash(rows: Seq<RowView>, hash: Seq<char>) -> Option<i64>
    decreases rows.len(),
{
    if rows.len() == 0 {
        None
    } else if rows[0].hash == hash {
        Some(rows[0].id)
    } else {
        id_with_hash(rows.drop_first(), hash)
    }
}

/// The row with an id.
pub open spec fn row_with_id(rows: Seq<RowView>, id: i64) -> Option<RowView>
    decreases rows.len(),
{
    if rows.len() == 0 {
        None
    } else if rows[0].id == id {
        Some(rows[0])
    } else {
        row_with_id(rows.drop_first(), id)
    }
}

/// The row at a position is the row with its id.
pub proof fn lemma_row_at(rows: Seq<RowView>, k: int)
    requires
        ids_ascend(rows),
        0 <= k < rows.len(),
    ensures
        row_with_id(rows, rows[k].id) == Some(rows[k]),
    decreases k,
{
    if k > 0 {
        assert(rows[0].id < rows[k].id);
        assert(rows.drop_first()[k - 1] == rows[k]);
        lemma_row_at(rows.drop_first(), k - 1);
    }
}

/// A row that is found by its id is one of the rows and has that id.
pub proof fn lemma_row_found(rows: Seq<RowView>, id: i64) -> (k: int)
    requires
        row_with_id(rows, id) is Some,
    ensures
        0 <= k < rows.len(),
        rows[k] == row_with_id(rows, id)->0,
        rows[k].id == id,
    decreases rows.len(),
{
    if rows[0].id == id {
        0
    } else {
        let k = lemma_row_found(rows.drop_first(), id);
        assert(rows[k + 1] == rows.drop_first()[k]);
        k + 1
    }
}

/// No row has an id under which none is found.
pub proof fn lemma_row_absent(rows: Seq<RowView>, id: i64)
    requires
        row_with_id(rows, id) is None,
    ensures
        forall|i: int| 0 <= i < rows.len() ==> #[trigger] rows[i].id != id,
    decreases rows.len(),
{
    if rows.len() > 0 {
        lemma_row_absent(rows.drop_first(), id);
        assert forall|i: int| 0 <= i < rows.len() implies #[trigger] rows[i].id != id by {
            if i > 0 {
                assert(rows.drop_first()[i - 1] == rows[i]);
            }
        }
    }
}

/// The row at a position has the id that is found for its hash.
pub proof fn lemma_hash_at(rows: Seq<RowView>, k: int)
    requires
        hashes_differ(rows),
        0 <= k < rows.len(),
    ensures
        id_with_hash(rows, rows[k].hash) == Some(rows[k].id),
    decreases k,
{
    if k > 0 {
        assert(rows[0].hash != rows[k].hash);
        assert(rows.drop_first()[k - 1] == rows[k]);
        lemma_hash_at(rows.drop_first(), k - 1);
    }
}

/// A hash under which an id is found is the hash of a row with that id.
pub proof fn lemma_hash_found(rows: Seq<RowView>, hash: Seq<char>) -> (k: int)
    requires
        id_with_hash(rows, hash) is Some,
    ensures
        0 <= k < rows.len(),
        rows[k].hash == hash,
        rows[k].id == id_with_hash(rows, hash)->0,
    decreases rows.len(),
{
    if rows[0].hash == hash {
        0
    } else {
        let k = lemma_hash_found(rows.drop_first(), hash);
        assert(rows[k + 1] == rows.drop_first()[k]);
        k + 1
    }
}

/// No row has a hash under which no id is found.
pub proof fn lemma_hash_absent(rows: Seq<RowView>, hash: Seq<char>)
    requires
        id_with_hash(rows, hash) is None,
    ensures
        forall|i: int| 0 <= i < rows.len() ==> #[trigger] rows[i].hash != hash,
    decreases rows.len(),
{
    if rows.len() > 0 {
        lemma_hash_absent(rows.drop_first(), hash);
        assert forall|i: int| 0 <= i < rows.len() implies #[trigger] rows[i].hash != hash by {
            if i > 0 {
                assert(rows.drop_first()[i - 1] == rows[i]);
            }
        }
    }
}

// ---------------------------------------------------------------------------
// Changes
// ---------------------------------------------------------------------------

/// What a row is made of when its payloads are recorded again.
pub struct Refreshed {
    pub kind: Seq<char>,
    pub label: Seq<char>,
    pub preview: Seq<char>,
    pub size: i64,
    pub last_used_at: Seq<char>,
}

/// A row after its payloads were recorded again: they and the time of its creation stay.
pub open spec fn refreshed_row(row: RowView, with: Refreshed) -> RowView {
    RowView {
        kind: with.kind,
        label: with.label,
        preview: with.preview,
        size: with.size,
        last_used_at: with.last_used_at,
        ..row
    }
}

/// Rows after the payloads of one were recorded again.
pub open spec fn refreshed(rows: Seq<RowView>, id: i64, with: Refreshed) -> Seq<RowView> {
    rows.map_values(
        |r: RowView|
            if r.id == id {
                refreshed_row(r, with)
            } else {
                r
            },
    )
}

/// Rows after one was used.
pub open spec fn touched(rows: Seq<RowView>, id: i64, last_used_at: Seq<char>) -> Seq<RowView> {
    rows.map_values(
        |r: RowView|
            if r.id == id {
                RowView { last_used_at, ..r }
            } else {
                r
            },
    )
}

/// Rows after the missing times of one were filled in.
pub open spec fn backfilled(
    rows: Seq<RowView>,
    id: i64,
    created_at: Seq<char>,
    last_used_at: Seq<char>,
) -> Seq<RowView> {
    rows.map_values(
        |r: RowView|
            if r.id == id {
                RowView { created_at, last_used_at, ..r }
            } else {
                r
            },
    )
}

/// Rows after one was given another hash.
pub open spec fn rehashed(rows: Seq<RowView>, id: i64, hash: Seq<char>) -> Seq<RowView> {
    rows.map_values(
        |r: RowView|
            if r.id == id {
                RowView { hash, ..r }
            } else {
                r
            },
    )
}

/// Rows after one was deleted.
pub open spec fn without_id(rows: Seq<RowView>, id: i64) -> Seq<RowView> {
    rows.filter(|r: RowView| r.id != id)
}

/// Deleting the row at a position.
pub proof fn lemma_without_id_at(rows: Seq<RowView>, k: int)
    requires
        ids_ascend(rows),
        0 <= k < rows.len(),
    ensures
        without_id(rows, rows[k].id) == rows.remove(k),
    decreases rows.len(),
{
    reveal(Seq::filter);
    let head = rows.drop_last();
    assert(ids_ascend(head));
    if k == rows.len() - 1 {
        assert forall|i: int| 0 <= i < head.len() implies #[trigger] head[i].id != rows[k].id by {
            assert(rows[i].id < rows[k].id);
        }
        lemma_without_absent_id(head, rows[k].id);
        assert(rows.remove(k) =~= head);
    } else {
        assert(rows[k].id < rows[rows.len() - 1].id);
        assert(head[k] == rows[k]);
        lemma_without_id_at(head, k);
        assert(rows.remove(k) =~= head.remove(k).push(rows.last()));
    }
}

/// Deleting an id that no row has.
pub proof fn lemma_without_absent_id(rows: Seq<RowView>, id: i64)
    requires
        forall|i: int| 0 <= i < rows.len() ==> #[trigger] rows[i].id != id,
    ensures
        without_id(rows, id) == rows,
    decreases rows.len(),
{
    reveal(Seq::filter);
    if rows.len() > 0 {
        let head = rows.drop_last();
        assert forall|i: int| 0 <= i < head.len() implies #[trigger] head[i].id != id by {
            assert(head[i] == rows[i]);
        }
        lemma_without_absent_id(head, id);
        assert(rows[rows.len() - 1].id != id);
        assert(rows =~= head.push(rows.last()));
    }
}

/// A change to the history table that is yet to be written to disk.
#[derive(Debug)]
pub enum Change {
    /// Write a new row; in a table that has the column, `timestamp` too.
    Insert { row: EntryRow, timestamp: Option<String> },
    /// Overwrite what describes a row whose payloads were recorded again.
    Refresh {
        id: i64,
        kind: String,
        label: String,
        preview: String,
        size: i64,
        last_used_at: String,
    },
    /// Overwrite when a row was last used.
    Touch { id: i64, last_used_at: String },
    /// Fill in the times of a row that a table without these columns held.
    Backfill { id: i64, created_at: String, last_used_at: String },
    /// Overwrite the hash of a row.
    Rehash { id: i64, hash: String },
    /// Delete a row and its payloads.
    Delete { id: i64 },
    /// Delete all rows and their payloads.
    Clear,
}

/// What a change is.
pub enum ChangeView {
    Insert { row: RowView, timestamp: Option<Seq<char>> },
    Refresh { id: i64, with: Refreshed },
    Touch { id: i64, last_used_at: Seq<char> },
    Backfill { id: i64, created_at: Seq<char>, last_used_at: Seq<char> },
    Rehash { id: i64, hash: Seq<char> },
    Delete { id: i64 },
    Clear,
}

impl View for Change {
    type V = ChangeView;

    open spec fn view(&self) -> ChangeView {
        match self {
            Change::Insert { row, timestamp } => ChangeView::Insert {
                row: row@,
                timestamp: match timestamp {
                    Some(t) => Some(t@),
                    None => None,
                },
            },
            Change::Refresh { id, kind, label, preview, size, last_used_at } => ChangeView::Refresh {
                id: *id,
                with: Refreshed {
                    kind: kind@,
                    label: label@,
                    preview: preview@,
                    size: *size,
                    last_used_at: last_used_at@,
                },
            },
            Change::Touch { id, last_used_at } => ChangeView::Touch {
                id: *id,
                last_used_at: last_used_at@,
            },
            Change::Backfill { id, created_at, last_used_at } => ChangeView::Backfill {
                id: *id,
                created_at: created_at@,
                last_used_at: last_used_at@,
            },
            Change::Rehash { id, hash } => ChangeView::Rehash { id: *id, hash: hash@ },
            Change::Delete { id } => ChangeView::Delete { id: *id },
            Change::Clear => ChangeView::Clear,
        }
    }
}

/// Rows after a change.
pub open spec fn applied(rows: Seq<RowView>, change: ChangeView) -> Seq<RowView> {
    match change {
        ChangeView::Insert { row, .. } => rows.push(row),
        ChangeView::Refresh { id, with } => refreshed(rows, id, with),
        ChangeView::Touch { id, last_used_at } => touched(rows, id, last_used_at),
        ChangeView::Backfill { id, created_at, last_used_at } => backfilled(
            rows,
            id,
            created_at,
            last_used_at,
        ),
        ChangeView::Rehash { id, hash } => rehashed(rows, id, hash),
        ChangeView::Delete { id } => without_id(rows, id),
        ChangeView::Clear => Seq::empty(),
    }
}

/// Rows after changes, one after the other.
pub open spec fn applied_all(rows: Seq<RowView>, changes: Seq<ChangeView>) -> Seq<RowView>
    decreases changes.len(),
{
    if changes.len() == 0 {
        rows
    } else {
        applied(applied_all(rows, changes.drop_last()), changes.last())
    }
}

/// One more change.
pub proof fn lemma_applied_push(rows: Seq<RowView>, changes: Seq<ChangeView>, change: ChangeView)
    ensures
        applied_all(rows, changes.push(change)) == applied(applied_all(rows, changes), change),
{
    assert(changes.push(change).drop_last() =~= changes);
}

/// Copies payloads.
pub fn copy_payloads(payloads: &[(String, Vec<u8>)]) -> (r: Vec<(String, Vec<u8>)>)
    ensures
        views(r@) == views(payloads@),
{
    let mut r: Vec<(String, Vec<u8>)> = Vec::new();
    let mut i: usize = 0;
    while i < payloads.len()
        invariant
            i <= payloads@.len(),
            views(r@) == views(payloads@).take(i as int),
        decreases payloads@.len() - i,
    {
        let ghost before = views(r@);
        let mut data: Vec<u8> = Vec::new();
        data.extend_from_slice(payloads[i].1.as_slice());
        assert(data@ =~= payloads@[i as int].1@);
        r.push((payloads[i].0.clone(), data));
        proof {
            assert(views(r@) =~= before.push(views(payloads@)[i as int]));
            assert(views(payloads@).take(i + 1) =~= before.push(views(payloads@)[i as int]));
        }
        i += 1;
    }
    assert(views(payloads@).take(i as int) =~= views(payloads@));
    r
}

impl EntryRow {
    /// Copies a row.
    pub fn copied(&self) -> (r: EntryRow)
        ensures
            r@ == self@,
    {
        EntryRow {
            id: self.id,
            hash: self.hash.clone(),
            kind: self.kind.clone(),
            label: self.label.clone(),
            preview: self.preview.clone(),
            size: self.size,
            created_at: self.created_at.clone(),
            last_used_at: self.last_used_at.clone(),
            payloads: copy_payloads(self.payloads.as_slice()),
        }
    }
}

} // verus!
