//! What holds of the daemon as a whole: of recording, answering and restoring together.
use vstd::prelude::*;

use crate::db::{
    after_insert, insert_result, new_row, payloads_of, sound, DatabaseView, NewEntryView,
};
use crate::hash::{
    hash_input, hash_text, law_hash_identifies_offer, lemma_same_payloads, message_len,
};
use crate::history::{
    law_deleted_entry_is_gone, law_known_entry_is_refreshed, law_new_entry_is_added,
    law_oldest_are_dropped, law_read_back,
};
use crate::ipc::{Request, ResponseView};
use crate::label::label_text;
use crate::outside::{rfc3339_text, sha256_digest, SHA256_LIMIT};
use crate::payload::{
    covers, is_normal_form, law_normal_form_exists, law_normal_form_idempotent,
    law_normal_form_ignores_order, law_normal_form_unique, normal_form, PayloadView,
};
use crate::restore::{lemma_served, lemma_served_types, served};
use crate::rows::{
    id_with_hash, ids_ascend, lemma_hash_absent, lemma_hash_at, lemma_hash_found,
    lemma_newest_first_exists, lemma_row_absent, lemma_row_found, lemma_without_absent_id,
    lemma_without_id_at, newest, newest_first, row_with_id, touched, RowView,
};
use crate::server::{
    after_request, missing_text, plain, reply_to, settled_suppress, ReplyView, RestorationView,
};
use crate::suppress::SUPPRESS_TTL;
use crate::text::{lemma_text_before_order, text_before};
use crate::time::Moment;
use crate::watcher::{
    after_ready, entry_for, kind_of_payloads, ready_outcome, CaptureView, DaemonView, OutcomeView,
};

verus! {

// ---------------------------------------------------------------------------
// Answers
// ---------------------------------------------------------------------------

/// Listing, decoding and pinging change nothing.
pub proof fn law_reading_changes_nothing(db: DatabaseView, request: Request, stamp: Seq<char>)
    requires
        request is List || request is Decode || request is Ping,
    ensures
        after_request(db, request, stamp) == db,
{
}

/// Deleting or restoring an entry that is not there is refused by name, and changes nothing.
pub proof fn law_missing_entry_is_refused(
    db: DatabaseView,
    request: Request,
    id: i64,
    now: (i64, u32),
    stamp: Seq<char>,
)
    requires
        request == (Request::Delete { id }) || request == (Request::Restore { id }),
        row_with_id(db.rows, id) is None,
    ensures
        reply_to(db, request, now) == plain(ResponseView::Error { message: missing_text(id) }),
        after_request(db, request, stamp) == db,
{
    lemma_row_absent(db.rows, id);
    lemma_without_absent_id(db.rows, id);
    assert(touched(db.rows, id, stamp) =~= db.rows);
}

/// After an entry was deleted, it can be neither decoded nor restored nor deleted again.
pub proof fn law_deleted_entry_is_unreachable(
    db: DatabaseView,
    id: i64,
    now: (i64, u32),
    stamp: Seq<char>,
)
    requires
        sound(db),
    ensures
        ({
            let after = after_request(db, Request::Delete { id }, stamp);
            let refused = plain(ResponseView::Error { message: missing_text(id) });
            &&& reply_to(after, Request::Restore { id }, now) == refused
            &&& reply_to(after, Request::Delete { id }, now) == refused
            &&& payloads_of(after.rows, id) == Seq::<PayloadView>::empty()
        }),
{
    law_deleted_entry_is_gone(db.rows, id);
}

/// After the history was cleared, nothing is listed.
pub proof fn law_cleared_history_is_empty(
    db: DatabaseView,
    limit: Option<usize>,
    now: (i64, u32),
    stamp: Seq<char>,
)
    ensures
        ({
            let after = after_request(db, Request::Clear, stamp);
            &&& after.rows == Seq::<RowView>::empty()
            &&& reply_to(after, Request::List { limit }, now) matches ReplyView {
                response: ResponseView::List { entries },
                restore: None,
            } && entries.len() == 0
        }),
{
    let after = after_request(db, Request::Clear, stamp);
    assert(ids_ascend(after.rows));
    lemma_newest_first_exists(after.rows);
}

/// Ids are never given out again: the last id never goes back, and a new entry gets the next one.
pub proof fn law_ids_are_never_reused(
    db: DatabaseView,
    entry: NewEntryView,
    request: Request,
    stamp: Seq<char>,
)
    requires
        sound(db),
    ensures
        after_request(db, request, stamp).last_id == db.last_id,
        after_insert(db, entry, stamp).last_id >= db.last_id,
        id_with_hash(db.rows, entry.hash) is None ==> (insert_result(db, entry) matches Ok(id)
            ==> id > db.last_id && id == after_insert(db, entry, stamp).last_id),
{
}

/// Whatever is asked or recorded, the history stays sound: ids ascend and none is beyond the last
/// one given out, and no two rows have the same hash.
pub proof fn law_history_stays_sound(
    db: DatabaseView,
    entry: NewEntryView,
    request: Request,
    stamp: Seq<char>,
)
    requires
        sound(db),
    ensures
        sound(after_insert(db, entry, stamp)),
        sound(after_request(db, request, stamp)),
{
    lemma_insert_sound(db, entry, stamp);
    lemma_request_sound(db, request, stamp);
}

proof fn lemma_insert_sound(db: DatabaseView, entry: NewEntryView, stamp: Seq<char>)
    requires
        sound(db),
    ensures
        sound(after_insert(db, entry, stamp)),
{
    let after = after_insert(db, entry, stamp);
    if id_with_hash(db.rows, entry.hash) is Some {
        let k = lemma_hash_found(db.rows, entry.hash);
        law_known_entry_is_refreshed(db, entry, stamp, k);
        assert forall|i: int| 0 <= i < db.rows.len() implies after.rows[i].id == (
        #[trigger] db.rows[i]).id && after.rows[i].hash == db.rows[i].hash by {
            assert(i == k || after.rows[i] == db.rows[i]);
        }
        assert forall|i: int, j: int| 0 <= i < j < after.rows.len() implies after.rows[i].id
            < after.rows[j].id && after.rows[i].hash != after.rows[j].hash by {
            assert(db.rows[i].id < db.rows[j].id && db.rows[i].hash != db.rows[j].hash);
        }
        assert forall|i: int| 0 <= i < after.rows.len() implies #[trigger] after.rows[i].id
            <= after.last_id by {
            assert(db.rows[i].id <= db.last_id);
        }
    } else if db.last_id < i64::MAX {
        let id = (db.last_id + 1) as i64;
        let row = new_row(entry, id, stamp);
        let rows = db.rows.push(row);
        law_new_entry_is_added(db, entry, stamp);
        lemma_hash_absent(db.rows, entry.hash);
        assert forall|i: int, j: int| 0 <= i < j < rows.len() implies rows[i].hash
            != rows[j].hash by {
            if j < db.rows.len() {
                assert(db.rows[i].hash != db.rows[j].hash);
            } else {
                assert(db.rows[i].hash != entry.hash);
            }
        }
        law_oldest_are_dropped(rows, db.max_entries as nat);
        assert forall|i: int| 0 <= i < after.rows.len() implies #[trigger] after.rows[i].id
            <= id by {
            assert(after.rows.contains(after.rows[i]));
            lemma_newest_among(rows, db.max_entries as nat, after.rows[i]);
            let j = choose|j: int| 0 <= j < rows.len() && rows[j] == after.rows[i];
            if j < db.rows.len() {
                assert(db.rows[j].id < id);
            }
        }
    }
}

proof fn lemma_newest_among(rows: Seq<RowView>, n: nat, r: RowView)
    requires
        ids_ascend(rows),
        newest(rows, n).contains(r),
    ensures
        rows.contains(r),
{
    lemma_newest_first_exists(rows);
    let all = newest_first(rows);
    let i = choose|i: int| 0 <= i < newest(rows, n).len() && newest(rows, n)[i] == r;
    assert(all[i] == r);
    assert(all.contains(r));
}

proof fn lemma_request_sound(db: DatabaseView, request: Request, stamp: Seq<char>)
    requires
        sound(db),
    ensures
        sound(after_request(db, request, stamp)),
{
    let after = after_request(db, request, stamp);
    match request {
        Request::Delete { id } => {
            law_deleted_entry_is_gone(db.rows, id);
            if row_with_id(db.rows, id) is Some {
                let k = lemma_row_found(db.rows, id);
                lemma_without_id_at(db.rows, k);
                assert forall|i: int, j: int| 0 <= i < j < after.rows.len() implies after.rows[i].hash
                    != after.rows[j].hash by {
                    let oi = if i < k { i } else { i + 1 };
                    let oj = if j < k { j } else { j + 1 };
                    assert(after.rows[i] == db.rows[oi] && after.rows[j] == db.rows[oj]);
                }
                assert forall|i: int| 0 <= i < after.rows.len() implies #[trigger] after.rows[i].id
                    <= after.last_id by {
                    let oi = if i < k { i } else { i + 1 };
                    assert(after.rows[i] == db.rows[oi]);
                }
            }
        },
        Request::Restore { id } => {
            assert forall|i: int| 0 <= i < db.rows.len() implies after.rows[i].id == (
            #[trigger] db.rows[i]).id && after.rows[i].hash == db.rows[i].hash by {}
            assert forall|i: int, j: int| 0 <= i < j < after.rows.len() implies after.rows[i].id
                < after.rows[j].id && after.rows[i].hash != after.rows[j].hash by {
                assert(db.rows[i].id < db.rows[j].id && db.rows[i].hash != db.rows[j].hash);
            }
            assert forall|i: int| 0 <= i < after.rows.len() implies #[trigger] after.rows[i].id
                <= after.last_id by {
                assert(db.rows[i].id <= db.last_id);
            }
        },
        _ => {},
    }
}

// ---------------------------------------------------------------------------
// Recording
// ---------------------------------------------------------------------------

/// An offer that is too large, or has no bytes, changes nothing.
pub proof fn law_skipped_offer_changes_nothing(
    daemon: DaemonView,
    capture: CaptureView,
    now: (i64, u32),
    moment: Moment,
)
    requires
        capture.too_large || capture.payloads.len() == 0,
    ensures
        ready_outcome(daemon, capture, now, moment) == (if capture.too_large {
            OutcomeView::TooLarge
        } else {
            OutcomeView::Empty
        }),
        after_ready(daemon, capture, now, moment) == daemon,
{
}

/// Whether a row has payloads in normal form and is found under their hash.
pub open spec fn is_addressed(row: RowView) -> bool {
    &&& row.hash == hash_text(row.payloads)
    &&& is_normal_form(row.payloads, row.payloads)
}

/// Whether all rows have payloads in normal form and are found under their hashes.
pub open spec fn addressed(rows: Seq<RowView>) -> bool {
    forall|i: int| 0 <= i < rows.len() ==> is_addressed(#[trigger] rows[i])
}

/// The daemon keeps entries under the hashes of their payloads, whatever is recorded or asked.
pub proof fn law_entries_stay_addressed(
    daemon: DaemonView,
    capture: CaptureView,
    now: (i64, u32),
    moment: Moment,
    request: Request,
    stamp: Seq<char>,
)
    requires
        sound(daemon.db),
        addressed(daemon.db.rows),
    ensures
        addressed(after_ready(daemon, capture, now, moment).db.rows),
        addressed(after_request(daemon.db, request, stamp).rows),
{
    let db = daemon.db;
    let payloads = normal_form(capture.payloads);
    let hash = hash_text(payloads);
    let kind = kind_of_payloads(payloads);
    let entry = entry_for(hash, kind, label_text(kind, payloads), payloads, now);
    let text = rfc3339_text(now.0, now.1);
    law_normal_form_exists(capture.payloads);
    law_normal_form_idempotent(capture.payloads, payloads);
    lemma_insert_addressed(db, entry, text);
    let after = after_request(db, request, stamp);
    match request {
        Request::Delete { id } => {
            law_deleted_entry_is_gone(db.rows, id);
            assert forall|i: int| 0 <= i < after.rows.len() implies is_addressed(
                #[trigger] after.rows[i],
            ) by {
                assert(after.rows.contains(after.rows[i]));
                let j = choose|j: int| 0 <= j < db.rows.len() && db.rows[j] == after.rows[i];
                assert(is_addressed(db.rows[j]));
            }
        },
        Request::Restore { id } => {
            assert forall|i: int| 0 <= i < after.rows.len() implies is_addressed(
                #[trigger] after.rows[i],
            ) by {
                assert(is_addressed(db.rows[i]));
            }
        },
        _ => {},
    }
}

proof fn lemma_insert_addressed(db: DatabaseView, entry: NewEntryView, stamp: Seq<char>)
    requires
        sound(db),
        addressed(db.rows),
        entry.hash == hash_text(entry.payloads),
        is_normal_form(entry.payloads, entry.payloads),
    ensures
        addressed(after_insert(db, entry, stamp).rows),
{
    let after = after_insert(db, entry, stamp);
    if id_with_hash(db.rows, entry.hash) is Some {
        assert forall|i: int| 0 <= i < after.rows.len() implies is_addressed(
            #[trigger] after.rows[i],
        ) by {
            assert(is_addressed(db.rows[i]));
        }
    } else if db.last_id < i64::MAX {
        let rows = db.rows.push(new_row(entry, (db.last_id + 1) as i64, stamp));
        law_new_entry_is_added(db, entry, stamp);
        law_oldest_are_dropped(rows, db.max_entries as nat);
        assert forall|i: int| 0 <= i < after.rows.len() implies is_addressed(
            #[trigger] after.rows[i],
        ) by {
            assert(after.rows.contains(after.rows[i]));
            lemma_newest_among(rows, db.max_entries as nat, after.rows[i]);
            let j = choose|j: int| 0 <= j < rows.len() && rows[j] == after.rows[i];
            if j < db.rows.len() {
                assert(is_addressed(db.rows[j]));
            }
        }
    }
}

/// No two entries of a history hold the same payloads.
pub proof fn law_no_two_entries_are_alike(db: DatabaseView, i: int, j: int)
    requires
        sound(db),
        addressed(db.rows),
        0 <= i < j < db.rows.len(),
    ensures
        exists|p: PayloadView| #[trigger]
            db.rows[i].payloads.contains(p) != db.rows[j].payloads.contains(p),
{
    let (a, b) = (db.rows[i], db.rows[j]);
    assert(is_addressed(a) && is_addressed(b));
    if forall|p: PayloadView| #[trigger] a.payloads.contains(p) == b.payloads.contains(p) {
        law_normal_form_unique(a.payloads, b.payloads, a.payloads, b.payloads);
        assert(a.hash != b.hash);
    }
}

/// Whether two offers hold the same payloads, whatever their order and however often each is.
pub open spec fn same_payloads(a: Seq<PayloadView>, b: Seq<PayloadView>) -> bool {
    forall|p: PayloadView| #[trigger] a.contains(p) <==> b.contains(p)
}

/// An offer that is read twice is one entry: the second time, as long as the entry is still there,
/// it is refreshed and no entry is added.
pub proof fn law_same_offer_is_one_entry(
    daemon: DaemonView,
    first: CaptureView,
    second: CaptureView,
    now: (i64, u32),
    moment: Moment,
    later: (i64, u32),
    later_moment: Moment,
)
    requires
        sound(daemon.db),
        same_payloads(first.payloads, second.payloads),
        !second.too_large,
        ready_outcome(daemon, first, now, moment) is Stored,
        id_with_hash(
            after_ready(daemon, first, now, moment).db.rows,
            hash_text(normal_form(first.payloads)),
        ) is Some,
    ensures
        ({
            let after = after_ready(daemon, first, now, moment);
            let again = after_ready(after, second, later, later_moment);
            &&& ready_outcome(after, second, later, later_moment) == ready_outcome(
                daemon,
                first,
                now,
                moment,
            )
            &&& again.db.rows.len() == after.db.rows.len()
            &&& forall|i: int|
                0 <= i < after.db.rows.len() ==> again.db.rows[i].id == (
                #[trigger] after.db.rows[i]).id && again.db.rows[i].created_at
                    == after.db.rows[i].created_at && again.db.rows[i].payloads
                    == after.db.rows[i].payloads
        }),
{
    law_normal_form_ignores_order(first.payloads, second.payloads);
    let payloads = normal_form(first.payloads);
    let hash = hash_text(payloads);
    let kind = kind_of_payloads(payloads);
    let label = label_text(kind, payloads);
    let after = after_ready(daemon, first, now, moment);
    let again = after_ready(after, second, later, later_moment);
    let entry = entry_for(hash, kind, label, payloads, now);
    let entry2 = entry_for(hash, kind, label, payloads, later);
    let stamp = rfc3339_text(now.0, now.1);
    assert(second.payloads.len() > 0) by {
        assert(first.payloads.contains(first.payloads[0]));
        assert(second.payloads.contains(first.payloads[0]));
    }
    lemma_insert_sound(daemon.db, entry, stamp);
    let k = lemma_hash_found(after.db.rows, hash);
    law_known_entry_is_refreshed(after.db, entry2, rfc3339_text(later.0, later.1), k);
    if id_with_hash(daemon.db.rows, hash) is Some {
        let j = lemma_hash_found(daemon.db.rows, hash);
        law_known_entry_is_refreshed(daemon.db, entry, stamp, j);
        lemma_hash_at(after.db.rows, j);
    } else {
        let id = (daemon.db.last_id + 1) as i64;
        let row = new_row(entry, id, stamp);
        let rows = daemon.db.rows.push(row);
        law_new_entry_is_added(daemon.db, entry, stamp);
        law_oldest_are_dropped(rows, daemon.db.max_entries as nat);
        assert(after.db.rows.contains(after.db.rows[k]));
        lemma_newest_among(rows, daemon.db.max_entries as nat, after.db.rows[k]);
        let j = choose|j: int| 0 <= j < rows.len() && rows[j] == after.db.rows[k];
        if j < daemon.db.rows.len() {
            lemma_hash_absent(daemon.db.rows, hash);
            assert(daemon.db.rows[j].hash != hash);
        }
    }
    assert forall|i: int| 0 <= i < after.db.rows.len() implies again.db.rows[i].id == (
    #[trigger] after.db.rows[i]).id && again.db.rows[i].created_at == after.db.rows[i].created_at
        && again.db.rows[i].payloads == after.db.rows[i].payloads by {
        assert(i == k || again.db.rows[i] == after.db.rows[i]);
    }
}

/// Offers that hold different payloads are different entries, as long as SHA-256 does not give
/// their two messages the same digest though they differ.
pub proof fn law_different_offers_are_different_entries(
    daemon: DaemonView,
    first: CaptureView,
    second: CaptureView,
    now: (i64, u32),
    moment: Moment,
    later: (i64, u32),
    later_moment: Moment,
)
    requires
        sound(daemon.db),
        normal_form(first.payloads) != normal_form(second.payloads),
        ({
            let (m1, m2) = (
                hash_input(normal_form(first.payloads)),
                hash_input(normal_form(second.payloads)),
            );
            sha256_digest(m1) == sha256_digest(m2) ==> m1 == m2
        }),
        ready_outcome(daemon, first, now, moment) is Stored,
        ready_outcome(
            after_ready(daemon, first, now, moment),
            second,
            later,
            later_moment,
        ) is Stored,
    ensures
        ready_outcome(daemon, first, now, moment)->Stored_id != ready_outcome(
            after_ready(daemon, first, now, moment),
            second,
            later,
            later_moment,
        )->Stored_id,
{
    let (p1, p2) = (normal_form(first.payloads), normal_form(second.payloads));
    let (h1, h2) = (hash_text(p1), hash_text(p2));
    law_normal_form_exists(first.payloads);
    law_normal_form_exists(second.payloads);
    law_normal_form_idempotent(first.payloads, p1);
    law_normal_form_idempotent(second.payloads, p2);
    if h1 == h2 {
        law_hash_identifies_offer(p1, p2);
        lemma_same_payloads(p1, p2);
        law_normal_form_unique(p1, p2, p1, p2);
    }
    let db = daemon.db;
    let after = after_ready(daemon, first, now, moment).db;
    let kind = kind_of_payloads(p1);
    let entry = entry_for(h1, kind, label_text(kind, p1), p1, now);
    let stamp = rfc3339_text(now.0, now.1);
    let id = insert_result(db, entry)->Ok_0;
    lemma_insert_sound(db, entry, stamp);
    if id_with_hash(db.rows, h1) is Some {
        let k = lemma_hash_found(db.rows, h1);
        law_known_entry_is_refreshed(db, entry, stamp, k);
        assert(db.rows[k].id <= db.last_id);
    } else {
        law_new_entry_is_added(db, entry, stamp);
    }
    if id_with_hash(after.rows, h2) is Some {
        let j = lemma_hash_found(after.rows, h2);
        if after.rows[j].id == id {
            if id_with_hash(db.rows, h1) is Some {
                let k = lemma_hash_found(db.rows, h1);
                assert(after.rows[k].id == id && after.rows[k].hash == h1);
                if j < k {
                    assert(after.rows[j].id < after.rows[k].id);
                } else if k < j {
                    assert(after.rows[k].id < after.rows[j].id);
                }
            } else {
                let rows = db.rows.push(new_row(entry, id, stamp));
                law_oldest_are_dropped(rows, db.max_entries as nat);
                assert(after.rows.contains(after.rows[j]));
                lemma_newest_among(rows, db.max_entries as nat, after.rows[j]);
                let i = choose|i: int| 0 <= i < rows.len() && rows[i] == after.rows[j];
                if i < db.rows.len() {
                    assert(db.rows[i].id < id);
                }
            }
        }
    }
}

// ---------------------------------------------------------------------------
// Restoring
// ---------------------------------------------------------------------------

/// What is served of a normal form.
proof fn lemma_served_normal_form(input: Seq<PayloadView>, out: Seq<PayloadView>)
    requires
        is_normal_form(input, out),
    ensures
        forall|p: PayloadView| #[trigger] input.contains(p) ==> served(out).dom().contains(p.0),
        forall|mime: Seq<char>| #[trigger]
            served(out).dom().contains(mime) ==> input.contains((mime, served(out)[mime])),
{
    assert forall|p: PayloadView| #[trigger] input.contains(p) implies served(out).dom().contains(
        p.0,
    ) by {
        assert(covers(out, p));
        lemma_served_types(out, p.0);
    }
    assert forall|mime: Seq<char>| #[trigger] served(out).dom().contains(mime) implies input.contains(
        (mime, served(out)[mime]),
    ) by {
        lemma_served_types(out, mime);
        let i = choose|i: int| 0 <= i < out.len() && #[trigger] out[i].0 == mime;
        assert forall|j: int| i < j < out.len() implies #[trigger] out[j].0 != out[i].0 by {
            assert(text_before(out[i].0, out[j].0));
            lemma_text_before_order(out[i].0, out[j].0, out[i].0);
        }
        lemma_served(out, i);
        assert(input.contains(out[i]));
    }
}

/// An entry that was recorded is restored with every MIME type that was read, each with bytes that
/// were read for it: as long as a new entry is not dropped at once, asking for it to be restored
/// has exactly its payloads offered.
pub proof fn law_restore_gives_back_everything(
    daemon: DaemonView,
    capture: CaptureView,
    now: (i64, u32),
    moment: Moment,
    later: (i64, u32),
)
    requires
        sound(daemon.db),
        ready_outcome(daemon, capture, now, moment) is Stored,
        ({
            let payloads = normal_form(capture.payloads);
            let kind = kind_of_payloads(payloads);
            let hash = hash_text(payloads);
            let row = new_row(
                entry_for(hash, kind, label_text(kind, payloads), payloads, now),
                (daemon.db.last_id + 1) as i64,
                rfc3339_text(now.0, now.1),
            );
            &&& id_with_hash(daemon.db.rows, hash) is None
            &&& newest(daemon.db.rows.push(row), daemon.db.max_entries as nat).contains(row)
        }),
    ensures
        ({
            let payloads = normal_form(capture.payloads);
            let id = (daemon.db.last_id + 1) as i64;
            let after = after_ready(daemon, capture, now, moment);
            &&& ready_outcome(daemon, capture, now, moment)->Stored_id == id
            &&& reply_to(after.db, Request::Restore { id }, later) == (ReplyView {
                response: ResponseView::Done,
                restore: Some(RestorationView { hash: hash_text(payloads), payloads }),
            })
            &&& forall|p: PayloadView| #[trigger]
                capture.payloads.contains(p) ==> served(payloads).dom().contains(p.0)
            &&& forall|mime: Seq<char>| #[trigger]
                served(payloads).dom().contains(mime) ==> capture.payloads.contains(
                    (mime, served(payloads)[mime]),
                )
        }),
{
    let payloads = normal_form(capture.payloads);
    let kind = kind_of_payloads(payloads);
    let hash = hash_text(payloads);
    let entry = entry_for(hash, kind, label_text(kind, payloads), payloads, now);
    let stamp = rfc3339_text(now.0, now.1);
    assert(insert_result(daemon.db, entry) is Ok);
    law_read_back(daemon.db, entry, stamp);
    law_normal_form_exists(capture.payloads);
    lemma_served_normal_form(capture.payloads, payloads);
}

/// An entry that was restored is not recorded again when it comes back over the clipboard within
/// the time allowed: the offer is recognised, whatever the order of its payloads, the history
/// stays as it is, and nothing is waited for any longer.
pub proof fn law_restored_entry_is_not_recorded(
    daemon: DaemonView,
    id: i64,
    now: (i64, u32),
    restored: Moment,
    capture: CaptureView,
    later: (i64, u32),
    seen: Moment,
)
    requires
        row_with_id(daemon.db.rows, id) matches Some(row) && is_addressed(row) && same_payloads(
            row.payloads,
            capture.payloads,
        ) && message_len(row.payloads) < SHA256_LIMIT,
        !capture.too_large,
        capture.payloads.len() > 0,
        restored.nanos + SUPPRESS_TTL <= u128::MAX,
        seen.nanos <= restored.nanos + SUPPRESS_TTL,
    ensures
        ({
            let request = Request::Restore { id };
            let reply = reply_to(daemon.db, request, now);
            let after = DaemonView {
                db: after_request(daemon.db, request, rfc3339_text(now.0, now.1)),
                suppress: settled_suppress(reply, Ok(()), daemon.suppress, restored),
            };
            &&& ready_outcome(after, capture, later, seen) == (OutcomeView::Suppressed {
                hash: row_with_id(daemon.db.rows, id)->0.hash,
            })
            &&& after_ready(after, capture, later, seen) == (DaemonView {
                db: after.db,
                suppress: None,
            })
        }),
{
    let row = row_with_id(daemon.db.rows, id)->0;
    law_normal_form_ignores_order(row.payloads, capture.payloads);
    law_normal_form_exists(row.payloads);
    law_normal_form_unique(row.payloads, row.payloads, row.payloads, normal_form(row.payloads));
}

} // verus!
