//! What answering a request promises: what is listed, handed over, deleted and offered again, and
//! how an answer is shown.
use vstd::prelude::*;

use crate::cli::{entry_line, line_of, output_of, request_of, Command, OutputView, DEFAULT_LIMIT};
use crate::db::{fit_base64, in_base64, payloads_of, DatabaseView};
use crate::history::law_listing_is_newest_first;
use crate::ipc::{data_dir_of, joined, setting_or, Request, ResponseView};
use crate::order::views;
use crate::outside::{base64_text, clock_text, rfc3339_moment};
use crate::payload::PayloadView;
use crate::restore::{
    action_for, lemma_served, lemma_served_types, served, SourceActionView, SourceEvent,
};
use crate::retry::{
    is_disconnect, is_retryable, may_be_starting, BackendFailure, Cause, IoErrorKind,
    CONNECT_DELAY_MS, CONNECT_RETRIES, WATCHER_DELAY_MS,
};
use crate::rows::{
    ids_ascend, lemma_newest_first_exists, lemma_row_absent, lemma_row_at, lemma_row_found, newer,
    newest, newest_first, row_with_id, touched, without_id, RowView,
};
use crate::server::{
    after_request, missing_text, payloads_view, reply_to, restored_payloads, settled_response,
    settled_restore, settled_suppress, unreadable_text, ReplyView, RestorationView,
};
use crate::suppress::SuppressView;
use crate::text::{decimal, digit_char, signed_decimal};
use crate::time::Moment;
use crate::types::{kind_name, EntryKind, EntryView};

verus! {

// ---------------------------------------------------------------------------
// Listing
// ---------------------------------------------------------------------------

/// Whether a moment is what a stored text stands for, or `now` if it stands for none.
pub open spec fn is_moment_of(moment: (i64, u32), text: Seq<char>, now: (i64, u32)) -> bool {
    ||| rfc3339_moment(text) == Some(moment)
    ||| rfc3339_moment(text) is None && moment == now
}

/// Whether an entry shows a row: with its id, hash, kind, label, preview and size, its times and the
/// MIME types of its payloads, in their order.
pub open spec fn shows(entry: EntryView, row: RowView, now: (i64, u32)) -> bool {
    &&& entry.id == row.id
    &&& entry.hash == row.hash
    &&& kind_name(entry.kind) == row.kind || entry.kind == EntryKind::Other && forall|k: EntryKind|
        #[trigger] kind_name(k) != row.kind
    &&& entry.label == row.label
    &&& entry.preview == row.preview
    &&& entry.size == row.size as usize
    &&& is_moment_of(entry.created_at, row.created_at, now)
    &&& is_moment_of(entry.last_used_at, row.last_used_at, now)
    &&& entry.mime_types.len() == row.payloads.len()
    &&& forall|i: int|
        0 <= i < row.payloads.len() ==> #[trigger] entry.mime_types[i] == row.payloads[i].0
}

proof fn lemma_shows(row: RowView, now: (i64, u32))
    ensures
        shows(crate::db::entry_of(row, now), row, now),
{
    let entry = crate::db::entry_of(row, now);
    assert forall|k: EntryKind| entry.kind == EntryKind::Other && row.kind
        != kind_name(EntryKind::Other) implies #[trigger] kind_name(k) != row.kind by {}
}

/// Whether the rows in `shown` are those of `rows` that were used last, the one used last first.
pub open spec fn are_last_used(shown: Seq<RowView>, rows: Seq<RowView>) -> bool {
    &&& forall|i: int| 0 <= i < shown.len() ==> #[trigger] rows.contains(shown[i])
    &&& forall|i: int, j: int|
        0 <= i < j < shown.len() ==> newer(#[trigger] shown[i], #[trigger] shown[j])
    &&& forall|i: int, r: RowView|
        0 <= i < shown.len() && #[trigger] rows.contains(r) && !shown.contains(r) ==> newer(
            #[trigger] shown[i],
            r,
        )
}

/// Whether entries list the rows in `shown`, one by one.
pub open spec fn list_rows(
    entries: Seq<EntryView>,
    shown: Seq<RowView>,
    now: (i64, u32),
) -> bool {
    &&& entries.len() == shown.len()
    &&& forall|i: int| 0 <= i < shown.len() ==> shows(#[trigger] entries[i], shown[i], now)
}

/// A listing holds as many entries as are asked for, or all if there are fewer, and these are the
/// ones that were used last. If no number is given, it is 200.
pub proof fn law_listing_is_complete(db: DatabaseView, limit: Option<usize>, now: (i64, u32))
    requires
        ids_ascend(db.rows),
    ensures
        ({
            let n: int = if limit is Some {
                limit->0 as int
            } else {
                200
            };
            let reply = reply_to(db, Request::List { limit }, now);
            &&& reply.restore is None
            &&& reply.response is List
            &&& reply.response->entries.len() == (if n < db.rows.len() {
                n
            } else {
                db.rows.len() as int
            })
            &&& exists|shown: Seq<RowView>| #[trigger]
                are_last_used(shown, db.rows) && list_rows(reply.response->entries, shown, now)
        }),
{
    let n: nat = if limit is Some {
        limit->0 as nat
    } else {
        200
    };
    let entries = reply_to(db, Request::List { limit }, now).response->entries;
    law_listing_is_newest_first(db.rows, n, now);
    let shown = newest(db.rows, n);
    assert forall|i: int| 0 <= i < shown.len() implies #[trigger] db.rows.contains(shown[i]) by {
        let s = shown[i];
    }
    assert(are_last_used(shown, db.rows));
    assert forall|i: int| 0 <= i < shown.len() implies shows(
        #[trigger] entries[i],
        shown[i],
        now,
    ) by {
        let s = shown[i];
        lemma_shows(s, now);
    }
    assert(list_rows(entries, shown, now));
}

/// What is asked for in a shorter listing begins a longer one.
pub proof fn law_longer_listing_begins_alike(
    db: DatabaseView,
    short: usize,
    long: usize,
    now: (i64, u32),
)
    requires
        ids_ascend(db.rows),
        short <= long,
    ensures
        reply_to(db, Request::List { limit: Some(short) }, now).response->entries.is_prefix_of(
            reply_to(db, Request::List { limit: Some(long) }, now).response->entries,
        ),
{
    law_listing_is_newest_first(db.rows, short as nat, now);
    law_listing_is_newest_first(db.rows, long as nat, now);
    let (a, b) = (
        reply_to(db, Request::List { limit: Some(short) }, now).response->entries,
        reply_to(db, Request::List { limit: Some(long) }, now).response->entries,
    );
    let (s, l) = (newest(db.rows, short as nat), newest(db.rows, long as nat));
    lemma_newest_first_exists(db.rows);
    let all = newest_first(db.rows);
    assert forall|i: int| 0 <= i < a.len() implies a[i] == b.subrange(0, a.len() as int)[i] by {
        assert(s[i] == all[i] && l[i] == all[i]);
    }
    assert(a =~= b.subrange(0, a.len() as int));
}

// ---------------------------------------------------------------------------
// Handing over
// ---------------------------------------------------------------------------

/// The answer to a request to decode an entry holds all of its payloads, in their order: each MIME
/// type as it is stored, with the Base64 notation of its stored bytes.
pub proof fn law_decoding_is_complete(db: DatabaseView, k: int, now: (i64, u32))
    requires
        ids_ascend(db.rows),
        0 <= k < db.rows.len(),
        forall|i: int|
            0 <= i < db.rows[k].payloads.len() ==> (#[trigger] db.rows[k].payloads[i].1.len() + 2)
                / 3 * 4 <= isize::MAX,
    ensures
        ({
            let stored = db.rows[k].payloads;
            let reply = reply_to(db, Request::Decode { id: db.rows[k].id }, now);
            &&& reply.restore is None
            &&& reply.response is Decode
            &&& reply.response->payloads.len() == stored.len()
            &&& forall|i: int|
                0 <= i < stored.len() ==> (#[trigger] reply.response->payloads[i]).0 == stored[i].0
                    && reply.response->payloads[i].1 == base64_text(stored[i].1)
        }),
{
    lemma_row_at(db.rows, k);
    let stored = db.rows[k].payloads;
    assert(fit_base64(stored)) by {
        assert forall|i: int| 0 <= i < stored.len() implies crate::outside::base64_len(
            #[trigger] stored[i].1.len(),
        ) <= isize::MAX by {
            assert((db.rows[k].payloads[i].1.len() + 2) / 3 * 4 <= isize::MAX);
        }
    }
}

/// An entry with a payload that is too long for Base64 notation is not handed over, and of an entry
/// that does not exist there are no payloads.
pub proof fn law_undecodable(db: DatabaseView, k: int, i: int, id: i64, now: (i64, u32))
    requires
        ids_ascend(db.rows),
    ensures
        0 <= k < db.rows.len() && 0 <= i < db.rows[k].payloads.len() && (
        db.rows[k].payloads[i].1.len() + 2) / 3 * 4 > isize::MAX ==> reply_to(
            db,
            Request::Decode { id: db.rows[k].id },
            now,
        ) == (ReplyView {
            response: ResponseView::Error { message: "string or blob too big"@ },
            restore: None,
        }),
        (forall|j: int| 0 <= j < db.rows.len() ==> #[trigger] db.rows[j].id != id) ==> reply_to(
            db,
            Request::Decode { id },
            now,
        ) == (ReplyView {
            response: ResponseView::Decode { payloads: Seq::empty() },
            restore: None,
        }),
{
    if 0 <= k < db.rows.len() && 0 <= i < db.rows[k].payloads.len() && (
    db.rows[k].payloads[i].1.len() + 2) / 3 * 4 > isize::MAX {
        lemma_row_at(db.rows, k);
        let stored = db.rows[k].payloads;
        assert(crate::outside::base64_len(stored[i].1.len()) > isize::MAX);
        assert(!fit_base64(stored));
    }
    if forall|j: int| 0 <= j < db.rows.len() ==> #[trigger] db.rows[j].id != id {
        if row_with_id(db.rows, id) is Some {
            let j = lemma_row_found(db.rows, id);
        }
        assert(payloads_of(db.rows, id) =~= Seq::empty());
        assert(in_base64(payloads_of(db.rows, id)) =~= Seq::empty());
    }
}

/// Two histories that answer a request to decode an entry alike hold the same payloads for it.
pub proof fn law_decoding_tells_payloads(
    a: DatabaseView,
    b: DatabaseView,
    i: int,
    j: int,
    now: (i64, u32),
    later: (i64, u32),
)
    requires
        ids_ascend(a.rows),
        ids_ascend(b.rows),
        0 <= i < a.rows.len(),
        0 <= j < b.rows.len(),
        reply_to(a, Request::Decode { id: a.rows[i].id }, now).response is Decode,
        reply_to(a, Request::Decode { id: a.rows[i].id }, now).response == reply_to(
            b,
            Request::Decode { id: b.rows[j].id },
            later,
        ).response,
    ensures
        a.rows[i].payloads == b.rows[j].payloads,
{
    lemma_row_at(a.rows, i);
    lemma_row_at(b.rows, j);
    crate::notation::law_decoded_payloads_are_exact(a.rows[i].payloads, b.rows[j].payloads);
}

// ---------------------------------------------------------------------------
// Deleting, and offering again
// ---------------------------------------------------------------------------

/// A request to delete an entry is done if there is such an entry, which is then gone while all
/// others stay as they are, in their order; otherwise it is refused, and nothing changes.
pub proof fn law_deleting(db: DatabaseView, id: i64, now: (i64, u32), stamp: Seq<char>)
    requires
        ids_ascend(db.rows),
    ensures
        ({
            let known = exists|k: int| 0 <= k < db.rows.len() && #[trigger] db.rows[k].id == id;
            let reply = reply_to(db, Request::Delete { id }, now);
            let after = after_request(db, Request::Delete { id }, stamp);
            &&& reply.restore is None
            &&& known ==> reply.response == ResponseView::Done
            &&& !known ==> reply.response == (ResponseView::Error {
                message: "no entry with id "@ + signed_decimal(id as int),
            })
            &&& !known ==> after == db
            &&& after.rows == db.rows.filter(|r: RowView| r.id != id)
            &&& after.last_id == db.last_id
            &&& after.max_entries == db.max_entries
            &&& after.has_legacy_timestamp == db.has_legacy_timestamp
        }),
{
    let known = exists|k: int| 0 <= k < db.rows.len() && #[trigger] db.rows[k].id == id;
    if row_with_id(db.rows, id) is Some {
        let k = lemma_row_found(db.rows, id);
        assert(db.rows[k].id == id);
    } else {
        lemma_row_absent(db.rows, id);
        crate::rows::lemma_without_absent_id(db.rows, id);
    }
    let keep = |r: RowView| r.id != id;
    assert(without_id(db.rows, id) == db.rows.filter(keep));
}

/// Asking for all entries to be deleted leaves none, and their ids are not given out again.
pub proof fn law_clearing(db: DatabaseView, now: (i64, u32), stamp: Seq<char>)
    ensures
        reply_to(db, Request::Clear, now) == (ReplyView {
            response: ResponseView::Done,
            restore: None,
        }),
        after_request(db, Request::Clear, stamp) == (DatabaseView { rows: Seq::empty(), ..db }),
        reply_to(db, Request::Ping, now) == (ReplyView {
            response: ResponseView::Pong,
            restore: None,
        }),
        after_request(db, Request::Ping, stamp) == db,
        forall|limit: Option<usize>|
            #![trigger after_request(db, Request::List { limit }, stamp)]
            after_request(db, Request::List { limit }, stamp) == db,
        forall|id: i64|
            #![trigger after_request(db, Request::Decode { id }, stamp)]
            after_request(db, Request::Decode { id }, stamp) == db,
{
}

/// A request to offer an entry again has all of its payloads offered, as they are stored, under its
/// hash. Nothing but the time of its last use changes.
pub proof fn law_restoring(db: DatabaseView, k: int, now: (i64, u32), stamp: Seq<char>)
    requires
        ids_ascend(db.rows),
        0 <= k < db.rows.len(),
    ensures
        ({
            let request = Request::Restore { id: db.rows[k].id };
            let reply = reply_to(db, request, now);
            let after = after_request(db, request, stamp);
            &&& reply.response == ResponseView::Done
            &&& reply.restore is Some
            &&& reply.restore->0.hash == db.rows[k].hash
            &&& reply.restore->0.payloads == db.rows[k].payloads
            &&& after.rows == db.rows.update(
                k,
                RowView { last_used_at: stamp, ..db.rows[k] },
            )
            &&& after.last_id == db.last_id
            &&& after.max_entries == db.max_entries
            &&& after.has_legacy_timestamp == db.has_legacy_timestamp
        }),
{
    lemma_row_at(db.rows, k);
    let id = db.rows[k].id;
    let after = touched(db.rows, id, stamp);
    let want = db.rows.update(k, RowView { last_used_at: stamp, ..db.rows[k] });
    assert forall|i: int| 0 <= i < after.len() implies after[i] == want[i] by {
        if i < k {
            assert(db.rows[i].id < db.rows[k].id);
        } else if k < i {
            assert(db.rows[k].id < db.rows[i].id);
        }
    }
    assert(after =~= want);
}

/// A request to offer an entry again that does not exist is refused: nothing is offered, and nothing
/// changes.
pub proof fn law_restoring_nothing(db: DatabaseView, id: i64, now: (i64, u32), stamp: Seq<char>)
    requires
        forall|k: int| 0 <= k < db.rows.len() ==> #[trigger] db.rows[k].id != id,
    ensures
        reply_to(db, Request::Restore { id }, now) == (ReplyView {
            response: ResponseView::Error {
                message: "no entry with id "@ + signed_decimal(id as int),
            },
            restore: None,
        }),
        after_request(db, Request::Restore { id }, stamp) == db,
{
    if row_with_id(db.rows, id) is Some {
        let k = lemma_row_found(db.rows, id);
    }
    assert(touched(db.rows, id, stamp) =~= db.rows);
}

/// What is sent and offered in the end is what the reply says if the changes were written to disk,
/// and otherwise the failure to write them, with nothing offered. An entry that is offered is waited
/// for during the five seconds that follow.
pub proof fn law_settling(
    reply: ReplyView,
    written: Result<(), String>,
    suppress: SuppressView,
    now: Moment,
)
    requires
        now.nanos + 5_000_000_000 <= u128::MAX,
    ensures
        written is Ok ==> settled_response(reply, written) == reply.response,
        written is Ok ==> settled_restore(reply, written) == reply.restore,
        written matches Err(message) ==> settled_response(reply, written) == (ResponseView::Error {
            message: message@,
        }),
        written is Err ==> settled_restore(reply, written) is None,
        written is Err || reply.restore is None ==> settled_suppress(reply, written, suppress, now)
            == suppress,
        written is Ok && reply.restore is Some ==> settled_suppress(reply, written, suppress, now)
            == Some((reply.restore->0.hash, (now.nanos + 5_000_000_000) as u128)),
        forall|restoration: RestorationView| #[trigger]
            restored_payloads(Some(restoration)) == Some(restoration.payloads),
        restored_payloads(None) is None,
        forall|payloads: Vec<(String, Vec<u8>)>| #[trigger]
            payloads_view(Some(payloads)) == Some(views(payloads@)),
        payloads_view(None) is None,
        forall|reason: Seq<char>| #[trigger]
            unreadable_text(reason) == "parse error: "@ + reason,
        forall|id: i64| #[trigger]
            missing_text(id) == "no entry with id "@ + signed_decimal(id as int),
{
}

// ---------------------------------------------------------------------------
// Serving
// ---------------------------------------------------------------------------

/// Who asks for a MIME type that is offered gets exactly the bytes of its payload, all of them; of
/// several payloads of a type the last one counts. Who asks for another type gets nothing, and the
/// offer goes on.
pub proof fn law_served_bytes_are_exact(payloads: Seq<PayloadView>, k: int, mime: String)
    ensures
        0 <= k < payloads.len() && payloads[k].0 == mime@ && (forall|j: int|
            k < j < payloads.len() ==> #[trigger] payloads[j].0 != mime@) ==> action_for(
            served(payloads),
            SourceEvent::Send { mime_type: mime },
        ) == (SourceActionView::Write { data: payloads[k].1 }),
        (forall|j: int| 0 <= j < payloads.len() ==> #[trigger] payloads[j].0 != mime@)
            ==> action_for(served(payloads), SourceEvent::Send { mime_type: mime })
            == SourceActionView::Refuse,
        action_for(served(payloads), SourceEvent::Cancelled) == SourceActionView::Stop,
        action_for(served(payloads), SourceEvent::Finished) == SourceActionView::Stop,
{
    lemma_served_types(payloads, mime@);
    if 0 <= k < payloads.len() && payloads[k].0 == mime@ && (forall|j: int|
        k < j < payloads.len() ==> #[trigger] payloads[j].0 != mime@) {
        lemma_served(payloads, k);
    }
}

/// The types that are offered are those of the payloads.
pub proof fn law_served_types(payloads: Seq<PayloadView>, mime: Seq<char>)
    ensures
        served(payloads).dom().contains(mime) <==> exists|i: int|
            0 <= i < payloads.len() && #[trigger] payloads[i].0 == mime,
{
    lemma_served_types(payloads, mime);
}

// ---------------------------------------------------------------------------
// Numbers
// ---------------------------------------------------------------------------

/// Decimal notation: a number below ten is its digit, each further digit is worth ten times less
/// than the one before it, and a minus sign stands before the digits of a negative number.
pub proof fn law_decimal(q: nat, d: nat, c: char, n: int)
    requires
        d < 10,
        c as int == '0' as int + d,
    ensures
        decimal(d) == seq![c],
        q > 0 ==> decimal(q * 10 + d) == decimal(q).push(c),
        n >= 0 ==> signed_decimal(n) == decimal(n as nat),
        n < 0 ==> signed_decimal(n) == seq!['-'] + decimal((-n) as nat),
{
    assert(digit_char(d) == c);
    assert((q * 10 + d) / 10 == q && (q * 10 + d) % 10 == d);
}

// ---------------------------------------------------------------------------
// The client
// ---------------------------------------------------------------------------

/// A command asks for what it says: a listing of as many entries as it names, or that something is
/// done about the entry that it names.
pub proof fn law_requests(limit: usize, json: bool, id: i64)
    ensures
        request_of(Command::List { limit, json }) == (Request::List { limit: Some(limit) }),
        request_of(Command::Decode { id }) == (Request::Decode { id }),
        request_of(Command::Delete { id }) == (Request::Delete { id }),
        request_of(Command::Restore { id }) == (Request::Restore { id }),
        request_of(Command::Clear) == Request::Clear,
        request_of(Command::Ping) == Request::Ping,
        DEFAULT_LIMIT == 50,
{
}

/// What is shown of an answer is all of it: every entry of a listing, as a line of its own or as it
/// is, in the order of the listing, and every payload.
pub proof fn law_answers_are_shown(
    command: Command,
    limit: usize,
    id: i64,
    entries: Seq<EntryView>,
    payloads: Seq<(Seq<char>, Seq<char>)>,
    message: Seq<char>,
)
    ensures
        output_of(Command::List { limit, json: true }, ResponseView::List { entries }) == (
        OutputView::Entries { entries }),
        ({
            let shown = output_of(
                Command::List { limit, json: false },
                ResponseView::List { entries },
            );
            &&& shown is Lines
            &&& shown->lines.len() == entries.len()
            &&& forall|i: int|
                0 <= i < entries.len() ==> #[trigger] shown->lines[i] == line_of(
                    entries[i].id,
                    entries[i].kind,
                    clock_text(entries[i].last_used_at.0, entries[i].last_used_at.1),
                    entries[i].label,
                ) && shown->lines[i] == entry_line(entries[i])
        }),
        output_of(Command::Decode { id }, ResponseView::Decode { payloads }) == (
        OutputView::Payloads { payloads }),
        output_of(command, ResponseView::Error { message }) == (OutputView::Failure {
            message: "error: "@ + message,
        }),
        output_of(command, ResponseView::Pong) == (OutputView::Lines { lines: seq!["pong"@] }),
        output_of(command, ResponseView::Done) == OutputView::Nothing,
        !(command is List) ==> output_of(command, ResponseView::List { entries })
            == OutputView::Nothing,
        !(command is Decode) ==> output_of(command, ResponseView::Decode { payloads })
            == OutputView::Nothing,
{
}

/// The line that lists an entry holds its id, the name of its kind, a time and its label, two spaces
/// after each but the last. The id is filled up with spaces before it to six characters, the name
/// with spaces after it to five.
pub proof fn law_listed_line(
    id: i64,
    kind: EntryKind,
    clock: Seq<char>,
    label: Seq<char>,
    before: Seq<char>,
    after: Seq<char>,
)
    requires
        forall|i: int| 0 <= i < before.len() ==> #[trigger] before[i] == ' ',
        forall|i: int| 0 <= i < after.len() ==> #[trigger] after[i] == ' ',
        before.len() == 0 && signed_decimal(id as int).len() >= 6 || before.len() + signed_decimal(
            id as int,
        ).len() == 6,
        after.len() + kind_name(kind).len() == 5,
    ensures
        line_of(id, kind, clock, label) == before + signed_decimal(id as int) + "  "@ + kind_name(
            kind,
        ) + after + "  "@ + clock + "  "@ + label,
{
    assert(crate::cli::spaces(6 - signed_decimal(id as int).len()) =~= before);
    assert(crate::cli::spaces(5 - kind_name(kind).len()) =~= after);
    assert(line_of(id, kind, clock, label) =~= before + signed_decimal(id as int) + "  "@
        + kind_name(kind) + after + "  "@ + clock + "  "@ + label);
}

// ---------------------------------------------------------------------------
// Paths and connections
// ---------------------------------------------------------------------------

/// A path goes on after exactly one slash, unless it begins with the name.
pub proof fn law_joined_paths(base: Seq<char>, name: Seq<char>)
    ensures
        joined(base + seq!['/'], name) == base + seq!['/'] + name,
        base.len() > 0 && base.last() != '/' ==> joined(base, name) == base + seq!['/'] + name,
        joined(Seq::empty(), name) == name,
        joined(base, name).subrange(
            joined(base, name).len() - name.len(),
            joined(base, name).len() as int,
        ) == name,
        base.is_prefix_of(joined(base, name)),
{
    assert((base + seq!['/']).last() == '/');
    assert(Seq::<char>::empty() + name =~= name);
    assert(base.push('/') + name =~= base + seq!['/'] + name);
    let j = joined(base, name);
    assert(j.subrange(j.len() - name.len(), j.len() as int) =~= name);
    assert(base =~= j.subrange(0, base.len() as int));
}

/// The history is kept in the data directory if one is set, else below the home directory, and
/// below `/tmp` without one.
pub proof fn law_data_directory(data_home: Option<&str>, home: Option<&str>)
    ensures
        data_home matches Some(d) ==> data_dir_of(data_home, home) == joined(d@, "mimeclip"@),
        data_home is None && home is Some ==> data_dir_of(data_home, home) == joined(
            joined(home->0@, ".local/share"@),
            "mimeclip"@,
        ),
        data_home is None && home is None ==> data_dir_of(data_home, home) == joined(
            joined("/tmp"@, ".local/share"@),
            "mimeclip"@,
        ),
        home matches Some(d) ==> setting_or(home, "/tmp"@) == d@,
        home is None ==> setting_or(home, "/tmp"@) == "/tmp"@,
{
}

/// The watcher connects again if there is no compositor yet, or if the connection was lost: it
/// broke, was reset, aborted or closed, or ended too early. A client waits for a daemon that is not
/// there or refuses the connection.
pub proof fn law_retried_failures(kind: IoErrorKind)
    ensures
        is_disconnect(kind) <==> !(kind is NotFound || kind is ConnectionRefused || kind is Other),
        is_retryable(Cause::NoCompositor),
        !is_retryable(Cause::Connect),
        !is_retryable(Cause::BadMessage),
        !is_retryable(Cause::Other),
        !is_retryable(Cause::Dispatch { failure: BackendFailure::Protocol }),
        !is_retryable(Cause::Backend { failure: BackendFailure::Protocol }),
        is_retryable(Cause::Dispatch { failure: BackendFailure::Io { kind } }) <==> is_disconnect(
            kind,
        ),
        is_retryable(Cause::Backend { failure: BackendFailure::Io { kind } }) <==> is_disconnect(
            kind,
        ),
        may_be_starting(kind) <==> kind is NotFound || kind is ConnectionRefused,
        !(may_be_starting(kind) && is_disconnect(kind)),
        WATCHER_DELAY_MS == 2_000,
        CONNECT_RETRIES == 5,
        CONNECT_DELAY_MS == 200,
{
}

} // verus!
