//! What keeping the history promises: how entries are ordered and told apart, what each change does
//! to the rows, and what is made of a table on disk.
use vstd::prelude::*;
use vstd::utf8::encode_utf8;

use crate::db::{
    adopted, after_insert, column_or_empty, entry_at, error_text, filled_row, filled_rows,
    insert_result, is_free, last_id_of, max_entries_of, mimes_of, new_row, sound, texts,
    writes_timestamp, DatabaseView, DbError, NewEntry, NewEntryView, StoredRow,
};
use crate::hash::{
    all_plain, frame, frames, hash_input, hash_text, is_outdated_hash, lemma_payload_order_total,
    message_len, payload_order, unescaped_hash_text,
};
use crate::history::{law_new_entry_is_added, law_oldest_are_dropped};
use crate::order::views;
use crate::outside::{hex_text, sha256_digest};
use crate::payload::{
    covers, is_normal_form, law_normal_form_exists, law_normal_form_unique, normal_form, PayloadView,
};
use crate::rows::{
    applied, applied_all, id_with_hash, ids_ascend, kept, lemma_applied_push, lemma_hash_at,
    lemma_hash_found, newer, ChangeView, EntryRow, Refreshed, RowView,
};
use crate::text::{
    bytes_before, decimal, digits_value, is_digit, lemma_bytes_before_irreflexive,
    lemma_text_before_order, parsed_usize, text_before,
};
use crate::types::{kind_name, kind_named, Entry, EntryView};

verus! {

// ---------------------------------------------------------------------------
// Order
// ---------------------------------------------------------------------------

/// Whether two byte strings first differ at a position, where the first one ends or has the smaller
/// byte.
pub open spec fn differ_upwards_at(a: Seq<u8>, b: Seq<u8>, k: int) -> bool {
    &&& 0 <= k <= a.len()
    &&& k < b.len()
    &&& a.take(k) == b.take(k)
    &&& k == a.len() || a[k] < b[k]
}

/// Byte strings are ordered by the first position at which they differ: the one that ends there or
/// has the smaller byte comes first.
pub proof fn law_byte_order(a: Seq<u8>, b: Seq<u8>)
    ensures
        bytes_before(a, b) <==> exists|k: int| differ_upwards_at(a, b, k),
    decreases a.len(),
{
    if bytes_before(a, b) {
        let k = lemma_first_difference(a, b);
    }
    if exists|k: int| differ_upwards_at(a, b, k) {
        let k = choose|k: int| differ_upwards_at(a, b, k);
        lemma_difference_decides(a, b, k);
    }
}

proof fn lemma_first_difference(a: Seq<u8>, b: Seq<u8>) -> (k: int)
    requires
        bytes_before(a, b),
    ensures
        differ_upwards_at(a, b, k),
    decreases a.len(),
{
    if a.len() == 0 || a[0] != b[0] {
        assert(a.take(0) =~= b.take(0));
        0
    } else {
        let k = lemma_first_difference(a.drop_first(), b.drop_first());
        assert(a.take(k + 1) =~= seq![a[0]] + a.drop_first().take(k));
        assert(b.take(k + 1) =~= seq![b[0]] + b.drop_first().take(k));
        k + 1
    }
}

proof fn lemma_difference_decides(a: Seq<u8>, b: Seq<u8>, k: int)
    requires
        differ_upwards_at(a, b, k),
    ensures
        bytes_before(a, b),
    decreases a.len(),
{
    if a.len() > 0 && k > 0 {
        assert(a.take(k)[0] == b.take(k)[0]);
        let (x, y) = (a.drop_first(), b.drop_first());
        assert(x.take(k - 1) =~= a.take(k).drop_first());
        assert(y.take(k - 1) =~= b.take(k).drop_first());
        lemma_difference_decides(x, y, k - 1);
    }
}

/// Texts are ordered by their encodings, and rows are listed by when they were last used, the latest
/// first; of rows that were used equally late, the one with the smaller id comes first.
pub proof fn law_listing_order(a: RowView, b: RowView)
    ensures
        text_before(a.last_used_at, b.last_used_at) <==> bytes_before(
            encode_utf8(a.last_used_at),
            encode_utf8(b.last_used_at),
        ),
        a.last_used_at != b.last_used_at ==> (newer(a, b) <==> bytes_before(
            encode_utf8(b.last_used_at),
            encode_utf8(a.last_used_at),
        )),
        a.last_used_at == b.last_used_at ==> (newer(a, b) <==> a.id < b.id),
{
    reveal(text_before);
    lemma_text_before_order(a.last_used_at, b.last_used_at, a.last_used_at);
}

// ---------------------------------------------------------------------------
// Normal form
// ---------------------------------------------------------------------------

/// The normal form of an offer has each of its MIME types once, in the order of the types, with bytes
/// that were offered for it, the first of them in byte order.
pub proof fn law_normal_form(input: Seq<PayloadView>)
    ensures
        ({
            let out = normal_form(input);
            &&& forall|i: int| 0 <= i < out.len() ==> #[trigger] input.contains(out[i])
            &&& forall|i: int, j: int|
                0 <= i < j < out.len() ==> (#[trigger] out[i]).0 != (#[trigger] out[j]).0
                    && bytes_before(encode_utf8(out[i].0), encode_utf8(out[j].0))
            &&& forall|k: int|
                0 <= k < input.len() ==> exists|i: int|
                    0 <= i < out.len() && out[i].0 == (#[trigger] input[k]).0
            &&& forall|i: int, k: int|
                0 <= i < out.len() && 0 <= k < input.len() && out[i].0 == input[k].0
                    ==> !bytes_before((#[trigger] input[k]).1, (#[trigger] out[i]).1)
        }),
{
    let out = normal_form(input);
    law_normal_form_exists(input);
    assert forall|i: int, j: int| 0 <= i < j < out.len() implies (#[trigger] out[i]).0 != (
    #[trigger] out[j]).0 && bytes_before(encode_utf8(out[i].0), encode_utf8(out[j].0)) by {
        assert(text_before(out[i].0, out[j].0));
        lemma_text_before_order(out[i].0, out[j].0, out[i].0);
        reveal(text_before);
    }
    assert forall|k: int| 0 <= k < input.len() implies exists|i: int|
        0 <= i < out.len() && out[i].0 == (#[trigger] input[k]).0 by {
        assert(input.contains(input[k]));
        assert(covers(out, input[k]));
    }
    assert forall|i: int, k: int|
        0 <= i < out.len() && 0 <= k < input.len() && out[i].0 == input[k].0 implies !bytes_before(
        (#[trigger] input[k]).1,
        (#[trigger] out[i]).1,
    ) by {
        assert(input.contains(input[k]));
        assert(covers(out, input[k]));
        let j = choose|j: int|
            0 <= j < out.len() && #[trigger] out[j].0 == input[k].0 && !bytes_before(
                input[k].1,
                out[j].1,
            );
        if i < j {
            assert(text_before(out[i].0, out[j].0));
        } else if j < i {
            assert(text_before(out[j].0, out[i].0));
        }
        lemma_text_before_order(out[i].0, out[j].0, out[i].0);
    }
}

/// An offer with each MIME type once, in the order of the types, is its own normal form.
pub proof fn law_ordered_offer_stays(input: Seq<PayloadView>)
    requires
        forall|i: int, j: int| 0 <= i < j < input.len() ==> text_before(input[i].0, input[j].0),
    ensures
        normal_form(input) == input,
{
    assert forall|i: int| 0 <= i < input.len() implies #[trigger] input.contains(input[i]) by {}
    assert forall|p: PayloadView| input.contains(p) implies #[trigger] covers(input, p) by {
        let i = choose|i: int| 0 <= i < input.len() && input[i] == p;
        assert(input[i].0 == p.0);
        lemma_bytes_before_irreflexive(p.1);
    }
    assert(is_normal_form(input, input));
    law_normal_form_exists(input);
    law_normal_form_unique(input, input, normal_form(input), input);
}

// ---------------------------------------------------------------------------
// Hashes
// ---------------------------------------------------------------------------

proof fn lemma_frames_push(payloads: Seq<PayloadView>, p: PayloadView)
    ensures
        frames(payloads.push(p), false) == frames(payloads, false) + frame(p, false),
    decreases payloads.len(),
{
    let all = payloads.push(p);
    if payloads.len() == 0 {
        assert(all.drop_first() =~= Seq::empty());
        assert(frames(all.drop_first(), false) =~= Seq::empty());
        assert(frames(all, false) =~= frames(payloads, false) + frame(p, false));
    } else {
        lemma_frames_push(payloads.drop_first(), p);
        assert(all.drop_first() =~= payloads.drop_first().push(p));
        assert(frames(all, false) =~= frames(payloads, false) + frame(p, false));
    }
}

proof fn lemma_frames_steps(payloads: Seq<PayloadView>, steps: Seq<Seq<u8>>)
    requires
        steps.len() == payloads.len() + 1,
        steps[0] == Seq::<u8>::empty(),
        forall|i: int|
            0 <= i < payloads.len() ==> steps[i + 1] == steps[i] + encode_utf8(
                (#[trigger] payloads[i]).0,
            ) + seq![0u8] + payloads[i].1 + seq![0u8],
    ensures
        frames(payloads, false) == steps.last(),
    decreases payloads.len(),
{
    if payloads.len() > 0 {
        let (head, last) = (payloads.drop_last(), payloads.last());
        let before = steps.drop_last();
        assert forall|i: int| 0 <= i < head.len() implies before[i + 1] == before[i] + encode_utf8(
            (#[trigger] head[i]).0,
        ) + seq![0u8] + head[i].1 + seq![0u8] by {
            assert(head[i] == payloads[i]);
        }
        lemma_frames_steps(head, before);
        lemma_frames_push(head, last);
        assert(payloads =~= head.push(last));
        assert(payloads[payloads.len() - 1] == last);
        assert(frames(payloads, false) =~= steps.last());
    }
}

/// The message that is hashed for an offer without NUL bytes, its MIME types in their order: for each
/// payload the encoding of its type and its bytes, a NUL byte after each. The hash is the SHA-256
/// digest of the message in hexadecimal notation. Tables may keep an offer with NUL bytes under the
/// digest of what would be that message.
pub proof fn law_hashed_message(payloads: Seq<PayloadView>, steps: Seq<Seq<u8>>)
    requires
        forall|i: int, j: int|
            0 <= i < j < payloads.len() ==> text_before(payloads[i].0, payloads[j].0),
        steps.len() == payloads.len() + 1,
        steps[0] == Seq::<u8>::empty(),
        forall|i: int|
            0 <= i < payloads.len() ==> steps[i + 1] == steps[i] + encode_utf8(
                (#[trigger] payloads[i]).0,
            ) + seq![0u8] + payloads[i].1 + seq![0u8],
    ensures
        (forall|i: int|
            0 <= i < payloads.len() ==> !encode_utf8((#[trigger] payloads[i]).0).contains(0)
                && !payloads[i].1.contains(0)) ==> hash_input(payloads) == steps.last(),
        hash_text(payloads) == hex_text(sha256_digest(hash_input(payloads))),
        message_len(payloads) == hash_input(payloads).len(),
        unescaped_hash_text(payloads) == hex_text(sha256_digest(steps.last())),
{
    crate::hash::lemma_hash_input_len(payloads);
    lemma_frames_steps(payloads, steps);
    lemma_payload_order_total();
    payloads.lemma_sort_by_ensures(payload_order());
    let sorted = payloads.sort_by(payload_order());
    assert(vstd::relations::sorted_by(payloads, payload_order()));
    vstd::seq_lib::lemma_sorted_unique(sorted, payloads, payload_order());
    assert(sorted == payloads);
    if forall|i: int|
        0 <= i < payloads.len() ==> !encode_utf8((#[trigger] payloads[i]).0).contains(0)
            && !payloads[i].1.contains(0) {
        assert(all_plain(payloads)) by {
            assert forall|i: int| 0 <= i < payloads.len() implies crate::hash::is_plain(
                #[trigger] payloads[i],
            ) by {
                let (t, d) = (encode_utf8(payloads[i].0), payloads[i].1);
                assert(!t.contains(0) && !d.contains(0));
                assert forall|j: int| 0 <= j < t.len() implies #[trigger] t[j] != 0 by {
                    assert(t.contains(t[j]));
                }
                assert forall|j: int| 0 <= j < d.len() implies #[trigger] d[j] != 0 by {
                    assert(d.contains(d[j]));
                }
            }
        }
    }
}

/// Only the hash of an offer that holds a NUL byte can be outdated, and it is if it is the digest of
/// its unescaped parts.
pub proof fn law_outdated_hash(payloads: Seq<PayloadView>, hash: Seq<char>, k: int)
    ensures
        0 <= k < payloads.len() && payloads[k].1.contains(0) && hash_input(payloads).len()
            < 0x2000_0000_0000_0000 ==> (is_outdated_hash(hash, payloads) <==> hash
            == unescaped_hash_text(payloads)),
        0 <= k < payloads.len() && encode_utf8(payloads[k].0).contains(0) && hash_input(
            payloads,
        ).len() < 0x2000_0000_0000_0000 ==> (is_outdated_hash(hash, payloads) <==> hash
            == unescaped_hash_text(payloads)),
        is_outdated_hash(hash, payloads) ==> exists|i: int|
            0 <= i < payloads.len() && (encode_utf8((#[trigger] payloads[i]).0).contains(0)
                || payloads[i].1.contains(0)),
{
    crate::hash::lemma_hash_input_len(payloads);
    if 0 <= k < payloads.len() && payloads[k].1.contains(0) {
        let j = choose|j: int| 0 <= j < payloads[k].1.len() && payloads[k].1[j] == 0;
        assert(!crate::hash::nul_free(payloads[k].1));
        assert(!crate::hash::is_plain(payloads[k]));
        assert(!all_plain(payloads));
    }
    if 0 <= k < payloads.len() && encode_utf8(payloads[k].0).contains(0) {
        let t = encode_utf8(payloads[k].0);
        let j = choose|j: int| 0 <= j < t.len() && t[j] == 0;
        assert(!crate::hash::nul_free(t));
        assert(!crate::hash::is_plain(payloads[k]));
        assert(!all_plain(payloads));
    }
    if is_outdated_hash(hash, payloads) {
        let i = choose|i: int|
            0 <= i < payloads.len() && !crate::hash::is_plain(#[trigger] payloads[i]);
        let (t, d) = (encode_utf8(payloads[i].0), payloads[i].1);
        if !crate::hash::nul_free(t) {
            let j = choose|j: int| 0 <= j < t.len() && #[trigger] t[j] == 0;
            assert(t.contains(0));
        } else {
            let j = choose|j: int| 0 <= j < d.len() && #[trigger] d[j] == 0;
            assert(d.contains(0));
        }
    }
}

// ---------------------------------------------------------------------------
// Changes
// ---------------------------------------------------------------------------

/// What each change does to a row: it touches only the row that it names, and of that only what it
/// says. A new row is put last, and nothing is left of rows that are deleted.
pub proof fn law_changes(
    rows: Seq<RowView>,
    i: int,
    id: i64,
    with: Refreshed,
    text: Seq<char>,
    other: Seq<char>,
)
    requires
        0 <= i < rows.len(),
    ensures
        ({
            let (touch, fill, hash, again) = (
                applied(rows, ChangeView::Touch { id, last_used_at: text }),
                applied(rows, ChangeView::Backfill { id, created_at: text, last_used_at: other }),
                applied(rows, ChangeView::Rehash { id, hash: text }),
                applied(rows, ChangeView::Refresh { id, with }),
            );
            &&& touch.len() == rows.len()
            &&& fill.len() == rows.len()
            &&& hash.len() == rows.len()
            &&& again.len() == rows.len()
            &&& rows[i].id != id ==> touch[i] == rows[i] && fill[i] == rows[i] && hash[i] == rows[i]
                && again[i] == rows[i]
            &&& rows[i].id == id ==> {
                &&& touch[i] == (RowView { last_used_at: text, ..rows[i] })
                &&& fill[i] == (RowView { created_at: text, last_used_at: other, ..rows[i] })
                &&& hash[i] == (RowView { hash: text, ..rows[i] })
                &&& again[i] == (RowView {
                    kind: with.kind,
                    label: with.label,
                    preview: with.preview,
                    size: with.size,
                    last_used_at: with.last_used_at,
                    ..rows[i]
                })
            }
        }),
        forall|row: RowView, timestamp: Option<Seq<char>>|
            #![trigger applied(rows, ChangeView::Insert { row, timestamp })]
            applied(rows, ChangeView::Insert { row, timestamp }) == rows.push(row),
        applied(rows, ChangeView::Clear) == Seq::<RowView>::empty(),
        applied(rows, ChangeView::Delete { id }) == rows.filter(|r: RowView| r.id != id),
{
    let keep = |r: RowView| r.id != id;
    assert(applied(rows, ChangeView::Delete { id }) == rows.filter(keep));
}

/// Changes are made one after the other.
pub proof fn law_changes_follow_each_other(
    rows: Seq<RowView>,
    changes: Seq<ChangeView>,
    change: ChangeView,
)
    ensures
        applied_all(rows, Seq::empty()) == rows,
        applied_all(rows, changes.push(change)) == applied(applied_all(rows, changes), change),
{
    lemma_applied_push(rows, changes, change);
}

/// A new row is written with the time of its creation as its timestamp if the table has that column,
/// and without one if it has not.
pub proof fn law_written_timestamp(row: RowView, timestamp: Option<Seq<char>>, change: ChangeView)
    ensures
        writes_timestamp(ChangeView::Insert { row, timestamp }, true) <==> timestamp == Some(
            row.created_at,
        ),
        writes_timestamp(ChangeView::Insert { row, timestamp }, false) <==> timestamp is None,
        !(change is Insert) ==> writes_timestamp(change, true) && writes_timestamp(change, false),
{
}

// ---------------------------------------------------------------------------
// Recording
// ---------------------------------------------------------------------------

/// A history is sound exactly if its ids ascend, up to the last one given out, and its hashes differ.
pub proof fn law_sound(db: DatabaseView)
    ensures
        sound(db) <==> {
            &&& forall|i: int, j: int|
                0 <= i < j < db.rows.len() ==> (#[trigger] db.rows[i]).id < (
                #[trigger] db.rows[j]).id && db.rows[i].hash != db.rows[j].hash
            &&& forall|i: int| 0 <= i < db.rows.len() ==> #[trigger] db.rows[i].id <= db.last_id
        },
{
    if forall|i: int, j: int|
        0 <= i < j < db.rows.len() ==> (#[trigger] db.rows[i]).id < (#[trigger] db.rows[j]).id
            && db.rows[i].hash != db.rows[j].hash {
        assert(ids_ascend(db.rows));
        assert(crate::rows::hashes_differ(db.rows));
    }
}

/// The row of a new entry holds what the entry is, and the moment it was recorded at as the time of
/// its creation and of its last use.
pub proof fn law_new_row(entry: NewEntryView, id: i64, stamp: Seq<char>)
    ensures
        new_row(entry, id, stamp).id == id,
        new_row(entry, id, stamp).hash == entry.hash,
        kind_named(new_row(entry, id, stamp).kind) == entry.kind,
        new_row(entry, id, stamp).kind == kind_name(entry.kind),
        new_row(entry, id, stamp).label == entry.label,
        new_row(entry, id, stamp).preview == entry.preview,
        entry.size <= i64::MAX ==> new_row(entry, id, stamp).size == entry.size,
        new_row(entry, id, stamp).created_at == stamp,
        new_row(entry, id, stamp).last_used_at == stamp,
        new_row(entry, id, stamp).payloads == entry.payloads,
{
    crate::types::law_kind_name_roundtrip(entry.kind);
    let n = entry.size;
    if n <= i64::MAX {
        assert(n as i64 == n);
    }
}

/// Recording an entry that is known gives back its id and overwrites what describes it and when it
/// was last used; its id, its hash, the time of its creation, its payloads and all other rows stay.
pub proof fn law_recorded_again(db: DatabaseView, entry: NewEntryView, stamp: Seq<char>, k: int)
    requires
        sound(db),
        0 <= k < db.rows.len(),
        db.rows[k].hash == entry.hash,
    ensures
        insert_result(db, entry) == Ok::<i64, DbError>(db.rows[k].id),
        ({
            let after = after_insert(db, entry, stamp);
            &&& after.rows.len() == db.rows.len()
            &&& forall|i: int|
                0 <= i < db.rows.len() && i != k ==> #[trigger] after.rows[i] == db.rows[i]
            &&& after.rows[k].id == db.rows[k].id
            &&& after.rows[k].hash == db.rows[k].hash
            &&& after.rows[k].created_at == db.rows[k].created_at
            &&& after.rows[k].payloads == db.rows[k].payloads
            &&& after.rows[k].kind == kind_name(entry.kind)
            &&& after.rows[k].label == entry.label
            &&& after.rows[k].preview == entry.preview
            &&& entry.size <= i64::MAX ==> after.rows[k].size == entry.size
            &&& after.rows[k].last_used_at == stamp
            &&& after.last_id == db.last_id
            &&& after.max_entries == db.max_entries
            &&& after.has_legacy_timestamp == db.has_legacy_timestamp
        }),
{
    lemma_hash_at(db.rows, k);
    crate::history::law_known_entry_is_refreshed(db, entry, stamp, k);
    law_new_row(entry, db.rows[k].id, stamp);
}

/// Recording an entry that is not known adds its row under the next id, and then keeps no more rows
/// than it should: every row that is dropped was used less late than every one that is kept. It
/// fails only when all ids have been given out, and changes nothing then.
pub proof fn law_recorded_newly(db: DatabaseView, entry: NewEntryView, stamp: Seq<char>)
    requires
        sound(db),
        forall|i: int| 0 <= i < db.rows.len() ==> #[trigger] db.rows[i].hash != entry.hash,
    ensures
        ({
            let after = after_insert(db, entry, stamp);
            let id = (db.last_id + 1) as i64;
            let all = db.rows.push(new_row(entry, id, stamp));
            &&& db.last_id == i64::MAX ==> after == db && insert_result(db, entry) == Err::<
                i64,
                DbError,
            >(DbError::Full)
            &&& db.last_id < i64::MAX ==> {
                &&& insert_result(db, entry) == Ok::<i64, DbError>(id)
                &&& after.last_id == db.last_id + 1
                &&& after.max_entries == db.max_entries
                &&& after.has_legacy_timestamp == db.has_legacy_timestamp
                &&& after.rows.len() == (if db.max_entries < all.len() {
                    db.max_entries as nat
                } else {
                    all.len()
                })
                &&& forall|r: RowView| #[trigger] after.rows.contains(r) ==> all.contains(r)
                &&& forall|r: RowView, dropped: RowView|
                    after.rows.contains(r) && all.contains(dropped) && !after.rows.contains(dropped)
                        ==> #[trigger] newer(r, dropped)
                &&& ids_ascend(after.rows)
            }
        }),
{
    if id_with_hash(db.rows, entry.hash) is Some {
        let k = lemma_hash_found(db.rows, entry.hash);
    }
    if db.last_id < i64::MAX {
        let id = (db.last_id + 1) as i64;
        let all = db.rows.push(new_row(entry, id, stamp));
        law_new_entry_is_added(db, entry, stamp);
        law_oldest_are_dropped(all, db.max_entries as nat);
        let after = after_insert(db, entry, stamp);
        assert forall|r: RowView| #[trigger] after.rows.contains(r) implies all.contains(r) by {
            let keep = |x: RowView| crate::rows::newest(all, db.max_entries as nat).contains(x);
            assert(kept(all, db.max_entries as nat) == all.filter(keep));
            all.lemma_filter_contains_rev(keep, r);
        }
    }
}

// ---------------------------------------------------------------------------
// Settings
// ---------------------------------------------------------------------------

proof fn lemma_digits_value(n: nat)
    ensures
        digits_value(decimal(n)) == n,
        decimal(n).len() > 0,
        crate::text::all_digits(decimal(n)),
    decreases n,
{
    let s = decimal(n);
    if n < 10 {
        assert(s.drop_last() =~= Seq::empty());
        assert(digits_value(s.drop_last()) == 0);
    } else {
        lemma_digits_value(n / 10);
        assert(s.drop_last() =~= decimal(n / 10));
        assert forall|i: int| 0 <= i < s.len() implies is_digit(#[trigger] s[i]) by {
            if i < s.len() - 1 {
                assert(s[i] == decimal(n / 10)[i]);
            }
        }
    }
}

proof fn lemma_leading_zero(s: Seq<char>)
    ensures
        digits_value(seq!['0'] + s) == digits_value(s),
    decreases s.len(),
{
    let all = seq!['0'] + s;
    if s.len() == 0 {
        assert(all.drop_last() =~= Seq::empty());
        assert(digits_value(all.drop_last()) == 0);
    } else {
        lemma_leading_zero(s.drop_last());
        assert(all.drop_last() =~= seq!['0'] + s.drop_last());
    }
}

/// A number is read from its decimal notation, with or without a plus sign and zeros before it, if
/// it is not too large. No number is read from an empty text or one with another character in it.
pub proof fn law_numbers_are_read(n: nat, s: Seq<char>, i: int)
    ensures
        n <= usize::MAX ==> parsed_usize(decimal(n)) == Some(n) && parsed_usize(
            seq!['+'] + decimal(n),
        ) == Some(n) && parsed_usize(seq!['0'] + decimal(n)) == Some(n),
        n > usize::MAX ==> parsed_usize(decimal(n)) is None,
        parsed_usize(Seq::empty()) is None,
        parsed_usize(seq!['+']) is None,
        0 <= i < s.len() && !('0' <= s[i] <= '9') && !(i == 0 && s[0] == '+') ==> parsed_usize(s)
            is None,
        s.len() > 0 && '0' <= s[0] <= '9' && parsed_usize(s) is Some ==> parsed_usize(
            seq!['0'] + s,
        ) == parsed_usize(s),
{
    lemma_digits_value(n);
    let d = decimal(n);
    assert(is_digit(d[0]));
    assert((seq!['+'] + d).drop_first() =~= d);
    let z = seq!['0'] + d;
    lemma_leading_zero(d);
    assert forall|j: int| 0 <= j < z.len() implies is_digit(#[trigger] z[j]) by {
        if j > 0 {
            assert(z[j] == d[j - 1]);
        }
    }
    assert(seq!['+'].drop_first() =~= Seq::<char>::empty());
    if 0 <= i < s.len() && !('0' <= s[i] <= '9') && !(i == 0 && s[0] == '+') {
        if s[0] == '+' {
            assert(s.drop_first()[i - 1] == s[i]);
            assert(!is_digit(s.drop_first()[i - 1]));
        } else {
            assert(!is_digit(s[i]));
        }
    }
    if s.len() > 0 && '0' <= s[0] <= '9' && parsed_usize(s) is Some {
        let t = seq!['0'] + s;
        lemma_leading_zero(s);
        assert forall|j: int| 0 <= j < t.len() implies is_digit(#[trigger] t[j]) by {
            if j > 0 {
                assert(t[j] == s[j - 1]);
            }
        }
    }
}

/// As many entries are kept as is set; 500 if nothing is set, or no number.
pub proof fn law_entries_kept(setting: Option<&str>)
    ensures
        setting is None ==> max_entries_of(setting) == 500,
        setting matches Some(s) ==> (parsed_usize(s@) is None ==> max_entries_of(setting) == 500),
        setting matches Some(s) ==> (parsed_usize(s@) matches Some(n) ==> max_entries_of(setting)
            == n),
{
}

// ---------------------------------------------------------------------------
// Taking over a table
// ---------------------------------------------------------------------------

/// The last id given out is the smallest number that is no less than zero, what is on record and
/// every id in the table.
pub proof fn law_last_id(rows: Seq<RowView>, recorded: i64)
    requires
        ids_ascend(rows),
    ensures
        last_id_of(rows, recorded) >= 0,
        last_id_of(rows, recorded) >= recorded,
        forall|i: int| 0 <= i < rows.len() ==> #[trigger] rows[i].id <= last_id_of(rows, recorded),
        last_id_of(rows, recorded) == 0 || last_id_of(rows, recorded) == recorded || exists|i: int|
            0 <= i < rows.len() && #[trigger] rows[i].id == last_id_of(rows, recorded),
{
    if rows.len() > 0 {
        let last = rows[rows.len() - 1];
        assert forall|i: int| 0 <= i < rows.len() implies #[trigger] rows[i].id <= last.id by {
            if i < rows.len() - 1 {
                assert(rows[i].id < rows[rows.len() - 1].id);
            }
        }
    }
}

/// A row that is taken over keeps all that is stored. A time of creation that is missing is that of
/// the timestamp column, or else the current moment; a time of last use that is missing is that of
/// the timestamp column, or else that of its creation.
pub proof fn law_taken_over_row(row: StoredRow, now: Seq<char>)
    ensures
        ({
            let (with, without) = (filled_row(row, true, now), filled_row(row, false, now));
            &&& with.id == row.id && without.id == row.id
            &&& with.hash == row.hash@ && without.hash == row.hash@
            &&& with.kind == row.kind@ && without.kind == row.kind@
            &&& with.label == row.label@ && without.label == row.label@
            &&& with.preview == row.preview@ && without.preview == row.preview@
            &&& with.size == row.size && without.size == row.size
            &&& with.payloads == views(row.payloads@) && without.payloads == views(row.payloads@)
            &&& row.created_at matches Some(t) ==> with.created_at == t@ && without.created_at == t@
            &&& row.last_used_at matches Some(t) ==> with.last_used_at == t@
                && without.last_used_at == t@
            &&& row.created_at is None ==> without.created_at == now
            &&& row.created_at is None && row.timestamp is None ==> with.created_at == now
            &&& row.created_at is None && row.timestamp is Some ==> with.created_at
                == row.timestamp->0@
            &&& row.last_used_at is None ==> without.last_used_at == without.created_at
            &&& row.last_used_at is None && row.timestamp is None ==> with.last_used_at
                == with.created_at
            &&& row.last_used_at is None && row.timestamp is Some ==> with.last_used_at
                == row.timestamp->0@
        }),
{
}

/// All rows of a table are taken over, in their order.
pub proof fn law_taken_over_rows(rows: Seq<StoredRow>, has_timestamp: bool, now: Seq<char>)
    ensures
        filled_rows(rows, has_timestamp, now).len() == rows.len(),
        forall|i: int|
            0 <= i < rows.len() ==> #[trigger] filled_rows(rows, has_timestamp, now)[i]
                == filled_row(rows[i], has_timestamp, now),
{
}

/// Whether a row has a hash, or the hash is proposed for it and it is not the row at `i`.
pub open spec fn claims(
    rows: Seq<RowView>,
    hashes: Seq<Option<Seq<char>>>,
    i: int,
    hash: Seq<char>,
    j: int,
) -> bool {
    rows[j].hash == hash || j != i && hashes[j] == Some(hash)
}

/// A hash that is proposed for a row is taken over, and nothing else of the row changes, unless a row
/// has that hash or it is proposed for another row, too: then the row stays as it is.
pub proof fn law_adopted_hashes(rows: Seq<RowView>, hashes: Seq<Option<Seq<char>>>, i: int)
    requires
        0 <= i < rows.len(),
        hashes.len() == rows.len(),
    ensures
        adopted(rows, hashes).len() == rows.len(),
        hashes[i] is None ==> adopted(rows, hashes)[i] == rows[i],
        hashes[i] matches Some(hash) ==> {
            let taken = exists|j: int|
                0 <= j < rows.len() && #[trigger] claims(rows, hashes, i, hash, j);
            &&& taken ==> adopted(rows, hashes)[i] == rows[i]
            &&& !taken ==> adopted(rows, hashes)[i] == (RowView { hash, ..rows[i] })
        },
{
    if hashes[i] is Some {
        let hash = hashes[i]->0;
        if exists|j: int| 0 <= j < rows.len() && #[trigger] claims(rows, hashes, i, hash, j) {
            let j = choose|j: int|
                0 <= j < rows.len() && #[trigger] claims(rows, hashes, i, hash, j);
            if rows[j].hash != hash {
                assert(hashes[j] == hashes[i]);
            }
            assert(!is_free(rows, hashes, i));
        } else {
            assert forall|j: int| 0 <= j < rows.len() implies #[trigger] rows[j].hash != hash by {
                assert(!claims(rows, hashes, i, hash, j));
            }
            assert forall|j: int| 0 <= j < rows.len() && j != i implies #[trigger] hashes[j]
                != hashes[i] by {
                assert(!claims(rows, hashes, i, hash, j));
            }
            assert(is_free(rows, hashes, i));
        }
    }
}

/// How errors are reported.
pub proof fn law_error_texts()
    ensures
        error_text(DbError::Full) == "database or disk is full"@,
        error_text(DbError::TooLong) == "string or blob too big"@,
        error_text(DbError::Constraint) == "constraint failed"@,
{
}

// ---------------------------------------------------------------------------
// Views
// ---------------------------------------------------------------------------

/// The views of a sequence of values are their views, one by one; the MIME types of payloads are
/// theirs, in their order, and so are texts that may be there.
pub proof fn law_views<T: View>(
    items: Seq<T>,
    payloads: Seq<PayloadView>,
    hashes: Seq<Option<String>>,
)
    ensures
        texts(hashes).len() == hashes.len(),
        forall|i: int|
            0 <= i < hashes.len() ==> (#[trigger] texts(hashes)[i] is Some <==> hashes[i] is Some)
                && (hashes[i] matches Some(h) ==> texts(hashes)[i] == Some(h@)),
        views(items).len() == items.len(),
        forall|i: int| 0 <= i < items.len() ==> #[trigger] views(items)[i] == items[i]@,
        mimes_of(payloads).len() == payloads.len(),
        forall|i: int| 0 <= i < payloads.len() ==> #[trigger] mimes_of(payloads)[i] == payloads[i].0,
{
}

/// Nothing of an entry or a row is lost in its view.
pub proof fn law_entry_views(entry: Entry, new: NewEntry<'_>, row: EntryRow, stored: StoredRow)
    ensures
        entry@.id == entry.id && entry@.hash == entry.hash@ && entry@.kind == entry.kind
            && entry@.label == entry.label@ && entry@.preview == entry.preview@ && entry@.size
            == entry.size && entry@.created_at == entry.created_at@ && entry@.last_used_at
            == entry.last_used_at@ && entry@.mime_types == views(entry.mime_types@),
        new@.hash == new.hash@ && new@.kind == *new.kind && new@.label == new.label@
            && new@.preview == new.preview@ && new@.size == new.size && new@.created_at
            == new.created_at@ && new@.payloads == views(new.payloads@),
        row@.id == row.id && row@.hash == row.hash@ && row@.kind == row.kind@ && row@.label
            == row.label@ && row@.preview == row.preview@ && row@.size == row.size
            && row@.created_at == row.created_at@ && row@.last_used_at == row.last_used_at@
            && row@.payloads == views(row.payloads@),
        stored@.id == stored.id && stored@.hash == stored.hash@ && stored@.payloads == views(
            stored.payloads@,
        ) && stored@.created_at == column_or_empty(stored.created_at) && stored@.last_used_at
            == column_or_empty(stored.last_used_at),
{
}

/// An entry that shows a row has the times it is given.
pub proof fn law_shown_times(row: RowView, created_at: (i64, u32), last_used_at: (i64, u32))
    ensures
        entry_at(row, created_at, last_used_at) == (EntryView {
            id: row.id,
            hash: row.hash,
            kind: entry_at(row, created_at, last_used_at).kind,
            label: row.label,
            preview: row.preview,
            size: row.size as usize,
            created_at,
            last_used_at,
            mime_types: Seq::new(row.payloads.len(), |i: int| row.payloads[i].0),
        }),
        forall|kind: crate::types::EntryKind|
            row.kind == #[trigger] kind_name(kind) ==> entry_at(
                row,
                created_at,
                last_used_at,
            ).kind == kind,
{
    assert(mimes_of(row.payloads) =~= Seq::new(row.payloads.len(), |i: int| row.payloads[i].0));
    assert forall|kind: crate::types::EntryKind| row.kind == #[trigger] kind_name(
        kind,
    ) implies entry_at(row, created_at, last_used_at).kind == kind by {
        crate::types::law_kind_name_roundtrip(kind);
    }
}

} // verus!
