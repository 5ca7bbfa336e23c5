//! What reading an offer promises: which MIME types are read, how an entry is classified and
//! labelled, and what is recorded of it.
use vstd::prelude::*;
use vstd::utf8::{encode_utf8, encode_utf8_decode_utf8, encode_utf8_valid_utf8};

use crate::answering::{law_restoring, law_served_bytes_are_exact};
use crate::db::{after_insert, insert_result, mimes_of, sound, DbError, NewEntryView};
use crate::hash::{hash_input, hash_text, lemma_hash_input_len};
use crate::history::law_new_entry_is_added;
use crate::label::{
    bytes_of, bytes_of_prefix, is_white_space, label_text, lemma_encode_concat, lines, path_leaf,
    percent_decoded, prefix_within, shortened, trimmed, trimmed_end, trimmed_start,
    unescaped, uri_leaf, uri_lines, uri_list_label, without_prefixes,
};
use crate::ipc::{Request, ResponseView};
use crate::outside::{decodes_utf8, lossy_text, rfc3339_text};
use crate::payload::{
    covers, is_portal_session, law_normal_form_exists, normal_form, total_len, PayloadView,
};
use crate::restore::{action_for, served, SourceActionView, SourceEvent};
use crate::rows::{id_with_hash, ids_ascend, lemma_hash_found};
use crate::server::reply_to;
use crate::suppress::{after_offer, armed, suppresses};
use crate::text::{begins_with, decimal, lemma_text_before_order, text_before};
use crate::time::Moment;
use crate::types::{kind_name, kind_of, EntryKind};
use crate::watcher::{
    after_ready, announced, binding_of, captured, entry_for, nothing_captured, offered, ready_outcome,
    selected_of, Binding, CaptureView, DaemonView, OffersView, OutcomeView, SelectedView,
};

verus! {

// ---------------------------------------------------------------------------
// Offers
// ---------------------------------------------------------------------------

/// A MIME type is left out exactly if it begins with one of two names of portal sessions. None is
/// that does not begin with `application/vnd.portal.file`.
pub proof fn law_left_out_types(mime: Seq<char>)
    ensures
        is_portal_session(mime) <==> ("application/vnd.portal.filetransfer"@.is_prefix_of(mime)
            || "application/vnd.portal.files"@.is_prefix_of(mime)),
        is_portal_session(mime) ==> "application/vnd.portal.file"@.is_prefix_of(mime),
{
    let (a, b, c) = (
        "application/vnd.portal.filetransfer"@,
        "application/vnd.portal.files"@,
        "application/vnd.portal.file"@,
    );
    assert(begins_with(mime, a) <==> a.is_prefix_of(mime)) by {
        if a.len() <= mime.len() {
            assert(mime.take(a.len() as int) =~= mime.subrange(0, a.len() as int));
        }
    }
    assert(begins_with(mime, b) <==> b.is_prefix_of(mime)) by {
        if b.len() <= mime.len() {
            assert(mime.take(b.len() as int) =~= mime.subrange(0, b.len() as int));
        }
    }
    reveal_strlit("application/vnd.portal.filetransfer");
    reveal_strlit("application/vnd.portal.files");
    reveal_strlit("application/vnd.portal.file");
    assert(c =~= a.subrange(0, c.len() as int));
    assert(c =~= b.subrange(0, c.len() as int));
    if is_portal_session(mime) {
        assert(c =~= mime.subrange(0, c.len() as int));
    }
}

/// When an offer is announced, names MIME types one after the other and is selected, exactly those
/// types are read that do not begin with the name of a portal session, in the order they were
/// named in; if none is left, the offer is given back.
pub proof fn law_selected_offer_is_read(
    offers: OffersView,
    id: u32,
    mimes: Seq<Seq<char>>,
    steps: Seq<OffersView>,
)
    requires
        steps.len() == mimes.len() + 1,
        steps[0] == announced(offers, id),
        forall|i: int|
            0 <= i < mimes.len() ==> steps[i + 1] == offered(steps[i], id, #[trigger] mimes[i]),
    ensures
        ({
            let types = mimes.filter(
                |m: Seq<char>|
                    !"application/vnd.portal.filetransfer"@.is_prefix_of(m)
                        && !"application/vnd.portal.files"@.is_prefix_of(m),
            );
            &&& selected_of(steps.last(), Some(id)) == (if types.len() == 0 {
                SelectedView::Dropped
            } else {
                SelectedView::Ready { mime_types: types }
            })
            &&& forall|other: u32|
                other != id ==> #[trigger] selected_of(steps.last(), Some(other)) == selected_of(
                    offers,
                    Some(other),
                )
        }),
    decreases mimes.len(),
{
    lemma_offer_steps(offers, id, mimes, steps);
}

proof fn lemma_offer_steps(
    offers: OffersView,
    id: u32,
    mimes: Seq<Seq<char>>,
    steps: Seq<OffersView>,
)
    requires
        steps.len() == mimes.len() + 1,
        steps[0] == announced(offers, id),
        forall|i: int|
            0 <= i < mimes.len() ==> steps[i + 1] == offered(steps[i], id, #[trigger] mimes[i]),
    ensures
        steps.last() == offers.insert(
            id,
            mimes.filter(
                |m: Seq<char>|
                    !"application/vnd.portal.filetransfer"@.is_prefix_of(m)
                        && !"application/vnd.portal.files"@.is_prefix_of(m),
            ),
        ),
    decreases mimes.len(),
{
    reveal(Seq::filter);
    let keep = |m: Seq<char>|
        !"application/vnd.portal.filetransfer"@.is_prefix_of(m)
            && !"application/vnd.portal.files"@.is_prefix_of(m);
    if mimes.len() == 0 {
        assert(mimes.filter(keep) =~= Seq::empty());
    } else {
        let (head, last) = (mimes.drop_last(), mimes.last());
        let before = steps.drop_last();
        assert forall|i: int| 0 <= i < head.len() implies before[i + 1] == offered(
            before[i],
            id,
            #[trigger] head[i],
        ) by {
            assert(head[i] == mimes[i]);
        }
        lemma_offer_steps(offers, id, head, before);
        law_left_out_types(last);
        let n = mimes.len() - 1;
        assert(mimes[n] == last);
        assert(steps.last() == offered(before.last(), id, last));
        assert(steps.last() =~= offers.insert(id, mimes.filter(keep)));
    }
}

/// Offers are kept apart: what one of them names is added to its own types and to those of no other.
pub proof fn law_offers_are_kept_apart(offers: OffersView, id: u32, other: u32, mime: Seq<char>)
    ensures
        offers.dom().contains(id) && !"application/vnd.portal.filetransfer"@.is_prefix_of(mime)
            && !"application/vnd.portal.files"@.is_prefix_of(mime) ==> offered(offers, id, mime)
            == offers.insert(id, offers[id].push(mime)),
        "application/vnd.portal.filetransfer"@.is_prefix_of(mime)
            || "application/vnd.portal.files"@.is_prefix_of(mime) ==> offered(offers, id, mime)
            == offers,
        other != id ==> (offered(offers, id, mime).dom().contains(other) <==> offers.dom().contains(
            other,
        )),
        other != id && offers.dom().contains(other) ==> offered(offers, id, mime)[other]
            == offers[other] && announced(offers, id)[other] == offers[other],
        announced(offers, id).dom() == offers.dom().insert(id),
        announced(offers, id)[id] == Seq::<Seq<char>>::empty(),
{
    law_left_out_types(mime);
    assert(announced(offers, id).dom() =~= offers.dom().insert(id));
}

/// What is selected without having been announced is not read, and a MIME type that such an offer
/// names counts for nothing.
pub proof fn law_unknown_offer_is_ignored(offers: OffersView, id: u32, mime: Seq<char>)
    requires
        !offers.dom().contains(id),
    ensures
        selected_of(offers, Some(id)) == SelectedView::Nothing,
        selected_of(offers, None) == SelectedView::Nothing,
        offered(offers, id, mime) == offers,
{
}

/// The clipboard manager is bound, at the version offered but no higher than 2; the first seat is
/// bound, at the version offered but no higher than 7; nothing else is.
pub proof fn law_bound_globals(version: u32, has_seat: bool, interface: Seq<char>)
    ensures
        binding_of("zwlr_data_control_manager_v1"@, version, has_seat) matches Binding::Manager {
            version: v,
        } && v <= version && v <= 2 && (v == version || v == 2),
        binding_of("wl_seat"@, version, false) matches Binding::Seat { version: v } && v <= version
            && v <= 7 && (v == version || v == 7),
        binding_of("wl_seat"@, version, true) == Binding::Ignored,
        interface != "zwlr_data_control_manager_v1"@ && interface != "wl_seat"@ ==> binding_of(
            interface,
            version,
            has_seat,
        ) == Binding::Ignored,
{
    reveal_strlit("zwlr_data_control_manager_v1");
    reveal_strlit("wl_seat");
    assert("zwlr_data_control_manager_v1"@.len() != "wl_seat"@.len());
}

// ---------------------------------------------------------------------------
// Capture
// ---------------------------------------------------------------------------

/// The bytes of payloads add up.
pub proof fn law_sizes_add_up(payloads: Seq<PayloadView>, p: PayloadView)
    ensures
        total_len(Seq::empty()) == 0,
        total_len(payloads.push(p)) == total_len(payloads) + p.1.len(),
{
    crate::watcher::lemma_total_len_push(payloads, p);
}

/// What is read of an offer, MIME type by MIME type, is all that has bytes, in the order it is
/// read in, unless there are more than 64 MiB of it: then nothing is kept, however it goes on.
pub proof fn law_offer_is_captured(reads: Seq<PayloadView>, steps: Seq<CaptureView>)
    requires
        steps.len() == reads.len() + 1,
        steps[0] == nothing_captured(),
        forall|i: int|
            0 <= i < reads.len() ==> steps[i + 1] == captured(steps[i], #[trigger] reads[i]),
    ensures
        steps.last().too_large <==> total_len(reads) > 64 * 1024 * 1024,
        !steps.last().too_large ==> steps.last().payloads == reads.filter(
            |p: PayloadView| p.1.len() != 0,
        ),
        !steps.last().too_large ==> steps.last().raw_total == total_len(reads),
    decreases reads.len(),
{
    reveal(Seq::filter);
    let keep = |p: PayloadView| p.1.len() != 0;
    if reads.len() == 0 {
        assert(reads.filter(keep) =~= Seq::empty());
    } else {
        let (head, last) = (reads.drop_last(), reads.last());
        let before = steps.drop_last();
        assert forall|i: int| 0 <= i < head.len() implies before[i + 1] == captured(
            before[i],
            #[trigger] head[i],
        ) by {
            assert(head[i] == reads[i]);
        }
        law_offer_is_captured(head, before);
        law_sizes_add_up(head, last);
        assert(reads =~= head.push(last));
        let n = reads.len() - 1;
        assert(reads[n] == last);
        assert(steps.last() == captured(before.last(), last));
    }
}

// ---------------------------------------------------------------------------
// Kinds
// ---------------------------------------------------------------------------

/// Whether a MIME type begins with a text.
proof fn lemma_some_begins(mimes: Seq<Seq<char>>, prefix: Seq<char>)
    ensures
        crate::types::some_begins_with(mimes, prefix) <==> exists|i: int|
            0 <= i < mimes.len() && prefix.is_prefix_of(#[trigger] mimes[i]),
{
    assert forall|m: Seq<char>| #[trigger] begins_with(m, prefix) <==> prefix.is_prefix_of(m) by {
        if prefix.len() <= m.len() {
            assert(m.take(prefix.len() as int) =~= m.subrange(0, prefix.len() as int));
        }
    }
    if exists|i: int| 0 <= i < mimes.len() && prefix.is_prefix_of(#[trigger] mimes[i]) {
        let i = choose|i: int| 0 <= i < mimes.len() && prefix.is_prefix_of(#[trigger] mimes[i]);
        assert(begins_with(mimes[i], prefix));
    }
    if crate::types::some_begins_with(mimes, prefix) {
        let i = choose|i: int| 0 <= i < mimes.len() && begins_with(#[trigger] mimes[i], prefix);
        assert(prefix.is_prefix_of(mimes[i]));
    }
}

/// An entry is a file if a file manager offers it: a type begins with `x-special/` or is
/// `x-kde-cut-selection`, or there is a URI list and a type of KDE or one that begins with
/// `x-special`. Any other URI list is a URI; else an image type makes an image, else a text type a
/// text.
pub proof fn law_kinds(mimes: Seq<Seq<char>>)
    ensures
        ({
            let uris = mimes.contains("text/uri-list"@);
            let special = exists|i: int|
                0 <= i < mimes.len() && "x-special/"@.is_prefix_of(#[trigger] mimes[i]);
            let dolphin = exists|i: int|
                0 <= i < mimes.len() && ("application/x-kde"@.is_prefix_of(#[trigger] mimes[i])
                    || "x-special"@.is_prefix_of(mimes[i]));
            let image = exists|i: int|
                0 <= i < mimes.len() && "image/"@.is_prefix_of(#[trigger] mimes[i]);
            let text = exists|i: int|
                0 <= i < mimes.len() && "text/"@.is_prefix_of(#[trigger] mimes[i]);
            let file = special || mimes.contains("x-kde-cut-selection"@) || (uris && dolphin);
            &&& kind_of(mimes) == EntryKind::File <==> file
            &&& kind_of(mimes) == EntryKind::Uri <==> !file && uris
            &&& kind_of(mimes) == EntryKind::Image <==> !file && !uris && image
            &&& kind_of(mimes) == EntryKind::Text <==> !file && !uris && !image && text
            &&& kind_of(mimes) == EntryKind::Other <==> !file && !uris && !image && !text
        }),
{
    lemma_some_begins(mimes, "x-special/"@);
    lemma_some_begins(mimes, "application/x-kde"@);
    lemma_some_begins(mimes, "x-special"@);
    lemma_some_begins(mimes, "image/"@);
    lemma_some_begins(mimes, "text/"@);
    if mimes.contains("x-special/gnome-copied-files"@) {
        let i = choose|i: int|
            0 <= i < mimes.len() && mimes[i] == "x-special/gnome-copied-files"@;
        reveal_strlit("x-special/gnome-copied-files");
        reveal_strlit("x-special/");
        assert("x-special/"@ =~= mimes[i].subrange(0, 10));
        assert("x-special/"@.is_prefix_of(mimes[i]));
    }
}

/// The names that kinds are stored and shown under.
pub proof fn law_kind_names()
    ensures
        kind_name(EntryKind::Text) == "text"@,
        kind_name(EntryKind::Uri) == "uri"@,
        kind_name(EntryKind::File) == "file"@,
        kind_name(EntryKind::Image) == "image"@,
        kind_name(EntryKind::Other) == "other"@,
{
}

// ---------------------------------------------------------------------------
// Percent escapes
// ---------------------------------------------------------------------------

/// Whether a byte is the hexadecimal digit of a value, in upper or in lower case.
pub open spec fn is_digit_of(b: u8, v: int) -> bool {
    if v < 10 {
        b == '0' as int + v
    } else {
        b == 'A' as int + v - 10 || b == 'a' as int + v - 10
    }
}

/// Whether the escape with the given number stands for a byte: a `%` and the two hexadecimal digits
/// of its value.
pub open spec fn escape_at(encoded: Seq<u8>, i: int, b: u8) -> bool {
    &&& encoded[3 * i] == '%' as int
    &&& is_digit_of(encoded[3 * i + 1], b as int / 16)
    &&& is_digit_of(encoded[3 * i + 2], b as int % 16)
}

/// Whether a byte string is the percent-encoding of another one.
pub open spec fn percent_encodes(encoded: Seq<u8>, bytes: Seq<u8>) -> bool {
    &&& encoded.len() == 3 * bytes.len()
    &&& forall|i: int| 0 <= i < bytes.len() ==> #[trigger] escape_at(encoded, i, bytes[i])
}

/// Percent-encoding is undone: what was written as escapes, in upper or in lower case, comes back,
/// and what follows is read on its own.
pub proof fn law_percent_encoding_is_undone(encoded: Seq<u8>, bytes: Seq<u8>, rest: Seq<u8>)
    requires
        percent_encodes(encoded, bytes),
    ensures
        unescaped(encoded) == bytes,
        unescaped(encoded + rest) == bytes + unescaped(rest),
{
    lemma_percent_undone(encoded, bytes, rest);
    lemma_percent_undone(encoded, bytes, Seq::empty());
    assert(encoded + Seq::<u8>::empty() =~= encoded);
    assert(bytes + unescaped(Seq::<u8>::empty()) =~= bytes);
}

proof fn lemma_percent_undone(encoded: Seq<u8>, bytes: Seq<u8>, rest: Seq<u8>)
    requires
        percent_encodes(encoded, bytes),
    ensures
        unescaped(encoded + rest) == bytes + unescaped(rest),
    decreases bytes.len(),
{
    let all = encoded + rest;
    if bytes.len() == 0 {
        assert(all =~= rest);
        assert(bytes + unescaped(rest) =~= unescaped(rest));
    } else {
        let (e1, b1) = (encoded.skip(3), bytes.drop_first());
        assert(bytes[0] as int / 16 < 16 && bytes[0] as int % 16 < 16);
        assert(escape_at(encoded, 0, bytes[0]));
        assert(all[0] == encoded[0] && all[1] == encoded[1] && all[2] == encoded[2]);
        assert(crate::label::hex_byte(all[1], all[2]) == Some(bytes[0]));
        assert(all.skip(3) =~= e1 + rest);
        assert forall|i: int| 0 <= i < b1.len() implies #[trigger] escape_at(e1, i, b1[i]) by {
            assert(escape_at(encoded, i + 1, bytes[i + 1]));
            assert(b1[i] == bytes[i + 1]);
            assert(e1[3 * i] == encoded[3 * (i + 1)]);
            assert(e1[3 * i + 1] == encoded[3 * (i + 1) + 1]);
            assert(e1[3 * i + 2] == encoded[3 * (i + 1) + 2]);
        }
        assert(e1.len() == 3 * b1.len());
        lemma_percent_undone(e1, b1, rest);
        assert(seq![bytes[0]] + (b1 + unescaped(rest)) =~= bytes + unescaped(rest));
    }
}

/// Bytes without a `%` stay as they are, and what follows is read on its own.
pub proof fn law_other_bytes_stay(bytes: Seq<u8>, rest: Seq<u8>)
    requires
        forall|i: int| 0 <= i < bytes.len() ==> #[trigger] bytes[i] != '%' as int,
    ensures
        unescaped(bytes) == bytes,
        unescaped(bytes + rest) == bytes + unescaped(rest),
    decreases bytes.len(),
{
    let all = bytes + rest;
    if bytes.len() == 0 {
        assert(all =~= rest);
        assert(bytes + unescaped(rest) =~= unescaped(rest));
        assert(unescaped(bytes) =~= bytes);
    } else {
        let b1 = bytes.drop_first();
        assert(all[0] == bytes[0]);
        assert(all.skip(1) =~= b1 + rest);
        assert(bytes.skip(1) =~= b1);
        assert forall|i: int| 0 <= i < b1.len() implies #[trigger] b1[i] != '%' as int by {
            assert(b1[i] == bytes[i + 1]);
        }
        law_other_bytes_stay(b1, rest);
        assert(seq![bytes[0]] + (b1 + unescaped(rest)) =~= bytes + unescaped(rest));
        assert(seq![bytes[0]] + b1 =~= bytes);
    }
}

/// A `%` stays that is not followed by two hexadecimal digits, the first of which may be a plus sign:
/// that is read as if it were not there.
pub proof fn law_other_escapes(rest: Seq<u8>, v: int)
    ensures
        rest.len() < 2 ==> unescaped(seq!['%' as u8] + rest) == seq!['%' as u8] + unescaped(rest),
        rest.len() >= 2 && !is_hex_digit(rest[1]) ==> unescaped(seq!['%' as u8] + rest)
            == seq!['%' as u8] + unescaped(rest),
        rest.len() >= 2 && !is_hex_digit(rest[0]) && rest[0] != '+' as int ==> unescaped(
            seq!['%' as u8] + rest,
        ) == seq!['%' as u8] + unescaped(rest),
        rest.len() >= 2 && rest[0] == '+' as int && 0 <= v < 16 && is_digit_of(rest[1], v)
            ==> unescaped(seq!['%' as u8] + rest) == seq![v as u8] + unescaped(rest.skip(2)),
{
    let all = seq!['%' as u8] + rest;
    assert(all.skip(1) =~= rest);
    if rest.len() >= 2 {
        assert(all.skip(3) =~= rest.skip(2));
        assert(all[1] == rest[0] && all[2] == rest[1]);
        lemma_hex_digit(rest[0]);
        lemma_hex_digit(rest[1]);
    }
}

/// Whether a byte is a hexadecimal digit.
pub open spec fn is_hex_digit(b: u8) -> bool {
    exists|v: int| 0 <= v < 16 && is_digit_of(b, v)
}

proof fn lemma_hex_digit(b: u8)
    ensures
        crate::label::hex_value(b) is Some <==> is_hex_digit(b),
{
    if crate::label::hex_value(b) is Some {
        let v = crate::label::hex_value(b)->0 as int;
        assert(is_digit_of(b, v));
    }
}

// ---------------------------------------------------------------------------
// File names
// ---------------------------------------------------------------------------

/// Whether a text is a file name: not empty, without `/`, and neither `.` nor `..`.
pub open spec fn is_file_name(name: Seq<char>) -> bool {
    &&& name.len() > 0
    &&& !name.contains('/')
    &&& name != seq!['.']
    &&& name != seq!['.', '.']
}

proof fn lemma_segment_start(dir: Seq<char>, name: Seq<char>)
    requires
        !name.contains('/'),
        dir.len() == 0 || dir.last() == '/',
    ensures
        crate::label::segment_start(dir + name) == dir.len(),
    decreases name.len(),
{
    let all = dir + name;
    if name.len() == 0 {
        assert(all =~= dir);
    } else {
        let n1 = name.drop_last();
        assert(all.last() == name.last());
        assert(name.contains(name[name.len() - 1]));
        assert(all.drop_last() =~= dir + n1);
        assert(!n1.contains('/')) by {
            if n1.contains('/') {
                let i = choose|i: int| 0 <= i < n1.len() && n1[i] == '/';
                assert(name[i] == '/');
            }
        }
        lemma_segment_start(dir, n1);
    }
}

/// A path leads to the file that its last segment names; slashes and `.` at its end do not count.
/// A path whose last segment is `..`, or that has no segment, leads to none.
pub proof fn law_file_names(path: Seq<char>, name: Seq<char>)
    ensures
        is_file_name(name) ==> path_leaf(name) == Some(name),
        is_file_name(name) ==> path_leaf(path + seq!['/'] + name) == Some(name),
        path_leaf(path + seq!['/']) == path_leaf(path),
        path_leaf(path + seq!['/', '.']) == path_leaf(path),
        path_leaf(path + seq!['/', '.', '.']) is None,
        path_leaf(seq!['.', '.']) is None,
        path_leaf(seq!['.']) is None,
        path_leaf(Seq::empty()) is None,
{
    let none = Seq::<char>::empty();
    let dir = path + seq!['/'];
    let (dot, dots) = (seq!['.'], seq!['.', '.']);
    assert(!dot.contains('/') && !dots.contains('/') && !none.contains('/'));
    assert(dir.take(dir.len() - 1) =~= path);
    if !name.contains('/') {
        lemma_segment_start(none, name);
        lemma_segment_start(dir, name);
        assert(none + name =~= name);
        assert(name.skip(0) =~= name);
        assert((dir + name).skip(dir.len() as int) =~= name);
    }
    lemma_segment_start(dir, none);
    assert(dir + none =~= dir);
    assert(dir.skip(dir.len() as int) =~= none);
    lemma_segment_start(dir, dot);
    assert(dir + dot =~= path + seq!['/', '.']);
    assert((dir + dot).skip(dir.len() as int) =~= dot);
    assert((dir + dot).take(dir.len() - 1) =~= path);
    lemma_segment_start(dir, dots);
    assert(dir + dots =~= path + seq!['/', '.', '.']);
    assert((dir + dots).skip(dir.len() as int) =~= dots);
    lemma_segment_start(none, dots);
    assert(none + dots =~= dots);
    assert(dots.skip(0) =~= dots);
    lemma_segment_start(none, dot);
    assert(none + dot =~= dot);
    assert(dot.skip(0) =~= dot);
    assert(none.skip(0) =~= none);
    assert(dots.len() == 2 && dot.len() == 1);
}

/// A prefix is taken off as often as it is there.
pub proof fn law_prefixes_are_taken_off(text: Seq<char>, prefix: Seq<char>)
    requires
        prefix.len() > 0,
    ensures
        without_prefixes(prefix + text, prefix) == without_prefixes(text, prefix),
        !prefix.is_prefix_of(text) ==> without_prefixes(text, prefix) == text,
{
    let all = prefix + text;
    assert(all.take(prefix.len() as int) =~= prefix);
    assert(all.skip(prefix.len() as int) =~= text);
    if begins_with(text, prefix) {
        assert(text.take(prefix.len() as int) =~= text.subrange(0, prefix.len() as int));
    }
}

/// A line of a URI list is shown as the file that it leads to, whether it has the scheme of local
/// files, once or more often, or not; where it leads to none, it is shown whole.
pub proof fn law_shown_uri(path: Seq<char>)
    requires
        !"file://"@.is_prefix_of(path),
    ensures
        uri_leaf("file://"@ + path) == uri_leaf(path),
        uri_leaf("file://"@ + ("file://"@ + path)) == uri_leaf(path),
        path_leaf(percent_decoded(path)) matches Some(name) ==> uri_leaf(path) == name,
        path_leaf(percent_decoded(path)) is None ==> uri_leaf(path) == percent_decoded(path),
        percent_decoded(path) == lossy_text(unescaped(encode_utf8(path))),
{
    reveal_strlit("file://");
    let f = "file://"@;
    let (one, two) = (f + path, f + (f + path));
    assert(!begins_with(path, f)) by {
        if begins_with(path, f) {
            assert(path.take(f.len() as int) =~= path.subrange(0, f.len() as int));
        }
    }
    assert(one.take(f.len() as int) =~= f);
    assert(one.skip(f.len() as int) =~= path);
    assert(two.take(f.len() as int) =~= f);
    assert(two.skip(f.len() as int) =~= one);
    assert(without_prefixes(path, f) == path);
    assert(without_prefixes(one, f) == path);
    assert(without_prefixes(two, f) == path);
}

/// A file whose name was percent-encoded is shown under its name.
pub proof fn law_encoded_file_is_shown_by_name(
    dir: Seq<char>,
    encoded: Seq<char>,
    name: Seq<char>,
)
    requires
        is_file_name(name),
        percent_encodes(encode_utf8(encoded), encode_utf8(name)),
        forall|i: int|
            0 <= i < encode_utf8(dir).len() ==> #[trigger] encode_utf8(dir)[i] != '%' as int,
        !"file://"@.is_prefix_of(dir + seq!['/'] + encoded),
        decodes_utf8(encode_utf8(dir + seq!['/'] + name)),
    ensures
        uri_leaf("file://"@ + (dir + seq!['/'] + encoded)) == name,
{
    let slash = seq!['/'];
    let path = dir + slash + encoded;
    let (d, e, n) = (encode_utf8(dir), encode_utf8(encoded), encode_utf8(name));
    let s = encode_utf8(slash);
    lemma_encode_concat(dir, slash);
    lemma_encode_concat(dir + slash, encoded);
    lemma_encode_concat(dir + slash, name);
    assert(s =~= seq![47u8]) by {
        reveal_with_fuel(encode_utf8, 2);
        assert('/' as u32 == 47);
        assert((47u32 & 0x7F) as u8 == 47) by (bit_vector);
    }
    let head = d + s;
    assert forall|i: int| 0 <= i < head.len() implies #[trigger] head[i] != '%' as int by {
        if i < d.len() {
            assert(head[i] == d[i]);
        }
    }
    law_other_bytes_stay(head, e);
    law_percent_encoding_is_undone(e, n, Seq::empty());
    assert(unescaped(encode_utf8(path)) == head + n);
    encode_utf8_valid_utf8(dir + slash + name);
    encode_utf8_decode_utf8(dir + slash + name);
    law_shown_uri(path);
    law_file_names(dir, name);
}

// ---------------------------------------------------------------------------
// URI lists
// ---------------------------------------------------------------------------

proof fn lemma_line_len(line: Seq<char>, rest: Seq<char>)
    requires
        !line.contains('\n'),
        rest.len() == 0 || rest[0] == '\n',
    ensures
        crate::label::line_len(line + rest) == line.len(),
    decreases line.len(),
{
    let all = line + rest;
    if line.len() == 0 {
        assert(all =~= rest);
    } else {
        let l1 = line.drop_first();
        assert(all[0] == line[0]);
        assert(line.contains(line[0]));
        assert(all.drop_first() =~= l1 + rest);
        assert(!l1.contains('\n')) by {
            if l1.contains('\n') {
                let i = choose|i: int| 0 <= i < l1.len() && l1[i] == '\n';
                assert(line[i + 1] == '\n');
            }
        }
        lemma_line_len(l1, rest);
    }
}

/// A text is split into lines at its newlines; a carriage return before a newline goes with it, and
/// a last line may lack its newline.
pub proof fn law_lines(line: Seq<char>, rest: Seq<char>)
    requires
        !line.contains('\n'),
    ensures
        lines(Seq::empty()) == Seq::<Seq<char>>::empty(),
        line.len() > 0 ==> lines(line) == seq![line],
        line.len() == 0 || line.last() != '\r' ==> lines(line + seq!['\n'] + rest) == seq![line]
            + lines(rest),
        lines(line + seq!['\r', '\n'] + rest) == seq![line] + lines(rest),
{
    let none = Seq::<char>::empty();
    lemma_line_len(line, none);
    assert(line + none =~= line);
    let tail = seq!['\n'] + rest;
    let all = line + seq!['\n'] + rest;
    assert(all =~= line + tail);
    lemma_line_len(line, tail);
    assert(all.take(line.len() as int) =~= line);
    assert(all.skip(line.len() as int + 1) =~= rest);
    let cr = line.push('\r');
    let both = line + seq!['\r', '\n'] + rest;
    assert(both =~= cr + tail);
    assert(!cr.contains('\n')) by {
        if cr.contains('\n') {
            let i = choose|i: int| 0 <= i < cr.len() && cr[i] == '\n';
            assert(line[i] == '\n');
        }
    }
    lemma_line_len(cr, tail);
    assert(both.take(cr.len() as int) =~= cr);
    assert(both.skip(cr.len() as int + 1) =~= rest);
    assert(cr.drop_last() =~= line);
}

/// A URI list is labelled by its first URI, and by how many more there are; empty lines and
/// comments are no URIs. Without a URI it is labelled `file`.
pub proof fn law_uri_list_label(text: Seq<char>)
    ensures
        ({
            let uris = lines(text).filter(|l: Seq<char>| l.len() != 0 && l[0] != '#');
            &&& uri_lines(text) == uris
            &&& uris.len() == 0 ==> uri_list_label(text) == "file"@
            &&& uris.len() == 1 ==> uri_list_label(text) == uri_leaf(uris[0])
            &&& uris.len() > 1 ==> uri_list_label(text) == uri_leaf(uris[0]) + " and "@ + decimal(
                (uris.len() - 1) as nat,
            ) + " more"@
        }),
{
    let keep = |l: Seq<char>| l.len() != 0 && l[0] != '#';
    let is_uri = |l: Seq<char>| crate::label::is_uri_line(l);
    assert(keep =~= is_uri);
}

// ---------------------------------------------------------------------------
// Text labels
// ---------------------------------------------------------------------------

/// What a text begins with is a prefix of it.
pub proof fn law_begins_with(text: Seq<char>, prefix: Seq<char>)
    ensures
        begins_with(text, prefix) <==> prefix.is_prefix_of(text),
{
    if prefix.len() <= text.len() {
        assert(text.take(prefix.len() as int) =~= text.subrange(0, prefix.len() as int));
    }
}

/// White space is what Unicode calls so.
pub proof fn law_white_space(c: char)
    ensures
        is_white_space(c) <==> (c == ' ' || '\u{9}' <= c <= '\u{d}' || c == '\u{85}' || c == '\u{a0}'
            || c == '\u{1680}' || '\u{2000}' <= c <= '\u{200a}' || c == '\u{2028}' || c
            == '\u{2029}' || c == '\u{202f}' || c == '\u{205f}' || c == '\u{3000}'),
{
}

/// Trimming takes away white space at both ends, all of it and nothing else.
pub proof fn law_trimmed(s: Seq<char>)
    ensures
        exists|before: Seq<char>, after: Seq<char>|
            {
                &&& s == #[trigger] (before + trimmed(s) + after)
                &&& forall|i: int| 0 <= i < before.len() ==> is_white_space(#[trigger] before[i])
                &&& forall|i: int| 0 <= i < after.len() ==> is_white_space(#[trigger] after[i])
            },
        trimmed(s).len() > 0 ==> !is_white_space(trimmed(s)[0]) && !is_white_space(
            trimmed(s).last(),
        ),
{
    let mid = trimmed_start(s);
    let before = lemma_trimmed_start(s);
    let after = lemma_trimmed_end(mid);
    assert(s =~= before + trimmed(s) + after);
    if trimmed(s).len() > 0 {
        assert(mid[0] == trimmed(s)[0]);
    }
}

proof fn lemma_trimmed_start(s: Seq<char>) -> (before: Seq<char>)
    ensures
        s == before + trimmed_start(s),
        forall|i: int| 0 <= i < before.len() ==> is_white_space(#[trigger] before[i]),
        trimmed_start(s).len() > 0 ==> !is_white_space(trimmed_start(s)[0]),
    decreases s.len(),
{
    if s.len() > 0 && is_white_space(s[0]) {
        let b = lemma_trimmed_start(s.drop_first());
        let before = seq![s[0]] + b;
        assert(s.drop_first() == b + trimmed_start(s));
        assert(s =~= seq![s[0]] + s.drop_first());
        assert(s =~= before + trimmed_start(s));
        assert forall|i: int| 0 <= i < before.len() implies is_white_space(
            #[trigger] before[i],
        ) by {
            if i > 0 {
                assert(before[i] == b[i - 1]);
            }
        }
        before
    } else {
        assert(s =~= Seq::<char>::empty() + s);
        Seq::empty()
    }
}

proof fn lemma_trimmed_end(s: Seq<char>) -> (after: Seq<char>)
    ensures
        s == trimmed_end(s) + after,
        forall|i: int| 0 <= i < after.len() ==> is_white_space(#[trigger] after[i]),
        trimmed_end(s).len() > 0 ==> !is_white_space(trimmed_end(s).last()),
    decreases s.len(),
{
    if s.len() > 0 && is_white_space(s.last()) {
        let a = lemma_trimmed_end(s.drop_last());
        let after = a.push(s.last());
        assert(s.drop_last() == trimmed_end(s) + a);
        assert(s =~= s.drop_last().push(s.last()));
        assert(s =~= trimmed_end(s) + after);
        assert forall|i: int| 0 <= i < after.len() implies is_white_space(#[trigger] after[i]) by {
            if i < a.len() {
                assert(after[i] == a[i]);
            }
        }
        after
    } else {
        assert(s =~= s + Seq::<char>::empty());
        Seq::empty()
    }
}

/// A text of at most 120 bytes is shown whole. Of a longer one as many characters are shown as fit
/// 120 bytes, and an ellipsis.
pub proof fn law_shortened(text: Seq<char>)
    ensures
        encode_utf8(text).len() <= 120 ==> shortened(text) == text,
        encode_utf8(text).len() > 120 ==> {
            let k = shortened(text).len() - 1;
            &&& 0 <= k < text.len()
            &&& shortened(text) == text.take(k).push('\u{2026}')
            &&& encode_utf8(text.take(k)).len() <= 120
            &&& encode_utf8(text.take(k + 1)).len() > 120
        },
{
    if encode_utf8(text).len() > 120 {
        lemma_prefix_within(text, 120);
    }
}

proof fn lemma_prefix_within(text: Seq<char>, limit: nat)
    requires
        encode_utf8(text).len() > limit,
    ensures
        ({
            let k = prefix_within(text, limit).len() as int;
            &&& k < text.len()
            &&& prefix_within(text, limit) == text.take(k)
            &&& encode_utf8(text.take(k)).len() <= limit
            &&& encode_utf8(text.take(k + 1)).len() > limit
        }),
    decreases text.len(),
{
    assert(text.len() > 0) by {
        if text.len() == 0 {
            assert(encode_utf8(text).len() == 0);
        }
    }
    let head = text.drop_last();
    let k = prefix_within(text, limit).len() as int;
    if head.len() == 0 {
        assert(encode_utf8(head).len() == 0);
    }
    if encode_utf8(head).len() <= limit {
        assert(prefix_within(head, limit) == head);
        assert(text.take(k) =~= head);
        assert(text.take(k + 1) =~= text);
    } else {
        lemma_prefix_within(head, limit);
        assert(head.take(k) =~= text.take(k));
        assert(head.take(k + 1) =~= text.take(k + 1));
    }
}

/// The bytes found for a MIME type are those of its first payload.
pub proof fn law_found_bytes(payloads: Seq<PayloadView>, mime: Seq<char>, k: int)
    ensures
        0 <= k < payloads.len() && payloads[k].0 == mime && (forall|i: int|
            0 <= i < k ==> #[trigger] payloads[i].0 != mime) ==> bytes_of(payloads, mime) == Some(
            payloads[k].1,
        ),
        (forall|i: int| 0 <= i < payloads.len() ==> #[trigger] payloads[i].0 != mime) ==> bytes_of(
            payloads,
            mime,
        ) is None,
        0 <= k < payloads.len() && mime.is_prefix_of(payloads[k].0) && (forall|i: int|
            0 <= i < k ==> !mime.is_prefix_of(#[trigger] payloads[i].0)) ==> bytes_of_prefix(
            payloads,
            mime,
        ) == Some(payloads[k].1),
        (forall|i: int| 0 <= i < payloads.len() ==> !mime.is_prefix_of(#[trigger] payloads[i].0))
            ==> bytes_of_prefix(payloads, mime) is None,
    decreases payloads.len(),
{
    if payloads.len() > 0 {
        let rest = payloads.drop_first();
        let p = payloads[0].0;
        assert(begins_with(p, mime) <==> mime.is_prefix_of(p)) by {
            if mime.len() <= p.len() {
                assert(p.take(mime.len() as int) =~= p.subrange(0, mime.len() as int));
            }
        }
        law_found_bytes(rest, mime, k - 1);
        assert(forall|i: int| 0 <= i < rest.len() ==> rest[i] == #[trigger] payloads[i + 1]);
        assert(forall|i: int| 0 <= i < rest.len() ==> #[trigger] rest[i] == payloads[i + 1]);
    }
}

/// An entry of text is labelled by its UTF-8 text if it has any, else by its plain text, else by
/// its first payload of a text type; what is shown is the text without white space around it, cut
/// if it is long.
pub proof fn law_text_label(payloads: Seq<PayloadView>)
    ensures
        ({
            let utf8 = bytes_of(payloads, "text/plain;charset=utf-8"@);
            let plain = bytes_of(payloads, "text/plain"@);
            let other = bytes_of_prefix(payloads, "text/"@);
            let label = label_text(EntryKind::Text, payloads);
            &&& utf8 matches Some(data) ==> label == shortened(trimmed(lossy_text(data)))
            &&& utf8 is None ==> (plain matches Some(data) ==> label == shortened(
                trimmed(lossy_text(data)),
            ))
            &&& utf8 is None && plain is None ==> (other matches Some(data) ==> label == shortened(
                trimmed(lossy_text(data)),
            ))
            &&& utf8 is None && plain is None && other is None ==> label == "text"@
        }),
{
}

/// The labels of all other kinds: an entry with a URI list is labelled by it, one without by what
/// it is.
pub proof fn law_other_labels(payloads: Seq<PayloadView>)
    ensures
        bytes_of(payloads, "text/uri-list"@) matches Some(data) ==> label_text(
            EntryKind::File,
            payloads,
        ) == uri_list_label(lossy_text(data)) && label_text(EntryKind::Uri, payloads)
            == uri_list_label(lossy_text(data)),
        bytes_of(payloads, "text/uri-list"@) is None ==> label_text(EntryKind::File, payloads)
            == "file"@ && label_text(EntryKind::Uri, payloads) == "file"@,
        label_text(EntryKind::Image, payloads) == "image"@,
        label_text(EntryKind::Other, payloads) == "binary"@,
{
}

// ---------------------------------------------------------------------------
// Recording
// ---------------------------------------------------------------------------

/// Whether an offer is new and can be recorded: something was read of it, it is not waited for, no
/// entry has its hash, and there is room for another one.
pub open spec fn is_recordable(daemon: DaemonView, capture: CaptureView, moment: Moment) -> bool {
    let payloads = normal_form(capture.payloads);
    &&& sound(daemon.db)
    &&& !capture.too_large
    &&& capture.payloads.len() > 0
    &&& hash_input(payloads).len() < 0x2000_0000_0000_0000
    &&& !suppresses(daemon.suppress, hash_text(payloads), moment)
    &&& forall|i: int|
        0 <= i < daemon.db.rows.len() ==> #[trigger] daemon.db.rows[i].hash != hash_text(payloads)
    &&& daemon.db.last_id < i64::MAX
    &&& daemon.db.rows.len() < daemon.db.max_entries
}

/// An offer that is not waited for is recorded as an entry of what was read of it, whatever the
/// history holds: with its hash, its kind, its label, which is also its preview, its size and the
/// moment it was read at. What comes of it is the id of its row, or the error.
pub proof fn law_offer_becomes_entry(
    daemon: DaemonView,
    capture: CaptureView,
    now: (i64, u32),
    moment: Moment,
)
    requires
        !capture.too_large,
        capture.payloads.len() > 0,
        hash_input(normal_form(capture.payloads)).len() < 0x2000_0000_0000_0000,
        !suppresses(daemon.suppress, hash_text(normal_form(capture.payloads)), moment),
    ensures
        ({
            let payloads = normal_form(capture.payloads);
            let kind = kind_of(Seq::new(payloads.len(), |i: int| payloads[i].0));
            let label = label_text(kind, payloads);
            let entry = NewEntryView {
                hash: hash_text(payloads),
                kind,
                label,
                preview: label,
                size: total_len(payloads) as usize,
                created_at: now,
                payloads,
            };
            let outcome = ready_outcome(daemon, capture, now, moment);
            &&& after_ready(daemon, capture, now, moment).db == after_insert(
                daemon.db,
                entry,
                rfc3339_text(now.0, now.1),
            )
            &&& insert_result(daemon.db, entry) matches Ok(id) ==> outcome == (
            OutcomeView::Stored { id, kind, label })
            &&& insert_result(daemon.db, entry) matches Err(error) ==> outcome == (
            OutcomeView::Failed { error })
        }),
{
    let payloads = normal_form(capture.payloads);
    lemma_hash_input_len(payloads);
    assert(Seq::new(payloads.len(), |i: int| payloads[i].0) =~= mimes_of(payloads));
}

/// What cannot be hashed, having too many bytes for SHA-256, is not recorded; nothing changes.
pub proof fn law_unhashable_offer(
    daemon: DaemonView,
    capture: CaptureView,
    now: (i64, u32),
    moment: Moment,
)
    requires
        !capture.too_large,
        capture.payloads.len() > 0,
        hash_input(normal_form(capture.payloads)).len() >= 0x2000_0000_0000_0000,
    ensures
        ready_outcome(daemon, capture, now, moment) == OutcomeView::Unhashable,
        after_ready(daemon, capture, now, moment) == daemon,
{
    lemma_hash_input_len(normal_form(capture.payloads));
}

/// A new offer is recorded: the history gets one more row, with the next id, the hash of what was
/// read, its kind and label, its size, the moment it was read at and all that was read; nothing else
/// changes.
pub proof fn law_offer_is_recorded(
    daemon: DaemonView,
    capture: CaptureView,
    now: (i64, u32),
    moment: Moment,
)
    requires
        is_recordable(daemon, capture, moment),
    ensures
        ({
            let payloads = normal_form(capture.payloads);
            let kind = kind_of(Seq::new(payloads.len(), |i: int| payloads[i].0));
            let label = label_text(kind, payloads);
            let (rows, after) = (daemon.db.rows, after_ready(daemon, capture, now, moment));
            let row = after.db.rows.last();
            &&& after.db.rows.len() == rows.len() + 1
            &&& forall|i: int| 0 <= i < rows.len() ==> #[trigger] after.db.rows[i] == rows[i]
            &&& row.id == daemon.db.last_id + 1
            &&& row.hash == hash_text(payloads)
            &&& row.kind == kind_name(kind)
            &&& row.label == label
            &&& row.preview == label
            &&& total_len(payloads) <= i64::MAX && total_len(payloads) <= usize::MAX ==> row.size
                == total_len(payloads)
            &&& row.created_at == rfc3339_text(now.0, now.1)
            &&& row.last_used_at == rfc3339_text(now.0, now.1)
            &&& row.payloads == payloads
            &&& after.db.last_id == daemon.db.last_id + 1
            &&& after.db.max_entries == daemon.db.max_entries
            &&& after.db.has_legacy_timestamp == daemon.db.has_legacy_timestamp
            &&& after.suppress == after_offer(daemon.suppress, row.hash, moment)
            &&& ready_outcome(daemon, capture, now, moment) == (OutcomeView::Stored {
                id: row.id,
                kind,
                label,
            })
        }),
{
    let payloads = normal_form(capture.payloads);
    let names = Seq::new(payloads.len(), |i: int| payloads[i].0);
    assert(names =~= mimes_of(payloads));
    let kind = kind_of(names);
    let hash = hash_text(payloads);
    lemma_hash_input_len(payloads);
    if id_with_hash(daemon.db.rows, hash) is Some {
        let k = lemma_hash_found(daemon.db.rows, hash);
    }
    let entry = entry_for(hash, kind, label_text(kind, payloads), payloads, now);
    let stamp = rfc3339_text(now.0, now.1);
    law_new_entry_is_added(daemon.db, entry, stamp);
    assert(after_ready(daemon, capture, now, moment).db == after_insert(daemon.db, entry, stamp));
    let size = total_len(payloads) as usize;
    if total_len(payloads) <= i64::MAX && total_len(payloads) <= usize::MAX {
        assert(size == total_len(payloads));
        assert(size as i64 == size);
    }
}

/// An offer that is waited for is not recorded, nor is one when all ids have been given out.
pub proof fn law_offer_is_not_recorded(
    daemon: DaemonView,
    capture: CaptureView,
    now: (i64, u32),
    moment: Moment,
)
    requires
        !capture.too_large,
        capture.payloads.len() > 0,
        hash_input(normal_form(capture.payloads)).len() < 0x2000_0000_0000_0000,
    ensures
        ({
            let hash = hash_text(normal_form(capture.payloads));
            let after = after_ready(daemon, capture, now, moment);
            &&& suppresses(daemon.suppress, hash, moment) ==> after.db == daemon.db
                && after.suppress is None && ready_outcome(daemon, capture, now, moment) == (
            OutcomeView::Suppressed { hash })
            &&& !suppresses(daemon.suppress, hash, moment) && daemon.db.last_id == i64::MAX && (
            forall|i: int|
                0 <= i < daemon.db.rows.len() ==> #[trigger] daemon.db.rows[i].hash != hash)
                ==> after.db == daemon.db && ready_outcome(daemon, capture, now, moment) == (
            OutcomeView::Failed { error: DbError::Full })
        }),
{
    let payloads = normal_form(capture.payloads);
    lemma_hash_input_len(payloads);
    if id_with_hash(daemon.db.rows, hash_text(payloads)) is Some {
        let k = lemma_hash_found(daemon.db.rows, hash_text(payloads));
    }
}

/// What was read for a MIME type is what is written for it when the entry is offered again, byte for
/// byte: recording the offer, asking for the entry and asking for the type gives back its bytes.
pub proof fn law_recorded_bytes_are_served(
    daemon: DaemonView,
    capture: CaptureView,
    now: (i64, u32),
    moment: Moment,
    later: (i64, u32),
    k: int,
    mime: String,
)
    requires
        is_recordable(daemon, capture, moment),
        0 <= k < capture.payloads.len(),
        mime@ == capture.payloads[k].0,
        forall|j: int|
            0 <= j < capture.payloads.len() && j != k ==> #[trigger] capture.payloads[j].0 != mime@,
    ensures
        ({
            let id = (daemon.db.last_id + 1) as i64;
            let after = after_ready(daemon, capture, now, moment).db;
            let reply = reply_to(after, Request::Restore { id }, later);
            &&& reply.response == ResponseView::Done
            &&& reply.restore is Some
            &&& action_for(
                served(reply.restore->0.payloads),
                SourceEvent::Send { mime_type: mime },
            ) == (SourceActionView::Write { data: capture.payloads[k].1 })
        }),
{
    let input = capture.payloads;
    let payloads = normal_form(input);
    let id = (daemon.db.last_id + 1) as i64;
    let after = after_ready(daemon, capture, now, moment).db;
    law_offer_is_recorded(daemon, capture, now, moment);
    assert(ids_ascend(after.rows)) by {
        assert forall|i: int, j: int| 0 <= i < j < after.rows.len() implies after.rows[i].id
            < after.rows[j].id by {
            assert(after.rows[i] == daemon.db.rows[i]);
            if j < daemon.db.rows.len() {
                assert(after.rows[j] == daemon.db.rows[j]);
                assert(daemon.db.rows[i].id < daemon.db.rows[j].id);
            }
        }
    }
    law_restoring(after, after.rows.len() - 1, later, Seq::empty());
    law_normal_form_exists(input);
    assert(input.contains(input[k]));
    assert(covers(payloads, input[k]));
    let i = choose|i: int| 0 <= i < payloads.len() && #[trigger] payloads[i].0 == input[k].0;
    assert(input.contains(payloads[i]));
    let j = choose|j: int| 0 <= j < input.len() && input[j] == payloads[i];
    assert(input[j].0 == mime@);
    assert(payloads[i] == input[k]);
    assert forall|m: int| i < m < payloads.len() implies #[trigger] payloads[m].0 != mime@ by {
        assert(text_before(payloads[i].0, payloads[m].0));
        lemma_text_before_order(payloads[i].0, payloads[m].0, payloads[i].0);
    }
    law_served_bytes_are_exact(payloads, i, mime);
}

/// The wait for a restored entry lasts five seconds and ends when the entry is seen; without one
/// nothing is suppressed.
pub proof fn law_wait_for_restored_entry(
    hash: Seq<char>,
    other: Seq<char>,
    restored: Moment,
    seen: Moment,
)
    requires
        restored.nanos + 5_000_000_000 <= u128::MAX,
    ensures
        suppresses(armed(hash, restored), other, seen) <==> other == hash && seen.nanos
            <= restored.nanos + 5_000_000_000,
        suppresses(armed(hash, restored), other, seen) || seen.nanos > restored.nanos
            + 5_000_000_000 ==> after_offer(armed(hash, restored), other, seen) is None,
        other != hash && seen.nanos <= restored.nanos + 5_000_000_000 ==> after_offer(
            armed(hash, restored),
            other,
            seen,
        ) == armed(hash, restored),
        !suppresses(None, other, seen),
        after_offer(None, other, seen) is None,
{
}

} // verus!
