//! The hash that identifies an offer.
use vstd::prelude::*;
use vstd::relations::{sorted_by, total_ordering};
use vstd::utf8::encode_utf8;

use crate::order::{picked, sorted_order, views, Ranked};
use crate::outside::{
    hex_digit, hex_encode, hex_text, sha256, sha256_digest, SHA256_LIMIT,
};
use crate::payload::PayloadView;
use crate::text::{
    bytes_before, is_bytes_before, is_text_before, lemma_bytes_before_irreflexive,
    lemma_bytes_before_total, lemma_bytes_before_transitive, lemma_encoding_injective,
    lemma_text_before_order, same_text, text_before,
};

verus! {

/// The order of payloads in the hashed message: by MIME type, then by bytes.
pub open spec fn payload_before(a: PayloadView, b: PayloadView) -> bool {
    text_before(a.0, b.0) || (a.0 == b.0 && bytes_before(a.1, b.1))
}

/// The reflexive form of the payload order.
pub open spec fn payload_order() -> spec_fn(PayloadView, PayloadView) -> bool {
    |a: PayloadView, b: PayloadView| a == b || payload_before(a, b)
}

proof fn lemma_payload_before(a: PayloadView, b: PayloadView, c: PayloadView)
    ensures
        !payload_before(a, a),
        payload_before(a, b) && payload_before(b, c) ==> payload_before(a, c),
        a == b || payload_before(a, b) || payload_before(b, a),
        !(payload_before(a, b) && payload_before(b, a)),
{
    lemma_text_before_order(a.0, b.0, c.0);
    lemma_text_before_order(b.0, c.0, a.0);
    lemma_bytes_before_irreflexive(a.1);
    lemma_bytes_before_total(a.1, b.1);
    if bytes_before(a.1, b.1) && bytes_before(b.1, c.1) {
        lemma_bytes_before_transitive(a.1, b.1, c.1);
    }
    if bytes_before(a.1, b.1) && bytes_before(b.1, a.1) {
        lemma_bytes_before_transitive(a.1, b.1, a.1);
    }
}

pub proof fn lemma_payload_order_total()
    ensures
        total_ordering(payload_order()),
{
    let leq = payload_order();
    assert forall|x: PayloadView, y: PayloadView|
        #[trigger] leq(x, y) && #[trigger] leq(y, x) implies x == y by {
        lemma_payload_before(x, y, x);
    }
    assert forall|x: PayloadView, y: PayloadView, z: PayloadView|
        #[trigger] leq(x, y) && #[trigger] leq(y, z) implies leq(x, z) by {
        lemma_payload_before(x, y, z);
    }
    assert forall|x: PayloadView, y: PayloadView| #[trigger] leq(x, y) || #[trigger] leq(y, x) by {
        lemma_payload_before(x, y, x);
    }
}

impl Ranked for (String, Vec<u8>) {
    open spec fn ranks_at_most(a: PayloadView, b: PayloadView) -> bool {
        a == b || payload_before(a, b)
    }

    proof fn lemma_ranks(a: PayloadView, b: PayloadView, c: PayloadView) {
        lemma_payload_before(a, b, c);
    }

    fn may_precede(&self, other: &Self) -> (r: bool) {
        proof {
            lemma_payload_before(self@, other@, self@);
            lemma_text_before_order(self@.0, other@.0, self@.0);
            lemma_bytes_before_total(self@.1, other@.1);
            if bytes_before(self@.1, other@.1) && bytes_before(other@.1, self@.1) {
                lemma_bytes_before_transitive(self@.1, other@.1, self@.1);
            }
            lemma_bytes_before_irreflexive(self@.1);
        }
        if same_text(self.0.as_str(), other.0.as_str()) {
            !is_bytes_before(other.1.as_slice(), self.1.as_slice())
        } else {
            is_text_before(self.0.as_str(), other.0.as_str())
        }
    }
}

/// Whether a byte string holds no NUL byte.
pub open spec fn nul_free(bytes: Seq<u8>) -> bool {
    forall|i: int| 0 <= i < bytes.len() ==> #[trigger] bytes[i] != 0
}

/// Whether a payload holds no NUL byte, neither in its MIME type nor in its bytes.
pub open spec fn is_plain(p: PayloadView) -> bool {
    nul_free(encode_utf8(p.0)) && nul_free(p.1)
}

/// Whether no payload holds a NUL byte.
pub open spec fn all_plain(payloads: Seq<PayloadView>) -> bool {
    forall|i: int| 0 <= i < payloads.len() ==> is_plain(#[trigger] payloads[i])
}

/// A byte in a form without NUL bytes: 0 and 1 become two bytes that begin with 1.
pub open spec fn escaped_byte(b: u8) -> Seq<u8> {
    if b == 0 {
        seq![1u8, 2u8]
    } else if b == 1 {
        seq![1u8, 1u8]
    } else {
        seq![b]
    }
}

/// A byte string in a form without NUL bytes.
pub open spec fn escaped(bytes: Seq<u8>) -> Seq<u8>
    decreases bytes.len(),
{
    if bytes.len() == 0 {
        Seq::empty()
    } else {
        escaped_byte(bytes[0]) + escaped(bytes.drop_first())
    }
}

/// A byte string as it stands in the hashed message.
pub open spec fn part(bytes: Seq<u8>, escaping: bool) -> Seq<u8> {
    if escaping {
        escaped(bytes)
    } else {
        bytes
    }
}

/// One payload in the hashed message: the MIME type and the bytes, a NUL byte after each.
pub open spec fn frame(p: PayloadView, escaping: bool) -> Seq<u8> {
    part(encode_utf8(p.0), escaping) + seq![0u8] + part(p.1, escaping) + seq![0u8]
}

/// Payloads in the hashed message, one after the other.
pub open spec fn frames(payloads: Seq<PayloadView>, escaping: bool) -> Seq<u8>
    decreases payloads.len(),
{
    if payloads.len() == 0 {
        Seq::empty()
    } else {
        frame(payloads[0], escaping) + frames(payloads.drop_first(), escaping)
    }
}

/// The message that is hashed: the frames of the payloads in payload order. If a payload holds a
/// NUL byte, which would look like the end of a part, all parts are escaped, and a last byte that
/// is not NUL tells this.
pub open spec fn hash_input(payloads: Seq<PayloadView>) -> Seq<u8> {
    let sorted = payloads.sort_by(payload_order());
    if all_plain(payloads) {
        frames(sorted, false)
    } else {
        frames(sorted, true).push(1u8)
    }
}

/// The length of the frames of payloads.
pub open spec fn frames_len(payloads: Seq<PayloadView>, escaping: bool) -> nat
    decreases payloads.len(),
{
    if payloads.len() == 0 {
        0
    } else {
        part(encode_utf8(payloads[0].0), escaping).len() + part(payloads[0].1, escaping).len() + 2
            + frames_len(payloads.drop_first(), escaping)
    }
}

/// The length of the message that is hashed.
pub open spec fn message_len(payloads: Seq<PayloadView>) -> nat {
    if all_plain(payloads) {
        frames_len(payloads, false)
    } else {
        frames_len(payloads, true) + 1
    }
}

proof fn lemma_frames_len(payloads: Seq<PayloadView>, escaping: bool)
    ensures
        frames(payloads, escaping).len() == frames_len(payloads, escaping),
    decreases payloads.len(),
{
    if payloads.len() > 0 {
        lemma_frames_len(payloads.drop_first(), escaping);
    }
}

proof fn lemma_frames_len_remove(s: Seq<PayloadView>, k: int, escaping: bool)
    requires
        0 <= k < s.len(),
    ensures
        frames_len(s, escaping) == frames_len(s.remove(k), escaping) + part(
            encode_utf8(s[k].0),
            escaping,
        ).len() + part(s[k].1, escaping).len() + 2,
    decreases k,
{
    if k == 0 {
        assert(s.remove(0) =~= s.drop_first());
    } else {
        lemma_frames_len_remove(s.drop_first(), k - 1, escaping);
        assert(s.remove(k).drop_first() =~= s.drop_first().remove(k - 1));
    }
}

proof fn lemma_frames_len_multiset(s: Seq<PayloadView>, t: Seq<PayloadView>, escaping: bool)
    requires
        s.to_multiset() == t.to_multiset(),
    ensures
        frames_len(s, escaping) == frames_len(t, escaping),
    decreases s.len(),
{
    broadcast use vstd::seq_lib::group_to_multiset_ensures;

    vstd::seq_lib::to_multiset_len(s);
    vstd::seq_lib::to_multiset_len(t);
    if s.len() > 0 {
        let p = s[0];
        assert(s.contains(p));
        assert(t.to_multiset().count(p) > 0);
        assert(t.contains(p));
        let k = choose|k: int| 0 <= k < t.len() && t[k] == p;
        vstd::seq_lib::to_multiset_remove(s, 0);
        vstd::seq_lib::to_multiset_remove(t, k);
        assert(s.remove(0) =~= s.drop_first());
        lemma_frames_len_remove(s, 0, escaping);
        lemma_frames_len_remove(t, k, escaping);
        lemma_frames_len_multiset(s.remove(0), t.remove(k), escaping);
    }
}

/// The length of the message does not depend on the payload order.
pub proof fn lemma_hash_input_len(payloads: Seq<PayloadView>)
    ensures
        hash_input(payloads).len() == message_len(payloads),
{
    let sorted = payloads.sort_by(payload_order());
    let escaping = !all_plain(payloads);
    lemma_payload_order_total();
    payloads.lemma_sort_by_ensures(payload_order());
    lemma_frames_len(sorted, escaping);
    lemma_frames_len_multiset(payloads, sorted, escaping);
}

/// The hash of payloads, in hexadecimal notation.
pub open spec fn hash_text(payloads: Seq<PayloadView>) -> Seq<char> {
    hex_text(sha256_digest(hash_input(payloads)))
}

/// Tells whether a byte string holds no NUL byte.
fn is_nul_free(bytes: &[u8]) -> (r: bool)
    ensures
        r == nul_free(bytes@),
{
    let mut i: usize = 0;
    while i < bytes.len()
        invariant
            i <= bytes@.len(),
            forall|k: int| 0 <= k < i ==> #[trigger] bytes@[k] != 0,
        decreases bytes@.len() - i,
    {
        if bytes[i] == 0 {
            return false;
        }
        i += 1;
    }
    true
}

/// Tells whether no payload holds a NUL byte.
fn is_all_plain(payloads: &[(String, Vec<u8>)]) -> (r: bool)
    ensures
        r == all_plain(views(payloads@)),
{
    let ghost all = views(payloads@);
    let mut i: usize = 0;
    while i < payloads.len()
        invariant
            all == views(payloads@),
            i <= payloads@.len(),
            forall|k: int| 0 <= k < i ==> is_plain(#[trigger] all[k]),
        decreases payloads@.len() - i,
    {
        let p = &payloads[i];
        assert(all[i as int] == p@);
        if !is_nul_free(p.0.as_str().as_bytes()) || !is_nul_free(p.1.as_slice()) {
            assert(!is_plain(all[i as int]));
            return false;
        }
        i += 1;
    }
    true
}

/// Appends a part to a message, and the NUL byte that follows it.
fn append_part(message: &mut Vec<u8>, bytes: &[u8], escaping: bool)
    ensures
        final(message)@ == old(message)@ + part(bytes@, escaping) + seq![0u8],
{
    if escaping {
        let ghost start = message@;
        let ghost all = bytes@;
        let mut i: usize = 0;
        assert(all.skip(0) =~= all);
        while i < bytes.len()
            invariant
                all == bytes@,
                i <= all.len(),
                message@ + escaped(all.skip(i as int)) == start + escaped(all),
            decreases all.len() - i,
        {
            let ghost before = message@;
            let ghost rest = all.skip(i as int);
            let b = bytes[i];
            if b == 0 {
                message.push(1u8);
                message.push(2u8);
            } else if b == 1 {
                message.push(1u8);
                message.push(1u8);
            } else {
                message.push(b);
            }
            proof {
                assert(rest[0] == b);
                assert(rest.drop_first() =~= all.skip(i + 1));
                assert(message@ =~= before + escaped_byte(b));
                assert(message@ + escaped(all.skip(i + 1)) =~= before + escaped(rest));
            }
            i += 1;
        }
        assert(message@ + escaped(all.skip(i as int)) =~= message@);
    } else {
        message.extend_from_slice(bytes);
        assert(message@ =~= old(message)@ + bytes@);
    }
    message.push(0u8);
    assert(message@ =~= old(message)@ + part(bytes@, escaping) + seq![0u8]);
}

/// Builds the frames of payloads in payload order.
fn frame_payloads(payloads: &[(String, Vec<u8>)], escaping: bool) -> (message: Vec<u8>)
    ensures
        message@ == frames(views(payloads@).sort_by(payload_order()), escaping),
{
    let ghost all = views(payloads@);
    let order = sorted_order(payloads);
    let ghost sorted = picked(all, order@);
    proof {
        lemma_payload_order_total();
        all.lemma_sort_by_ensures(payload_order());
        assert(sorted_by(sorted, payload_order()));
        vstd::seq_lib::lemma_sorted_unique(sorted, all.sort_by(payload_order()), payload_order());
    }
    let mut message: Vec<u8> = Vec::new();
    let mut i: usize = 0;
    assert(sorted.skip(0) =~= sorted);
    assert(message@ + frames(sorted, escaping) =~= frames(sorted, escaping));
    while i < order.len()
        invariant
            all == views(payloads@),
            sorted == picked(all, order@),
            i <= order@.len(),
            forall|k: int| 0 <= k < order@.len() ==> #[trigger] order@[k] < payloads@.len(),
            message@ + frames(sorted.skip(i as int), escaping) == frames(sorted, escaping),
        decreases order@.len() - i,
    {
        let ghost before = message@;
        let p = &payloads[order[i]];
        append_part(&mut message, p.0.as_str().as_bytes(), escaping);
        append_part(&mut message, p.1.as_slice(), escaping);
        proof {
            let rest = frames(sorted.skip(i + 1), escaping);
            assert(sorted[i as int] == p@);
            assert(message@ =~= before + frame(p@, escaping));
            assert(sorted.skip(i as int).drop_first() =~= sorted.skip(i + 1));
            assert(before + (frame(p@, escaping) + rest) =~= message@ + rest);
        }
        i += 1;
    }
    assert(message@ + frames(sorted.skip(i as int), escaping) =~= message@);
    message
}

/// Builds the message that is hashed.
pub fn hash_message(payloads: &[(String, Vec<u8>)]) -> (message: Vec<u8>)
    ensures
        message@ == hash_input(views(payloads@)),
{
    let escaping = !is_all_plain(payloads);
    let mut message = frame_payloads(payloads, escaping);
    if escaping {
        message.push(1u8);
    }
    message
}

/// Whether a text holds only lower-case hexadecimal digits.
pub open spec fn is_hex(text: Seq<char>) -> bool {
    forall|i: int|
        0 <= i < text.len() ==> '0' <= #[trigger] text[i] <= '9' || 'a' <= text[i] <= 'f'
}

/// The hexadecimal notation of bytes holds only lower-case hexadecimal digits.
proof fn lemma_hex_text(bytes: Seq<u8>)
    ensures
        is_hex(hex_text(bytes)),
{
    assert forall|i: int| 0 <= i < hex_text(bytes).len() implies '0' <= #[trigger] hex_text(
        bytes,
    )[i] <= '9' || 'a' <= hex_text(bytes)[i] <= 'f' by {
        let b = bytes[i / 2] as int;
        let d = if i % 2 == 0 {
            b / 16
        } else {
            b % 16
        };
        assert(0 <= d < 16);
        assert(d < 10 ==> hex_digit(d) as int == d + 48);
        assert(d >= 10 ==> hex_digit(d) as int == d + 87);
    }
}

/// The SHA-256 digest of a message, in hexadecimal notation.
fn digest_text(message: &[u8]) -> (text: String)
    requires
        message@.len() < SHA256_LIMIT,
    ensures
        text@ == hex_text(sha256_digest(message@)),
        text@.len() == 64,
        is_hex(text@),
{
    let digest = sha256(message);
    proof {
        lemma_hex_text(digest@);
    }
    hex_encode(digest.as_slice())
}

/// The hash of payloads: two offers of the same payloads have the same hash, whatever their
/// order.
pub fn payload_hash(payloads: &[(String, Vec<u8>)]) -> (hash: String)
    requires
        message_len(views(payloads@)) < SHA256_LIMIT,
    ensures
        hash@ == hash_text(views(payloads@)),
        hash@.len() == 64,
        is_hex(hash@),
{
    let message = hash_message(payloads);
    proof {
        lemma_hash_input_len(views(payloads@));
    }
    digest_text(message.as_slice())
}

/// The hash of payloads, or nothing for payloads too long to be hashed.
pub fn try_payload_hash(payloads: &[(String, Vec<u8>)]) -> (hash: Option<String>)
    ensures
        hash is Some <==> message_len(views(payloads@)) < SHA256_LIMIT,
        hash matches Some(h) ==> h@ == hash_text(views(payloads@)) && h@.len() == 64 && is_hex(h@),
{
    let message = hash_message(payloads);
    proof {
        lemma_hash_input_len(views(payloads@));
    }
    if message.len() as u64 >= SHA256_LIMIT {
        return None;
    }
    Some(digest_text(message.as_slice()))
}

// ---------------------------------------------------------------------------
// Hashes of unescaped frames
// ---------------------------------------------------------------------------

/// The digest of the unescaped frames of payloads, in hexadecimal notation. Without NUL bytes this
/// is their hash. A table on disk may keep entries with NUL bytes under it, too.
pub open spec fn unescaped_hash_text(payloads: Seq<PayloadView>) -> Seq<char> {
    hex_text(sha256_digest(frames(payloads.sort_by(payload_order()), false)))
}

/// Whether payloads have another hash than the one given, which is the digest of their unescaped
/// frames.
pub open spec fn is_outdated_hash(hash: Seq<char>, payloads: Seq<PayloadView>) -> bool {
    &&& !all_plain(payloads)
    &&& message_len(payloads) < SHA256_LIMIT
    &&& hash == unescaped_hash_text(payloads)
}

proof fn lemma_escaped_is_longer(bytes: Seq<u8>)
    ensures
        bytes.len() <= escaped(bytes).len(),
    decreases bytes.len(),
{
    if bytes.len() > 0 {
        lemma_escaped_is_longer(bytes.drop_first());
    }
}

proof fn lemma_escaped_frames_are_longer(payloads: Seq<PayloadView>)
    ensures
        frames_len(payloads, false) <= frames_len(payloads, true),
    decreases payloads.len(),
{
    if payloads.len() > 0 {
        lemma_escaped_is_longer(encode_utf8(payloads[0].0));
        lemma_escaped_is_longer(payloads[0].1);
        lemma_escaped_frames_are_longer(payloads.drop_first());
    }
}

/// The hash of payloads, if the one they are kept under is the digest of their unescaped frames
/// and not their hash.
pub fn current_hash(hash: &str, payloads: &[(String, Vec<u8>)]) -> (r: Option<String>)
    ensures
        r is Some <==> is_outdated_hash(hash@, views(payloads@)),
        r matches Some(h) ==> h@ == hash_text(views(payloads@)),
{
    let ghost all = views(payloads@);
    if is_all_plain(payloads) {
        return None;
    }
    let unescaped = frame_payloads(payloads, false);
    proof {
        let sorted = all.sort_by(payload_order());
        lemma_payload_order_total();
        all.lemma_sort_by_ensures(payload_order());
        lemma_frames_len(sorted, false);
        lemma_frames_len_multiset(all, sorted, false);
        lemma_escaped_frames_are_longer(all);
    }
    if unescaped.len() as u64 >= SHA256_LIMIT {
        return None;
    }
    let bare = digest_text(unescaped.as_slice());
    if !same_text(bare.as_str(), hash) {
        return None;
    }
    try_payload_hash(payloads)
}

// ---------------------------------------------------------------------------
// What the hash tells apart
// ---------------------------------------------------------------------------

/// Reordering keeps the payloads, and whether one of them holds a NUL byte.
pub proof fn lemma_same_payloads(a: Seq<PayloadView>, b: Seq<PayloadView>)
    requires
        a.to_multiset() == b.to_multiset(),
    ensures
        forall|p: PayloadView| #[trigger] a.contains(p) <==> b.contains(p),
        all_plain(a) == all_plain(b),
{
    broadcast use vstd::seq_lib::group_to_multiset_ensures;

    assert forall|p: PayloadView| #[trigger] a.contains(p) <==> b.contains(p) by {
        assert(a.contains(p) <==> a.to_multiset().count(p) > 0);
        assert(b.contains(p) <==> b.to_multiset().count(p) > 0);
    }
    if all_plain(a) {
        lemma_plain_among(a, b);
    }
    if all_plain(b) {
        lemma_plain_among(b, a);
    }
}

proof fn lemma_plain_among(a: Seq<PayloadView>, b: Seq<PayloadView>)
    requires
        all_plain(a),
        forall|p: PayloadView| #[trigger] b.contains(p) ==> a.contains(p),
    ensures
        all_plain(b),
{
    assert forall|i: int| 0 <= i < b.len() implies is_plain(#[trigger] b[i]) by {
        assert(b.contains(b[i]));
        let k = choose|k: int| 0 <= k < a.len() && a[k] == b[i];
        assert(is_plain(a[k]));
    }
}

/// The hash does not depend on the order of the payloads: offers of the same payloads, each the
/// same number of times, are hashed from the same message.
pub proof fn law_hash_ignores_order(a: Seq<PayloadView>, b: Seq<PayloadView>)
    requires
        a.to_multiset() == b.to_multiset(),
    ensures
        hash_input(a) == hash_input(b),
        hash_text(a) == hash_text(b),
{
    lemma_payload_order_total();
    a.lemma_sort_by_ensures(payload_order());
    b.lemma_sort_by_ensures(payload_order());
    lemma_same_payloads(a, b);
    vstd::seq_lib::lemma_sorted_unique(
        a.sort_by(payload_order()),
        b.sort_by(payload_order()),
        payload_order(),
    );
}

proof fn lemma_split_at_nul(x: Seq<u8>, r: Seq<u8>, y: Seq<u8>, t: Seq<u8>)
    requires
        nul_free(x),
        nul_free(y),
        x + seq![0u8] + r == y + seq![0u8] + t,
    ensures
        x == y,
        r == t,
{
    let l = x + seq![0u8] + r;
    let m = y + seq![0u8] + t;
    assert(l[x.len() as int] == 0);
    assert(m[y.len() as int] == 0);
    if x.len() < y.len() {
        assert(m[x.len() as int] == y[x.len() as int]);
    } else if y.len() < x.len() {
        assert(l[y.len() as int] == x[y.len() as int]);
    }
    assert(x =~= l.take(x.len() as int));
    assert(y =~= m.take(y.len() as int));
    assert(r =~= l.skip(x.len() as int + 1));
    assert(t =~= m.skip(y.len() as int + 1));
}

/// An escaped byte string holds no NUL byte.
proof fn lemma_escaped_nul_free(bytes: Seq<u8>)
    ensures
        nul_free(escaped(bytes)),
    decreases bytes.len(),
{
    if bytes.len() > 0 {
        let (first, rest) = (escaped_byte(bytes[0]), escaped(bytes.drop_first()));
        lemma_escaped_nul_free(bytes.drop_first());
        assert forall|i: int| 0 <= i < escaped(bytes).len() implies #[trigger] escaped(bytes)[i]
            != 0 by {
            if i < first.len() {
                assert(escaped(bytes)[i] == first[i]);
            } else {
                assert(escaped(bytes)[i] == rest[i - first.len()]);
            }
        }
    }
}

/// Byte strings are told apart by their escaped forms.
proof fn lemma_escaped_injective(a: Seq<u8>, b: Seq<u8>)
    requires
        escaped(a) == escaped(b),
    ensures
        a == b,
    decreases a.len(),
{
    if a.len() == 0 || b.len() == 0 {
        if a.len() > 0 {
            assert(escaped(a).len() >= escaped_byte(a[0]).len());
        }
        if b.len() > 0 {
            assert(escaped(b).len() >= escaped_byte(b[0]).len());
        }
        assert(a =~= b);
    } else {
        let (x, y) = (escaped_byte(a[0]), escaped_byte(b[0]));
        let (r, t) = (escaped(a.drop_first()), escaped(b.drop_first()));
        let (l, m) = (x + r, y + t);
        assert(l[0] == x[0] && m[0] == y[0]);
        assert(x.len() == 2 ==> l[1] == x[1]);
        assert(y.len() == 2 ==> m[1] == y[1]);
        assert(a[0] == b[0]);
        assert(r =~= l.skip(x.len() as int));
        assert(t =~= m.skip(y.len() as int));
        lemma_escaped_injective(a.drop_first(), b.drop_first());
        assert(a =~= seq![a[0]] + a.drop_first());
        assert(b =~= seq![b[0]] + b.drop_first());
    }
}

/// The parts of a payload hold no NUL byte if they are escaped or there is none.
proof fn lemma_parts_nul_free(p: PayloadView, escaping: bool)
    requires
        escaping || is_plain(p),
    ensures
        nul_free(part(encode_utf8(p.0), escaping)),
        nul_free(part(p.1, escaping)),
{
    lemma_escaped_nul_free(encode_utf8(p.0));
    lemma_escaped_nul_free(p.1);
}

/// Payloads are told apart by their frames.
proof fn lemma_frames_injective(s: Seq<PayloadView>, t: Seq<PayloadView>, escaping: bool)
    requires
        escaping || (all_plain(s) && all_plain(t)),
        frames(s, escaping) == frames(t, escaping),
    ensures
        s == t,
    decreases s.len(),
{
    if s.len() == 0 || t.len() == 0 {
        lemma_frames_end(s, escaping);
        lemma_frames_end(t, escaping);
        assert(s =~= t);
    } else {
        let (p, q) = (s[0], t[0]);
        let (s1, t1) = (s.drop_first(), t.drop_first());
        let (m, n) = (part(encode_utf8(p.0), escaping), part(encode_utf8(q.0), escaping));
        let (d, e) = (part(p.1, escaping), part(q.1, escaping));
        let nul = seq![0u8];
        lemma_parts_nul_free(p, escaping);
        lemma_parts_nul_free(q, escaping);
        assert(frames(s, escaping) =~= m + nul + (d + nul + frames(s1, escaping)));
        assert(frames(t, escaping) =~= n + nul + (e + nul + frames(t1, escaping)));
        lemma_split_at_nul(m, d + nul + frames(s1, escaping), n, e + nul + frames(t1, escaping));
        lemma_split_at_nul(d, frames(s1, escaping), e, frames(t1, escaping));
        if escaping {
            lemma_escaped_injective(encode_utf8(p.0), encode_utf8(q.0));
            lemma_escaped_injective(p.1, q.1);
        } else {
            assert forall|i: int| 0 <= i < s1.len() implies is_plain(#[trigger] s1[i]) by {
                assert(s1[i] == s[i + 1]);
            }
            assert forall|i: int| 0 <= i < t1.len() implies is_plain(#[trigger] t1[i]) by {
                assert(t1[i] == t[i + 1]);
            }
        }
        lemma_encoding_injective(p.0, q.0);
        lemma_frames_injective(s1, t1, escaping);
        assert(s =~= seq![p] + s1);
        assert(t =~= seq![q] + t1);
    }
}

/// The frames of payloads, if there are any, end with a NUL byte.
proof fn lemma_frames_end(s: Seq<PayloadView>, escaping: bool)
    ensures
        s.len() == 0 ==> frames(s, escaping).len() == 0,
        s.len() > 0 ==> frames(s, escaping).len() > 0 && frames(s, escaping).last() == 0,
    decreases s.len(),
{
    if s.len() > 0 {
        let (first, rest) = (frame(s[0], escaping), frames(s.drop_first(), escaping));
        lemma_frames_end(s.drop_first(), escaping);
        assert(first.last() == 0);
        if rest.len() > 0 {
            assert((first + rest).last() == rest.last());
        } else {
            assert(first + rest =~= first);
        }
    }
}

/// The digest of the unescaped frames does not depend on the order of the payloads.
pub proof fn lemma_same_unescaped_hash(a: Seq<PayloadView>, b: Seq<PayloadView>)
    requires
        a.to_multiset() == b.to_multiset(),
    ensures
        unescaped_hash_text(a) == unescaped_hash_text(b),
{
    lemma_payload_order_total();
    a.lemma_sort_by_ensures(payload_order());
    b.lemma_sort_by_ensures(payload_order());
    vstd::seq_lib::lemma_sorted_unique(
        a.sort_by(payload_order()),
        b.sort_by(payload_order()),
        payload_order(),
    );
}

/// Offers share a hashed message only if they offer exactly the same MIME types with exactly the
/// same bytes.
pub proof fn law_hash_separates(a: Seq<PayloadView>, b: Seq<PayloadView>)
    requires
        hash_input(a) == hash_input(b),
    ensures
        a.to_multiset() == b.to_multiset(),
{
    let (s, t) = (a.sort_by(payload_order()), b.sort_by(payload_order()));
    lemma_payload_order_total();
    a.lemma_sort_by_ensures(payload_order());
    b.lemma_sort_by_ensures(payload_order());
    lemma_same_payloads(a, s);
    lemma_same_payloads(b, t);
    lemma_frames_end(s, false);
    lemma_frames_end(t, false);
    if all_plain(a) {
        assert(all_plain(b)) by {
            if !all_plain(b) {
                assert(hash_input(b).last() == 1);
            }
        }
        lemma_frames_injective(s, t, false);
    } else {
        assert(hash_input(a).last() == 1);
        assert(!all_plain(b));
        assert(frames(s, true) =~= hash_input(a).drop_last());
        assert(frames(t, true) =~= hash_input(b).drop_last());
        lemma_frames_injective(s, t, true);
    }
}

/// An offer that has a MIME type that another one lacks, as the offer of a file and that of its
/// path, is hashed from another message.
pub proof fn law_types_separate(a: Seq<PayloadView>, b: Seq<PayloadView>, p: PayloadView)
    requires
        a.contains(p),
        forall|i: int| 0 <= i < b.len() ==> #[trigger] b[i].0 != p.0,
    ensures
        hash_input(a) != hash_input(b),
{
    if hash_input(a) == hash_input(b) {
        law_hash_separates(a, b);
        lemma_same_payloads(a, b);
        assert(b.contains(p));
    }
}

/// Byte strings are told apart by their hexadecimal notation.
proof fn lemma_hex_injective(a: Seq<u8>, b: Seq<u8>)
    requires
        hex_text(a) == hex_text(b),
    ensures
        a == b,
{
    assert(hex_text(a).len() == a.len() * 2 && hex_text(b).len() == b.len() * 2);
    assert forall|i: int| 0 <= i < a.len() implies a[i] == b[i] by {
        assert(hex_text(a)[2 * i] == hex_digit(a[i] as int / 16));
        assert(hex_text(b)[2 * i] == hex_digit(b[i] as int / 16));
        assert(hex_text(a)[2 * i + 1] == hex_digit(a[i] as int % 16));
        assert(hex_text(b)[2 * i + 1] == hex_digit(b[i] as int % 16));
        lemma_hex_digits_differ(a[i] as int / 16, b[i] as int / 16);
        lemma_hex_digits_differ(a[i] as int % 16, b[i] as int % 16);
    }
    assert(a =~= b);
}

proof fn lemma_hex_digits_differ(a: int, b: int)
    requires
        0 <= a < 16,
        0 <= b < 16,
        hex_digit(a) == hex_digit(b),
    ensures
        a == b,
{
    assert(a < 10 ==> hex_digit(a) as int == a + 48);
    assert(a >= 10 ==> hex_digit(a) as int == a + 87);
    assert(b < 10 ==> hex_digit(b) as int == b + 48);
    assert(b >= 10 ==> hex_digit(b) as int == b + 87);
}

/// Offers share a hash only if they offer exactly the same MIME types with exactly the same bytes,
/// as long as SHA-256 does not give their two messages the same digest though they differ.
pub proof fn law_hash_identifies_offer(a: Seq<PayloadView>, b: Seq<PayloadView>)
    requires
        hash_text(a) == hash_text(b),
        sha256_digest(hash_input(a)) == sha256_digest(hash_input(b)) ==> hash_input(a)
            == hash_input(b),
    ensures
        a.to_multiset() == b.to_multiset(),
{
    lemma_hex_injective(sha256_digest(hash_input(a)), sha256_digest(hash_input(b)));
    law_hash_separates(a, b);
}

} // verus!
