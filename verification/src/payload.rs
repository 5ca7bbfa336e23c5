//! Clipboard payloads: which MIME types are recorded, and the normal form of an offer.
use vstd::prelude::*;

use crate::order::{lemma_strictly_sorted_equal, views};
use crate::text::{
    begins_with, bytes_before, is_bytes_before, is_text_before, lemma_bytes_before_irreflexive,
    lemma_bytes_before_total, lemma_bytes_before_transitive, lemma_text_before_order, same_text,
    starts_with, text_before,
};

verus! {

/// A MIME type with the bytes offered for it.
pub type PayloadView = (Seq<char>, Seq<u8>);

// ---------------------------------------------------------------------------
// Skipped MIME types
// ---------------------------------------------------------------------------

/// Whether a MIME type stands for a live portal session, which stored bytes cannot replay.
pub open spec fn is_portal_session(mime: Seq<char>) -> bool {
    ||| begins_with(mime, "application/vnd.portal.filetransfer"@)
    ||| begins_with(mime, "application/vnd.portal.files"@)
}

/// Tells whether offers of a MIME type are left unrecorded.
pub fn should_skip(mime: &str) -> (r: bool)
    ensures
        r == is_portal_session(mime@),
{
    starts_with(mime, "application/vnd.portal.filetransfer") || starts_with(
        mime,
        "application/vnd.portal.files",
    )
}

// ---------------------------------------------------------------------------
// Normal form
// ---------------------------------------------------------------------------

/// Whether `out` holds a payload of the type of `p` whose bytes do not come after those of `p`.
pub open spec fn covers(out: Seq<PayloadView>, p: PayloadView) -> bool {
    exists|i: int|
        0 <= i < out.len() && #[trigger] out[i].0 == p.0 && !bytes_before(p.1, out[i].1)
}

/// Whether `out` is the normal form of `input`: one payload for each MIME type, in the order of
/// the types, with the lexicographically smallest of the bytes offered for it.
pub open spec fn is_normal_form(input: Seq<PayloadView>, out: Seq<PayloadView>) -> bool {
    &&& forall|i: int, j: int| 0 <= i < j < out.len() ==> text_before(out[i].0, out[j].0)
    &&& forall|i: int| 0 <= i < out.len() ==> #[trigger] input.contains(out[i])
    &&& forall|p: PayloadView| input.contains(p) ==> #[trigger] covers(out, p)
}

/// The normal form of an offer.
pub open spec fn normal_form(input: Seq<PayloadView>) -> Seq<PayloadView> {
    choose|out: Seq<PayloadView>| is_normal_form(input, out)
}

/// The number of bytes that payloads hold together.
pub open spec fn total_len(payloads: Seq<PayloadView>) -> nat
    decreases payloads.len(),
{
    if payloads.len() == 0 {
        0
    } else {
        payloads[0].1.len() + total_len(payloads.drop_first())
    }
}

/// An offer has only one normal form, and it depends on which payloads are offered, not on
/// their order or on how often each one is.
pub proof fn law_normal_form_unique(
    a: Seq<PayloadView>,
    b: Seq<PayloadView>,
    out_a: Seq<PayloadView>,
    out_b: Seq<PayloadView>,
)
    requires
        forall|p: PayloadView| #[trigger] a.contains(p) <==> b.contains(p),
        is_normal_form(a, out_a),
        is_normal_form(b, out_b),
    ensures
        out_a == out_b,
{
    assert forall|p: PayloadView| #[trigger] out_a.contains(p) <==> out_b.contains(p) by {
        if out_a.contains(p) {
            lemma_normal_form_shared(a, b, out_a, out_b, p);
        }
        if out_b.contains(p) {
            lemma_normal_form_shared(b, a, out_b, out_a, p);
        }
    }
    let before = |x: PayloadView, y: PayloadView| text_before(x.0, y.0);
    assert forall|x: PayloadView, y: PayloadView| !(#[trigger] before(x, y) && before(y, x)) by {
        lemma_text_before_order(x.0, y.0, x.0);
    }
    lemma_strictly_sorted_equal(out_a, out_b, before);
}

proof fn lemma_normal_form_shared(
    a: Seq<PayloadView>,
    b: Seq<PayloadView>,
    out_a: Seq<PayloadView>,
    out_b: Seq<PayloadView>,
    p: PayloadView,
)
    requires
        forall|p: PayloadView| #[trigger] a.contains(p) ==> b.contains(p),
        forall|p: PayloadView| #[trigger] b.contains(p) ==> a.contains(p),
        is_normal_form(a, out_a),
        is_normal_form(b, out_b),
        out_a.contains(p),
    ensures
        out_b.contains(p),
{
    let i = choose|i: int| 0 <= i < out_a.len() && out_a[i] == p;
    assert(a.contains(out_a[i]));
    assert(b.contains(p));
    assert(covers(out_b, p));
    let j = choose|j: int|
        0 <= j < out_b.len() && #[trigger] out_b[j].0 == p.0 && !bytes_before(p.1, out_b[j].1);
    let q = out_b[j];
    assert(b.contains(q));
    assert(a.contains(q));
    assert(covers(out_a, q));
    let m = choose|m: int|
        0 <= m < out_a.len() && #[trigger] out_a[m].0 == q.0 && !bytes_before(q.1, out_a[m].1);
    lemma_text_before_order(p.0, p.0, p.0);
    assert(m == i) by {
        if m < i {
            assert(text_before(out_a[m].0, out_a[i].0));
        } else if i < m {
            assert(text_before(out_a[i].0, out_a[m].0));
        }
    }
    lemma_bytes_before_total(p.1, q.1);
    assert(q == p);
    assert(out_b.contains(out_b[j]));
}

proof fn lemma_normal_form_insert(
    input: Seq<PayloadView>,
    out: Seq<PayloadView>,
    p: PayloadView,
    k: int,
)
    requires
        is_normal_form(input, out),
        0 <= k <= out.len(),
        forall|j: int| 0 <= j < k ==> text_before(#[trigger] out[j].0, p.0),
        k < out.len() ==> text_before(p.0, out[k].0),
    ensures
        is_normal_form(seq![p] + input, out.insert(k, p)),
        total_len(out.insert(k, p)) == total_len(out) + p.1.len(),
{
    let all = seq![p] + input;
    let new = out.insert(k, p);
    assert forall|i: int, j: int| 0 <= i < j < new.len() implies text_before(
        new[i].0,
        new[j].0,
    ) by {
        if i == k {
            assert(new[j] == out[j - 1]);
            if j - 1 > k {
                assert(text_before(out[k].0, out[j - 1].0));
                lemma_text_before_order(p.0, out[k].0, out[j - 1].0);
            }
        } else if j == k {
            assert(new[i] == out[i]);
        } else {
            let oi = if i < k { i } else { i - 1 };
            let oj = if j < k { j } else { j - 1 };
            assert(new[i] == out[oi] && new[j] == out[oj]);
        }
    }
    assert(all[0] == p);
    assert forall|i: int| 0 <= i < new.len() implies #[trigger] all.contains(new[i]) by {
        if i != k {
            let oi = if i < k { i } else { i - 1 };
            assert(input.contains(out[oi]));
            let x = choose|x: int| 0 <= x < input.len() && input[x] == out[oi];
            assert(all[x + 1] == new[i]);
        }
    }
    assert forall|q: PayloadView| all.contains(q) implies #[trigger] covers(new, q) by {
        let x = choose|x: int| 0 <= x < all.len() && all[x] == q;
        if x == 0 {
            assert(new[k].0 == p.0);
            lemma_bytes_before_irreflexive(p.1);
        } else {
            assert(q == input[x - 1]);
            assert(input.contains(q));
            assert(covers(out, q));
            let i = choose|i: int|
                0 <= i < out.len() && #[trigger] out[i].0 == q.0 && !bytes_before(q.1, out[i].1);
            let ni = if i < k { i } else { i + 1 };
            assert(new[ni] == out[i]);
        }
    }
    lemma_total_len_insert(out, k, p);
}

proof fn lemma_normal_form_replace(
    input: Seq<PayloadView>,
    out: Seq<PayloadView>,
    p: PayloadView,
    k: int,
)
    requires
        is_normal_form(input, out),
        0 <= k < out.len(),
        out[k].0 == p.0,
        bytes_before(p.1, out[k].1),
    ensures
        is_normal_form(seq![p] + input, out.update(k, p)),
        total_len(out.update(k, p)) <= total_len(out) + p.1.len(),
{
    let all = seq![p] + input;
    let new = out.update(k, p);
    assert forall|i: int, j: int| 0 <= i < j < new.len() implies text_before(
        new[i].0,
        new[j].0,
    ) by {
        assert(text_before(out[i].0, out[j].0));
    }
    assert(all[0] == p);
    assert forall|i: int| 0 <= i < new.len() implies #[trigger] all.contains(new[i]) by {
        if i != k {
            assert(input.contains(out[i]));
            let x = choose|x: int| 0 <= x < input.len() && input[x] == out[i];
            assert(all[x + 1] == new[i]);
        }
    }
    assert forall|q: PayloadView| all.contains(q) implies #[trigger] covers(new, q) by {
        let x = choose|x: int| 0 <= x < all.len() && all[x] == q;
        assert(new[k].0 == p.0);
        lemma_bytes_before_irreflexive(p.1);
        if x > 0 {
            assert(q == input[x - 1]);
            assert(input.contains(q));
            assert(covers(out, q));
            let i = choose|i: int|
                0 <= i < out.len() && #[trigger] out[i].0 == q.0 && !bytes_before(q.1, out[i].1);
            assert(new[i].0 == q.0);
            if i == k && bytes_before(q.1, p.1) {
                lemma_bytes_before_transitive(q.1, p.1, out[k].1);
            }
        }
    }
    assert(new =~= out.remove(k).insert(k, p));
    assert(out =~= out.remove(k).insert(k, out[k]));
    lemma_total_len_insert(out.remove(k), k, p);
    lemma_total_len_insert(out.remove(k), k, out[k]);
}

proof fn lemma_normal_form_keep(
    input: Seq<PayloadView>,
    out: Seq<PayloadView>,
    p: PayloadView,
    k: int,
)
    requires
        is_normal_form(input, out),
        0 <= k < out.len(),
        out[k].0 == p.0,
        !bytes_before(p.1, out[k].1),
    ensures
        is_normal_form(seq![p] + input, out),
{
    let all = seq![p] + input;
    assert forall|i: int| 0 <= i < out.len() implies #[trigger] all.contains(out[i]) by {
        assert(input.contains(out[i]));
        let x = choose|x: int| 0 <= x < input.len() && input[x] == out[i];
        assert(all[x + 1] == out[i]);
    }
    assert forall|q: PayloadView| all.contains(q) implies #[trigger] covers(out, q) by {
        let x = choose|x: int| 0 <= x < all.len() && all[x] == q;
        if x > 0 {
            assert(q == input[x - 1]);
            assert(input.contains(q));
        } else {
            assert(out[k].0 == p.0);
        }
    }
}

proof fn lemma_total_len_insert(s: Seq<PayloadView>, k: int, p: PayloadView)
    requires
        0 <= k <= s.len(),
    ensures
        total_len(s.insert(k, p)) == total_len(s) + p.1.len(),
    decreases k,
{
    if k == 0 {
        assert(s.insert(0, p).drop_first() =~= s);
    } else {
        assert(s.insert(k, p).drop_first() =~= s.drop_first().insert(k - 1, p));
        lemma_total_len_insert(s.drop_first(), k - 1, p);
    }
}

/// Brings an offer into its normal form.
pub fn normalize_payloads(payloads: Vec<(String, Vec<u8>)>) -> (r: Vec<(String, Vec<u8>)>)
    ensures
        is_normal_form(views(payloads@), views(r@)),
        views(r@) == normal_form(views(payloads@)),
        total_len(views(r@)) <= total_len(views(payloads@)),
{
    let ghost input = views(payloads@);
    let mut rest = payloads;
    let mut out: Vec<(String, Vec<u8>)> = Vec::new();
    assert(input.skip(input.len() as int) =~= Seq::<PayloadView>::empty());
    assert(views(out@) =~= Seq::<PayloadView>::empty());
    while rest.len() > 0
        invariant
            input == views(payloads@),
            rest@.len() <= input.len(),
            rest@ == payloads@.take(rest@.len() as int),
            is_normal_form(input.skip(rest@.len() as int), views(out@)),
            total_len(views(out@)) <= total_len(input.skip(rest@.len() as int)),
        decreases rest@.len(),
    {
        let ghost n = rest@.len() - 1;
        let ghost seen = input.skip(n + 1);
        let ghost before = views(out@);
        if let Some((mime, data)) = rest.pop() {
            let ghost p: PayloadView = (mime@, data@);
            assert(p == input[n]);
            let mut k: usize = 0;
            while k < out.len() && is_text_before(out[k].0.as_str(), mime.as_str())
                invariant
                    k <= out@.len(),
                    p == (mime@, data@),
                    before == views(out@),
                    forall|j: int| 0 <= j < k ==> text_before(#[trigger] before[j].0, p.0),
                decreases out@.len() - k,
            {
                assert(before[k as int].0 == out@[k as int].0@);
                k += 1;
            }
            assert(input.skip(n) =~= seq![p] + seen);
            assert(input.skip(n).drop_first() =~= seen);
            assert(k < out@.len() ==> before[k as int].0 == out@[k as int].0@);
            assert(k < out@.len() ==> before[k as int].1 == out@[k as int].1@);
            if k < out.len() && same_text(out[k].0.as_str(), mime.as_str()) {
                if is_bytes_before(data.as_slice(), out[k].1.as_slice()) {
                    out.set(k, (mime, data));
                    proof {
                        lemma_normal_form_replace(seen, before, p, k as int);
                        assert(views(out@) =~= before.update(k as int, p));
                    }
                } else {
                    proof {
                        lemma_normal_form_keep(seen, before, p, k as int);
                    }
                }
            } else {
                proof {
                    if k < out@.len() {
                        lemma_text_before_order(before[k as int].0, p.0, p.0);
                    }
                    lemma_normal_form_insert(seen, before, p, k as int);
                }
                out.insert(k, (mime, data));
                assert(views(out@) =~= before.insert(k as int, p));
            }
        }
    }
    proof {
        assert(input.skip(0) =~= input);
        law_normal_form_unique(input, input, views(out@), normal_form(input));
    }
    out
}

/// A normal form is its own normal form.
pub proof fn law_normal_form_idempotent(input: Seq<PayloadView>, out: Seq<PayloadView>)
    requires
        is_normal_form(input, out),
    ensures
        is_normal_form(out, out),
{
    assert forall|i: int| 0 <= i < out.len() implies #[trigger] out.contains(out[i]) by {}
    assert forall|p: PayloadView| out.contains(p) implies #[trigger] covers(out, p) by {
        let i = choose|i: int| 0 <= i < out.len() && out[i] == p;
        assert(out[i].0 == p.0);
        lemma_bytes_before_irreflexive(p.1);
    }
}

/// Where a MIME type belongs among the types of a normal form.
proof fn lemma_type_position(out: Seq<PayloadView>, mime: Seq<char>) -> (k: int)
    requires
        forall|i: int, j: int| 0 <= i < j < out.len() ==> text_before(out[i].0, out[j].0),
    ensures
        0 <= k <= out.len(),
        forall|j: int| 0 <= j < k ==> text_before(#[trigger] out[j].0, mime),
        k < out.len() ==> out[k].0 == mime || text_before(mime, out[k].0),
    decreases out.len(),
{
    if out.len() == 0 {
        0
    } else {
        let last = out[out.len() - 1].0;
        lemma_text_before_order(last, mime, last);
        if text_before(last, mime) {
            assert forall|j: int| 0 <= j < out.len() implies text_before(
                #[trigger] out[j].0,
                mime,
            ) by {
                if j < out.len() - 1 {
                    assert(text_before(out[j].0, last));
                    lemma_text_before_order(out[j].0, last, mime);
                }
            }
            out.len() as int
        } else {
            let head = out.drop_last();
            let k = lemma_type_position(head, mime);
            assert forall|j: int| 0 <= j < k implies text_before(#[trigger] out[j].0, mime) by {
                assert(head[j] == out[j]);
            }
            if k < head.len() {
                assert(head[k] == out[k]);
            }
            k
        }
    }
}

/// Every offer has a normal form, which holds no more bytes than the offer.
pub proof fn law_normal_form_exists(input: Seq<PayloadView>)
    ensures
        is_normal_form(input, normal_form(input)),
        total_len(normal_form(input)) <= total_len(input),
    decreases input.len(),
{
    if input.len() == 0 {
        let none = Seq::<PayloadView>::empty();
        assert(is_normal_form(input, none));
        law_normal_form_unique(input, input, normal_form(input), none);
    } else {
        let (p, rest) = (input[0], input.drop_first());
        law_normal_form_exists(rest);
        let out = normal_form(rest);
        let k = lemma_type_position(out, p.0);
        assert(input =~= seq![p] + rest);
        let new = if k < out.len() && out[k].0 == p.0 {
            if bytes_before(p.1, out[k].1) {
                lemma_normal_form_replace(rest, out, p, k);
                out.update(k, p)
            } else {
                lemma_normal_form_keep(rest, out, p, k);
                out
            }
        } else {
            lemma_normal_form_insert(rest, out, p, k);
            out.insert(k, p)
        };
        assert(is_normal_form(input, new));
        law_normal_form_unique(input, input, normal_form(input), new);
    }
}

/// The normal form depends on which payloads are offered, not on their order or on how often each
/// one is.
pub proof fn law_normal_form_ignores_order(a: Seq<PayloadView>, b: Seq<PayloadView>)
    requires
        forall|p: PayloadView| #[trigger] a.contains(p) <==> b.contains(p),
    ensures
        normal_form(a) == normal_form(b),
{
    law_normal_form_exists(a);
    law_normal_form_exists(b);
    law_normal_form_unique(a, b, normal_form(a), normal_form(b));
}

} // verus!
