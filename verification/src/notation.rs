//! What the Base64 notation of payloads tells apart.
use vstd::prelude::*;

use crate::db::in_base64;
use crate::outside::{base64_digit, base64_len, base64_text, byte_or_zero, six_bits};
use crate::payload::PayloadView;

verus! {

/// Six bits are at most 63.
proof fn lemma_six_bits_range(bytes: Seq<u8>, i: int)
    requires
        0 <= i,
    ensures
        0 <= six_bits(bytes, i) < 64,
{
    let first = byte_or_zero(bytes, i / 4 * 3);
    let second = byte_or_zero(bytes, i / 4 * 3 + 1);
    let third = byte_or_zero(bytes, i / 4 * 3 + 2);
    assert(0 <= first < 256 && 0 <= second < 256 && 0 <= third < 256);
}

/// Different values have different digits, and none has the padding character.
proof fn lemma_digits_differ(a: int, b: int)
    requires
        0 <= a < 64,
        0 <= b < 64,
    ensures
        base64_digit(a) == base64_digit(b) ==> a == b,
        base64_digit(a) != '=',
{
    assert(0 <= a < 26 ==> base64_digit(a) as int == a + 65);
    assert(26 <= a < 52 ==> base64_digit(a) as int == a + 71);
    assert(52 <= a < 62 ==> base64_digit(a) as int == a - 4);
    assert(0 <= b < 26 ==> base64_digit(b) as int == b + 65);
    assert(26 <= b < 52 ==> base64_digit(b) as int == b + 71);
    assert(52 <= b < 62 ==> base64_digit(b) as int == b - 4);
    assert('+' as int == 43 && '/' as int == 47 && '=' as int == 61);
}

/// A shorter byte string has padding where a longer one has a digit.
proof fn lemma_padding_tells_length(a: Seq<u8>, b: Seq<u8>)
    requires
        a.len() < b.len(),
        base64_len(a.len()) == base64_len(b.len()),
    ensures
        base64_text(a) != base64_text(b),
{
    let i = (4 * a.len() + 2) / 3;
    assert(i * 6 >= a.len() * 8);
    assert(i * 6 < b.len() * 8);
    assert(i < base64_len(b.len()));
    lemma_six_bits_range(b, i as int);
    lemma_digits_differ(six_bits(b, i as int), 0);
    assert(base64_text(a)[i as int] == '=');
    assert(base64_text(b)[i as int] == base64_digit(six_bits(b, i as int)));
}

/// The six bits at a position that holds a digit.
proof fn lemma_same_six_bits(a: Seq<u8>, b: Seq<u8>, i: int)
    requires
        a.len() == b.len(),
        base64_text(a) == base64_text(b),
        0 <= i,
        i * 6 < a.len() * 8,
    ensures
        six_bits(a, i) == six_bits(b, i),
{
    assert(i < base64_len(a.len()));
    lemma_six_bits_range(a, i);
    lemma_six_bits_range(b, i);
    lemma_digits_differ(six_bits(a, i), six_bits(b, i));
    assert(base64_text(a)[i] == base64_digit(six_bits(a, i)));
    assert(base64_text(b)[i] == base64_digit(six_bits(b, i)));
}

/// Bytes are told apart by their Base64 notation.
pub proof fn law_base64_tells_bytes_apart(a: Seq<u8>, b: Seq<u8>)
    requires
        base64_text(a) == base64_text(b),
    ensures
        a == b,
{
    assert(base64_text(a).len() == base64_len(a.len()));
    assert(base64_text(b).len() == base64_len(b.len()));
    if a.len() < b.len() {
        lemma_padding_tells_length(a, b);
    } else if b.len() < a.len() {
        lemma_padding_tells_length(b, a);
    }
    assert forall|k: int| 0 <= k < a.len() implies a[k] == b[k] by {
        let g = k / 3;
        assert(k == 3 * g + k % 3);
        let (a1, a2, a3) = (
            byte_or_zero(a, 3 * g),
            byte_or_zero(a, 3 * g + 1),
            byte_or_zero(a, 3 * g + 2),
        );
        let (b1, b2, b3) = (
            byte_or_zero(b, 3 * g),
            byte_or_zero(b, 3 * g + 1),
            byte_or_zero(b, 3 * g + 2),
        );
        if k % 3 == 0 {
            lemma_same_six_bits(a, b, 4 * g);
            lemma_same_six_bits(a, b, 4 * g + 1);
            assert(a1 / 4 == b1 / 4);
            assert(a1 % 4 * 16 + a2 / 16 == b1 % 4 * 16 + b2 / 16);
        } else if k % 3 == 1 {
            lemma_same_six_bits(a, b, 4 * g + 1);
            lemma_same_six_bits(a, b, 4 * g + 2);
            assert(a1 % 4 * 16 + a2 / 16 == b1 % 4 * 16 + b2 / 16);
            assert(a2 % 16 * 4 + a3 / 64 == b2 % 16 * 4 + b3 / 64);
        } else {
            lemma_same_six_bits(a, b, 4 * g + 2);
            lemma_same_six_bits(a, b, 4 * g + 3);
            assert(a2 % 16 * 4 + a3 / 64 == b2 % 16 * 4 + b3 / 64);
            assert(a3 % 64 == b3 % 64);
        }
    }
    assert(a =~= b);
}

/// The answer to a request to decode an entry tells exactly which payloads it has.
pub proof fn law_decoded_payloads_are_exact(a: Seq<PayloadView>, b: Seq<PayloadView>)
    requires
        in_base64(a) == in_base64(b),
    ensures
        a == b,
{
    assert(in_base64(a).len() == a.len() && in_base64(b).len() == b.len());
    assert forall|i: int| 0 <= i < a.len() implies a[i] == b[i] by {
        assert(in_base64(a)[i] == (a[i].0, base64_text(a[i].1)));
        assert(in_base64(b)[i] == (b[i].0, base64_text(b[i].1)));
        law_base64_tells_bytes_apart(a[i].1, b[i].1);
    }
    assert(a =~= b);
}

} // verus!
