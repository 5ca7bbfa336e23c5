//! The calls into std and outside crates, each behind a small wrapper with a contract.
use base64::Engine;
use chrono::{DateTime, Utc};
use sha2::Digest;
use vstd::prelude::*;
use vstd::utf8::{decode_utf8, valid_utf8};

use crate::text::text_before;

verus! {

// ---------------------------------------------------------------------------
// Text
// ---------------------------------------------------------------------------

/// `String::push` of std: appends one character.
pub assume_specification[ String::push ](s: &mut String, ch: char)
    ensures
        final(s)@ == old(s)@.push(ch),
;

/// The text that `String::from_utf8_lossy` makes of a byte string.
pub uninterp spec fn lossy_text(bytes: Seq<u8>) -> Seq<char>;

/// Whether [`lossy_text`] gives a well-formed encoding as the text it encodes.
pub open spec fn decodes_utf8(bytes: Seq<u8>) -> bool {
    valid_utf8(bytes) ==> lossy_text(bytes) == decode_utf8(bytes)
}

/// `String::from_utf8_lossy` of std: decodes bytes as UTF-8 and puts a replacement character in
/// the place of what is not UTF-8. The result is a function of the bytes, and for a well-formed
/// encoding it is the encoded text. How many replacement characters stand for an ill-formed run
/// is left unsaid.
#[verifier::external_body]
pub(crate) fn from_utf8_lossy(bytes: &[u8]) -> (text: String)
    ensures
        text@ == lossy_text(bytes@),
        valid_utf8(bytes@) ==> text@ == decode_utf8(bytes@),
{
    String::from_utf8_lossy(bytes).into_owned()
}

// ---------------------------------------------------------------------------
// Digests
// ---------------------------------------------------------------------------

/// The SHA-256 digest of a byte string.
pub uninterp spec fn sha256_digest(bytes: Seq<u8>) -> Seq<u8>;

/// The number of bytes from which on a message is too long for SHA-256: its length in bits no
/// longer fits 64 bits.
pub const SHA256_LIMIT: u64 = 0x2000_0000_0000_0000;

/// `Sha256::digest` of `sha2`: the 32-byte digest of a message of fewer than 2^64 bits.
#[verifier::external_body]
pub(crate) fn sha256(bytes: &[u8]) -> (digest: Vec<u8>)
    requires
        bytes@.len() < SHA256_LIMIT,
    ensures
        digest@ == sha256_digest(bytes@),
        digest@.len() == 32,
{
    sha2::Sha256::digest(bytes).to_vec()
}

/// The lower-case hexadecimal digit of a value below sixteen.
pub open spec fn hex_digit(d: int) -> char {
    if d < 10 {
        (d + '0' as int) as char
    } else {
        (d - 10 + 'a' as int) as char
    }
}

/// The lower-case hexadecimal notation of a byte string: two digits for each byte, the high
/// half first.
pub open spec fn hex_text(bytes: Seq<u8>) -> Seq<char> {
    Seq::new(
        bytes.len() * 2,
        |i: int|
            if i % 2 == 0 {
                hex_digit(bytes[i / 2] as int / 16)
            } else {
                hex_digit(bytes[i / 2] as int % 16)
            },
    )
}

/// `hex::encode` of `hex`: the lower-case hexadecimal notation of the bytes.
#[verifier::external_body]
pub(crate) fn hex_encode(bytes: &[u8]) -> (text: String)
    requires
        bytes@.len() * 2 <= isize::MAX,
    ensures
        text@ == hex_text(bytes@),
{
    hex::encode(bytes)
}

// ---------------------------------------------------------------------------
// Base64
// ---------------------------------------------------------------------------

/// The character that stands for a six-bit value in the standard Base64 alphabet.
pub open spec fn base64_digit(v: int) -> char {
    if v < 26 {
        (v + 'A' as int) as char
    } else if v < 52 {
        (v - 26 + 'a' as int) as char
    } else if v < 62 {
        (v - 52 + '0' as int) as char
    } else if v == 62 {
        '+'
    } else {
        '/'
    }
}

/// The byte at `i`, or zero past the end.
pub open spec fn byte_or_zero(bytes: Seq<u8>, i: int) -> int {
    if 0 <= i < bytes.len() {
        bytes[i] as int
    } else {
        0
    }
}

/// The `i`-th group of six bits of a byte string, read from the most significant bit on, with
/// zero bits past the end.
pub open spec fn six_bits(bytes: Seq<u8>, i: int) -> int {
    let first = byte_or_zero(bytes, i / 4 * 3);
    let second = byte_or_zero(bytes, i / 4 * 3 + 1);
    let third = byte_or_zero(bytes, i / 4 * 3 + 2);
    if i % 4 == 0 {
        first / 4
    } else if i % 4 == 1 {
        first % 4 * 16 + second / 16
    } else if i % 4 == 2 {
        second % 16 * 4 + third / 64
    } else {
        third % 64
    }
}

/// The length of the padded Base64 notation of `n` bytes.
pub open spec fn base64_len(n: nat) -> nat {
    ((n + 2) / 3 * 4) as nat
}

/// The padded standard Base64 notation of a byte string: one digit for each group of six bits
/// that holds a bit of it, then `=` up to a multiple of four characters.
pub open spec fn base64_text(bytes: Seq<u8>) -> Seq<char> {
    Seq::new(
        base64_len(bytes.len()),
        |i: int|
            if i * 6 < bytes.len() * 8 {
                base64_digit(six_bits(bytes, i))
            } else {
                '='
            },
    )
}

/// `Engine::encode` of `base64` with the `STANDARD` engine: the padded standard Base64 notation
/// of the bytes.
#[verifier::external_body]
pub(crate) fn base64_encode(bytes: &[u8]) -> (text: String)
    requires
        base64_len(bytes@.len()) <= isize::MAX,
    ensures
        text@ == base64_text(bytes@),
{
    base64::engine::general_purpose::STANDARD.encode(bytes)
}

// ---------------------------------------------------------------------------
// Calendar time
// ---------------------------------------------------------------------------

/// Whether seconds and nanoseconds since the Unix epoch are a moment that `chrono` can hold. A
/// nanosecond count from one to two thousand million is a leap second, which can only follow the
/// last second of a minute.
pub open spec fn is_moment(secs: int, nanos: int) -> bool {
    &&& -8_334_601_228_800 <= secs <= 8_210_266_876_799
    &&& 0 <= nanos < 2_000_000_000
    &&& nanos >= 1_000_000_000 ==> secs % 60 == 59
}

/// Whether a moment lies in the years 0 to 9999: its RFC 3339 notation then has a year of four
/// digits.
pub open spec fn is_plain_moment(secs: int, nanos: int) -> bool {
    is_moment(secs, nanos) && -62_167_219_200 <= secs <= 253_402_300_799
}

/// Whether the first moment is earlier than the second.
pub open spec fn moment_before(secs1: int, nanos1: int, secs2: int, nanos2: int) -> bool {
    secs1 < secs2 || (secs1 == secs2 && nanos1 < nanos2)
}

/// The RFC 3339 notation of a moment.
pub uninterp spec fn rfc3339_text(secs: i64, nanos: u32) -> Seq<char>;

/// The moment that a text in (a relaxed form of) RFC 3339 stands for.
pub uninterp spec fn rfc3339_moment(text: Seq<char>) -> Option<(i64, u32)>;

/// Whether `text` comes after the RFC 3339 notation of every plain moment that is earlier than
/// the given one.
pub open spec fn sorts_after_earlier(secs: i64, nanos: u32, text: Seq<char>) -> bool {
    forall|s: i64, n: u32|
        is_plain_moment(s as int, n as int) && moment_before(
            s as int,
            n as int,
            secs as int,
            nanos as int,
        ) ==> text_before(#[trigger] rfc3339_text(s, n), text)
}

/// `DateTime::<Utc>::to_rfc3339` of `chrono`: the RFC 3339 notation of a moment. Parsing the
/// notation gives the moment back. In the years 0 to 9999 notations are ordered as text as the
/// moments are in time: all fields have a fixed width, a leap second is the sixtieth second, the
/// fraction of a second has as many digits as it needs, in groups of three, and the `+00:00` that
/// follows it comes before every digit and before the decimal point.
#[verifier::external_body]
pub(crate) fn to_rfc3339(secs: i64, nanos: u32) -> (text: String)
    requires
        is_moment(secs as int, nanos as int),
    ensures
        text@ == rfc3339_text(secs, nanos),
        rfc3339_moment(text@) == Some((secs, nanos)),
        is_plain_moment(secs as int, nanos as int) ==> sorts_after_earlier(secs, nanos, text@),
{
    DateTime::<Utc>::from_timestamp(secs, nanos).unwrap().to_rfc3339()
}

/// `str::parse::<DateTime<Utc>>` of `chrono`: the moment that a text stands for, or nothing.
#[verifier::external_body]
pub(crate) fn parse_rfc3339(text: &str) -> (moment: Option<(i64, u32)>)
    ensures
        moment == rfc3339_moment(text@),
        moment matches Some(m) ==> is_moment(m.0 as int, m.1 as int),
{
    text.parse::<DateTime<Utc>>().ok().map(|t| (t.timestamp(), t.timestamp_subsec_nanos()))
}

/// `Utc::now` of `chrono`: the current moment, of which nothing more is known.
#[verifier::external_body]
pub(crate) fn utc_now() -> (moment: (i64, u32))
    ensures
        is_moment(moment.0 as int, moment.1 as int),
{
    let now = Utc::now();
    (now.timestamp(), now.timestamp_subsec_nanos())
}

/// The notation of a moment as a date and a time of day to the second.
pub uninterp spec fn clock_text(secs: i64, nanos: u32) -> Seq<char>;

/// `DateTime::<Utc>::format` of `chrono` with the pattern `%Y-%m-%d %H:%M:%S`.
#[verifier::external_body]
pub(crate) fn format_clock(secs: i64, nanos: u32) -> (text: String)
    requires
        is_moment(secs as int, nanos as int),
    ensures
        text@ == clock_text(secs, nanos),
{
    DateTime::<Utc>::from_timestamp(secs, nanos).unwrap().format("%Y-%m-%d %H:%M:%S").to_string()
}

// ---------------------------------------------------------------------------
// Monotonic time
// ---------------------------------------------------------------------------

/// An instant of the monotonic clock of std.
#[verifier::external_type_specification]
#[verifier::external_body]
pub struct ExInstant(std::time::Instant);

/// `Instant::now` of std: the current reading of the monotonic clock, of which nothing is known.
#[verifier::external_body]
pub(crate) fn instant_now() -> std::time::Instant {
    std::time::Instant::now()
}

/// The nanoseconds in the longest `Duration` of std.
pub const DURATION_MAX_NANOS: u128 = 18_446_744_073_709_551_615_999_999_999;

/// `Instant::elapsed` of std: the nanoseconds that have passed since `start`, of which only the
/// range of a `Duration` is known.
#[verifier::external_body]
pub(crate) fn elapsed_nanos(start: &std::time::Instant) -> (nanos: u128)
    ensures
        nanos <= DURATION_MAX_NANOS,
{
    start.elapsed().as_nanos()
}

} // verus!
