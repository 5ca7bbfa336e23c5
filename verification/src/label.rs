//! The one-line label of a history entry.
use vstd::prelude::*;
use vstd::utf8::{
    decode_utf8, decode_utf8_encode_utf8, decode_utf8_split, encode_scalar, encode_utf8,
    encode_utf8_decode_utf8, encode_utf8_valid_utf8, is_char_boundary, valid_utf8_split,
};

use crate::order::views;
use crate::outside::{decodes_utf8, from_utf8_lossy, lossy_text};
use crate::payload::PayloadView;
use crate::text::{begins_with, chars_of, decimal, push_decimal, same_text, starts_with, text_of};
use crate::types::EntryKind;

verus! {

// ---------------------------------------------------------------------------
// Percent decoding
// ---------------------------------------------------------------------------

/// The value of a hexadecimal digit.
pub open spec fn hex_value(b: u8) -> Option<u8> {
    if 48 <= b <= 57 {
        Some((b - 48) as u8)
    } else if 65 <= b <= 70 {
        Some((b - 55) as u8)
    } else if 97 <= b <= 102 {
        Some((b - 87) as u8)
    } else {
        None
    }
}

/// The value of two characters read as a hexadecimal byte: two digits, or a `+` and a digit.
pub open spec fn hex_byte(high: u8, low: u8) -> Option<u8> {
    match (hex_value(high), hex_value(low)) {
        (Some(h), Some(l)) => Some((h * 16 + l) as u8),
        (None, Some(l)) => if high == 43 {
            Some(l)
        } else {
            None
        },
        _ => None,
    }
}

/// The bytes of a percent-encoded text with the escapes replaced by what they stand for. A `%`
/// that begins no escape stays.
pub open spec fn unescaped(bytes: Seq<u8>) -> Seq<u8>
    decreases bytes.len(),
{
    if bytes.len() == 0 {
        Seq::empty()
    } else if bytes.len() > 2 && bytes[0] == 37 && hex_byte(bytes[1], bytes[2]) is Some {
        seq![hex_byte(bytes[1], bytes[2])->0] + unescaped(bytes.skip(3))
    } else {
        seq![bytes[0]] + unescaped(bytes.skip(1))
    }
}

/// The text that a percent-encoded text stands for.
pub open spec fn percent_decoded(text: Seq<char>) -> Seq<char> {
    lossy_text(unescaped(encode_utf8(text)))
}

/// Bytes without a `%` stay as they are.
pub proof fn law_unescaped_without_percent(bytes: Seq<u8>)
    requires
        forall|i: int| 0 <= i < bytes.len() ==> #[trigger] bytes[i] != 37,
    ensures
        unescaped(bytes) == bytes,
    decreases bytes.len(),
{
    if bytes.len() > 0 {
        assert forall|i: int| 0 <= i < bytes.len() - 1 implies #[trigger] bytes.skip(1)[i] != 37 by {
            assert(bytes.skip(1)[i] == bytes[i + 1]);
        }
        law_unescaped_without_percent(bytes.skip(1));
        assert(seq![bytes[0]] + bytes.skip(1) =~= bytes);
    }
}

fn read_hex_digit(b: u8) -> (r: Option<u8>)
    ensures
        r == hex_value(b),
        r matches Some(v) ==> v < 16,
{
    if 48 <= b && b <= 57 {
        Some(b - 48)
    } else if 65 <= b && b <= 70 {
        Some(b - 55)
    } else if 97 <= b && b <= 102 {
        Some(b - 87)
    } else {
        None
    }
}

fn read_hex_byte(high: u8, low: u8) -> (r: Option<u8>)
    ensures
        r == hex_byte(high, low),
{
    match (read_hex_digit(high), read_hex_digit(low)) {
        (Some(h), Some(l)) => Some(h * 16 + l),
        (None, Some(l)) => if high == 43 {
            Some(l)
        } else {
            None
        },
        _ => None,
    }
}

/// Replaces the percent escapes in a byte string by the bytes they stand for.
pub fn unescape(input: &[u8]) -> (bytes: Vec<u8>)
    ensures
        bytes@ == unescaped(input@),
{
    let ghost all = input@;
    let mut bytes: Vec<u8> = Vec::new();
    let mut i: usize = 0;
    assert(all.skip(0) =~= all);
    assert(bytes@ + unescaped(all) =~= unescaped(all));
    while i < input.len()
        invariant
            all == input@,
            i <= all.len(),
            bytes@ + unescaped(all.skip(i as int)) == unescaped(all),
        decreases all.len() - i,
    {
        let ghost rest = all.skip(i as int);
        let ghost before = bytes@;
        assert(rest[0] == all[i as int]);
        if input.len() - i > 2 && input[i] == 37 {
            assert(rest[1] == all[i + 1] && rest[2] == all[i + 2]);
            if let Some(b) = read_hex_byte(input[i + 1], input[i + 2]) {
                bytes.push(b);
                assert(rest.skip(3) =~= all.skip(i + 3));
                assert(bytes@ + unescaped(all.skip(i + 3)) =~= before + unescaped(rest));
                i += 3;
                continue;
            }
        }
        bytes.push(input[i]);
        assert(rest.skip(1) =~= all.skip(i + 1));
        assert(bytes@ + unescaped(all.skip(i + 1)) =~= before + unescaped(rest));
        i += 1;
    }
    assert(bytes@ + unescaped(all.skip(i as int)) =~= bytes@);
    bytes
}

/// The text that a percent-encoded text stands for.
pub fn percent_decode(s: &str) -> (text: String)
    ensures
        text@ == percent_decoded(s@),
        decodes_utf8(unescaped(encode_utf8(s@))),
{
    from_utf8_lossy(unescape(s.as_bytes()).as_slice())
}

// ---------------------------------------------------------------------------
// Paths
// ---------------------------------------------------------------------------

/// Where the last segment of a path begins: after its last `/`.
pub open spec fn segment_start(path: Seq<char>) -> int
    decreases path.len(),
{
    if path.len() == 0 {
        0
    } else if path.last() == '/' {
        path.len() as int
    } else {
        segment_start(path.drop_last())
    }
}

/// The name of the file a path leads to: its last segment, where empty segments and `.` are
/// passed over. A path that ends in `..` or has no segment has none.
pub open spec fn path_leaf(path: Seq<char>) -> Option<Seq<char>>
    decreases path.len(),
{
    let start = segment_start(path);
    let segment = path.skip(start);
    if segment.len() == 0 || segment == seq!['.'] {
        if 0 < start <= path.len() {
            path_leaf(path.take(start - 1))
        } else {
            None
        }
    } else if segment == seq!['.', '.'] {
        None
    } else {
        Some(segment)
    }
}

/// The name of the file a path leads to.
pub fn file_name(path: &str) -> (r: Option<String>)
    ensures
        match r {
            Some(name) => path_leaf(path@) == Some(name@),
            None => path_leaf(path@) is None,
        },
{
    let v = chars_of(path);
    let mut end: usize = v.len();
    assert(v@.take(end as int) =~= v@);
    loop
        invariant
            v@ == path@,
            end <= v@.len(),
            path_leaf(path@) == path_leaf(v@.take(end as int)),
        decreases end,
    {
        let ghost p = v@.take(end as int);
        let mut start: usize = end;
        assert(p.take(start as int) =~= p);
        while start > 0 && v[start - 1] != '/'
            invariant
                p == v@.take(end as int),
                start <= end <= v@.len(),
                segment_start(p) == segment_start(p.take(start as int)),
            decreases start,
        {
            assert(p.take(start as int).drop_last() =~= p.take(start - 1));
            assert(p.take(start as int).last() == v@[start - 1]);
            start -= 1;
        }
        assert(start > 0 ==> p.take(start as int).last() == v@[start - 1]);
        assert(segment_start(p) == start);
        let ghost segment = p.skip(start as int);
        assert(segment =~= v@.subrange(start as int, end as int));
        assert(end > start ==> segment[0] == v@[start as int]);
        assert(end > start + 1 ==> segment[1] == v@[start + 1]);
        let is_dot = end - start == 1 && v[start] == '.';
        assert(is_dot == (segment == seq!['.'])) by {
            if is_dot {
                assert(segment =~= seq!['.']);
            }
        }
        if end == start || is_dot {
            if start == 0 {
                return None;
            }
            assert(p.take(start - 1) =~= v@.take(start - 1));
            end = start - 1;
        } else {
            let is_dot_dot = end - start == 2 && v[start] == '.' && v[start + 1] == '.';
            assert(is_dot_dot == (segment == seq!['.', '.'])) by {
                if is_dot_dot {
                    assert(segment =~= seq!['.', '.']);
                }
            }
            if is_dot_dot {
                return None;
            }
            return Some(text_of(v.as_slice(), start, end));
        }
    }
}

/// A text without the copies of `prefix` that it begins with.
pub open spec fn without_prefixes(s: Seq<char>, prefix: Seq<char>) -> Seq<char>
    decreases s.len(),
{
    if prefix.len() > 0 && begins_with(s, prefix) {
        without_prefixes(s.skip(prefix.len() as int), prefix)
    } else {
        s
    }
}

/// Drops the copies of `prefix` that a text begins with.
pub fn trim_prefixes(s: &str, prefix: &str) -> (r: String)
    requires
        prefix@.len() > 0,
    ensures
        r@ == without_prefixes(s@, prefix@),
{
    let v = chars_of(s);
    let p = chars_of(prefix);
    let mut from: usize = 0;
    assert(v@.skip(0) =~= v@);
    loop
        invariant
            v@ == s@,
            p@ == prefix@,
            p@.len() > 0,
            from <= v@.len(),
            without_prefixes(s@, prefix@) == without_prefixes(v@.skip(from as int), prefix@),
        decreases v@.len() - from,
    {
        let ghost rest = v@.skip(from as int);
        let mut i: usize = 0;
        while i < p.len() && i < v.len() - from && v[from + i] == p[i]
            invariant
                rest == v@.skip(from as int),
                from <= v@.len(),
                i <= p@.len(),
                from + i <= v@.len(),
                forall|k: int| 0 <= k < i ==> rest[k] == p@[k],
            decreases p@.len() - i,
        {
            assert(rest[i as int] == v@[from + i]);
            i += 1;
        }
        if i < p.len() {
            proof {
                if begins_with(rest, prefix@) {
                    assert(rest.take(p@.len() as int)[i as int] == p@[i as int]);
                    assert(rest[i as int] == v@[from + i]);
                }
            }
            assert(v@.subrange(from as int, v@.len() as int) =~= rest);
            return text_of(v.as_slice(), from, v.len());
        }
        assert(rest.take(p@.len() as int) =~= p@);
        assert(rest.skip(p@.len() as int) =~= v@.skip(from + p@.len()));
        assert(from + p@.len() <= v.len());
        from += p.len();
    }
}

/// What a path is shown as: the name of the file it leads to, or all of it.
pub open spec fn leaf_or_path(path: Seq<char>) -> Seq<char> {
    match path_leaf(path) {
        Some(name) => name,
        None => path,
    }
}

/// The name of the file a path leads to, or the whole path.
pub fn path_label(path: String) -> (r: String)
    ensures
        r@ == leaf_or_path(path@),
{
    match file_name(path.as_str()) {
        Some(name) => name,
        None => path,
    }
}

/// A line of a URI list without the scheme of local files.
pub open spec fn encoded_path(line: Seq<char>) -> Seq<char> {
    without_prefixes(line, "file://"@)
}

/// What a line of a URI list is shown as.
pub open spec fn uri_leaf(line: Seq<char>) -> Seq<char> {
    leaf_or_path(percent_decoded(encoded_path(line)))
}

fn leaf_of(line: &str) -> (r: String)
    ensures
        r@ == uri_leaf(line@),
        decodes_utf8(unescaped(encode_utf8(encoded_path(line@)))),
{
    proof {
        reveal_strlit("file://");
    }
    path_label(percent_decode(trim_prefixes(line, "file://").as_str()))
}

// ---------------------------------------------------------------------------
// URI lists
// ---------------------------------------------------------------------------

/// The length of the first line of a text, without its line ending.
pub open spec fn line_len(s: Seq<char>) -> int
    decreases s.len(),
{
    if s.len() == 0 || s[0] == '\n' {
        0
    } else {
        1 + line_len(s.drop_first())
    }
}

/// A line that a newline ends, without the carriage return before the newline.
pub open spec fn without_return(line: Seq<char>) -> Seq<char> {
    if line.len() > 0 && line.last() == '\r' {
        line.drop_last()
    } else {
        line
    }
}

/// Whether a line of a URI list is neither empty nor a comment.
pub open spec fn is_uri_line(line: Seq<char>) -> bool {
    line.len() > 0 && line[0] != '#'
}

/// The lines of a text: a newline ends each, together with a carriage return before it; the last
/// one may lack its ending.
pub open spec fn lines(s: Seq<char>) -> Seq<Seq<char>>
    decreases s.len(),
{
    let n = line_len(s);
    if s.len() == 0 {
        Seq::empty()
    } else if 0 <= n < s.len() {
        seq![without_return(s.take(n))] + lines(s.skip(n + 1))
    } else {
        seq![s]
    }
}

/// The URIs in a list: its lines that are neither empty nor comments.
pub open spec fn uri_lines(s: Seq<char>) -> Seq<Seq<char>> {
    lines(s).filter(|line: Seq<char>| is_uri_line(line))
}

/// The label of a URI list.
pub open spec fn uri_list_label(text: Seq<char>) -> Seq<char> {
    let uris = uri_lines(text);
    if uris.len() == 0 {
        "file"@
    } else if uris.len() == 1 {
        uri_leaf(uris[0])
    } else {
        uri_leaf(uris[0]) + " and "@ + decimal((uris.len() - 1) as nat) + " more"@
    }
}

proof fn lemma_uri_lines_first(line: Seq<char>, rest: Seq<Seq<char>>)
    ensures
        (seq![line] + rest).filter(|l: Seq<char>| is_uri_line(l)) == (if is_uri_line(line) {
            seq![line]
        } else {
            Seq::empty()
        }) + rest.filter(|l: Seq<char>| is_uri_line(l)),
{
    let keep = |l: Seq<char>| is_uri_line(l);
    Seq::filter_distributes_over_add(seq![line], rest, keep);
    assert(seq![line].filter(keep) =~= (if is_uri_line(line) {
        seq![line]
    } else {
        Seq::empty()
    })) by {
        reveal_with_fuel(Seq::filter, 2);
        assert(seq![line].drop_last() =~= Seq::empty());
    }
}

/// Finds the end of the line that begins at `from`.
fn find_line_end(v: &[char], from: usize) -> (end: usize)
    requires
        from <= v@.len(),
    ensures
        from <= end <= v@.len(),
        end - from == line_len(v@.skip(from as int)),
{
    let ghost rest = v@.skip(from as int);
    let mut end: usize = from;
    assert(rest.skip(0) =~= rest);
    while end < v.len() && v[end] != '\n'
        invariant
            rest == v@.skip(from as int),
            from <= end <= v@.len(),
            line_len(rest) == end - from + line_len(rest.skip(end - from)),
        decreases v@.len() - end,
    {
        assert(rest.skip(end - from)[0] == v@[end as int]);
        assert(rest.skip(end - from).drop_first() =~= rest.skip(end - from + 1));
        end += 1;
    }
    assert(end < v@.len() ==> rest.skip(end - from)[0] == v@[end as int]);
    end
}

/// The first line of what begins at `from` and what follows it, in terms of positions.
proof fn lemma_uri_lines_step(v: Seq<char>, from: int, end: int, to: int, next: int)
    requires
        0 <= from <= to <= end <= v.len(),
        from < v.len(),
        end - from == line_len(v.skip(from)),
        end < v.len() ==> to == (if end > from && v[end - 1] == '\r' {
            end - 1
        } else {
            end
        }) && next == end + 1,
        end == v.len() ==> to == end && next == end,
    ensures
        uri_lines(v.skip(from)) == (if to > from && v[from] != '#' {
            seq![v.subrange(from, to)]
        } else {
            Seq::empty()
        }) + uri_lines(v.skip(next)),
{
    let rest = v.skip(from);
    let line = v.subrange(from, to);
    if end < v.len() {
        assert(rest.take(end - from) =~= v.subrange(from, end));
        assert(end > from ==> rest.take(end - from).last() == v[end - 1]);
        assert(without_return(rest.take(end - from)) =~= line);
        assert(rest.skip(end - from + 1) =~= v.skip(next));
    } else {
        assert(rest =~= line);
        assert(v.skip(next) =~= Seq::<char>::empty());
    }
    assert(lines(rest) =~= seq![line] + lines(v.skip(next)));
    lemma_uri_lines_first(line, lines(v.skip(next)));
    assert(to > from ==> line[0] == v[from]);
}

/// Counts the URIs in a list and takes out the first one.
pub fn scan_uri_list(text: &str) -> (r: (usize, String))
    ensures
        r.0 == uri_lines(text@).len(),
        r.0 > 0 ==> r.1@ == uri_lines(text@)[0],
        r.0 == 0 ==> r.1@ == Seq::<char>::empty(),
{
    let v = chars_of(text);
    let mut count: usize = 0;
    let mut first = String::new();
    let mut from: usize = 0;
    let ghost mut found: Seq<Seq<char>> = Seq::empty();
    assert(v@.skip(0) =~= v@);
    assert(found + uri_lines(v@) =~= uri_lines(v@));
    while from < v.len()
        invariant
            from <= v@.len(),
            count <= from,
            count == found.len(),
            count > 0 ==> first@ == found[0],
            count == 0 ==> first@ == Seq::<char>::empty(),
            uri_lines(v@) == found + uri_lines(v@.skip(from as int)),
        decreases v@.len() - from,
    {
        let ghost before = found;
        let end = find_line_end(v.as_slice(), from);
        let mut to: usize = end;
        let mut next: usize = end;
        if end < v.len() {
            if end > from && v[end - 1] == '\r' {
                to = end - 1;
            }
            next = end + 1;
        }
        proof {
            lemma_uri_lines_step(v@, from as int, end as int, to as int, next as int);
        }
        let ghost others = uri_lines(v@.skip(next as int));
        if to > from && v[from] != '#' {
            if count == 0 {
                first = text_of(v.as_slice(), from, to);
            }
            count += 1;
            proof {
                let line = v@.subrange(from as int, to as int);
                found = found.push(line);
                assert(before + (seq![line] + others) =~= found + others);
            }
        } else {
            assert(before + (Seq::<Seq<char>>::empty() + others) =~= found + others);
        }
        from = next;
    }
    proof {
        assert(lines(v@.skip(from as int)) =~= Seq::empty());
        assert(uri_lines(v@.skip(from as int)).len() == 0) by {
            reveal(Seq::filter);
        }
        assert(uri_lines(v@) =~= found);
    }
    (count, first)
}

/// Whether the first path of a URI list is decoded as the text it encodes, if it encodes one.
pub open spec fn uri_list_decodes(text: Seq<char>) -> bool {
    uri_lines(text).len() > 0 ==> decodes_utf8(
        unescaped(encode_utf8(encoded_path(uri_lines(text)[0]))),
    )
}

/// The label of a URI list.
fn label_uri_list(data: &[u8]) -> (r: String)
    ensures
        r@ == uri_list_label(lossy_text(data@)),
        decodes_utf8(data@),
        uri_list_decodes(lossy_text(data@)),
{
    let text = from_utf8_lossy(data);
    let (count, first) = scan_uri_list(text.as_str());
    if count == 0 {
        return "file".to_string();
    }
    let mut label = leaf_of(first.as_str());
    if count > 1 {
        label.append(" and ");
        push_decimal(&mut label, (count - 1) as u64);
        label.append(" more");
    }
    label
}

// ---------------------------------------------------------------------------
// Text
// ---------------------------------------------------------------------------

/// Whether a character is white space: the Unicode property `White_Space`.
pub open spec fn is_white_space(c: char) -> bool {
    let v = c as u32;
    ||| 0x9 <= v <= 0xd
    ||| v == 0x20
    ||| v == 0x85
    ||| v == 0xa0
    ||| v == 0x1680
    ||| 0x2000 <= v <= 0x200a
    ||| v == 0x2028
    ||| v == 0x2029
    ||| v == 0x202f
    ||| v == 0x205f
    ||| v == 0x3000
}

/// A text without the white space at its beginning.
pub open spec fn trimmed_start(s: Seq<char>) -> Seq<char>
    decreases s.len(),
{
    if s.len() > 0 && is_white_space(s[0]) {
        trimmed_start(s.drop_first())
    } else {
        s
    }
}

/// A text without the white space at its end.
pub open spec fn trimmed_end(s: Seq<char>) -> Seq<char>
    decreases s.len(),
{
    if s.len() > 0 && is_white_space(s.last()) {
        trimmed_end(s.drop_last())
    } else {
        s
    }
}

/// A text without the white space at its beginning and its end.
pub open spec fn trimmed(s: Seq<char>) -> Seq<char> {
    trimmed_end(trimmed_start(s))
}

fn is_space(c: char) -> (r: bool)
    ensures
        r == is_white_space(c),
{
    let v: u32 = c as u32;
    (0x9 <= v && v <= 0xd) || v == 0x20 || v == 0x85 || v == 0xa0 || v == 0x1680 || (0x2000 <= v
        && v <= 0x200a) || v == 0x2028 || v == 0x2029 || v == 0x202f || v == 0x205f || v == 0x3000
}

/// Drops the white space around a text.
pub fn trim(s: &str) -> (r: String)
    ensures
        r@ == trimmed(s@),
{
    let v = chars_of(s);
    let mut from: usize = 0;
    assert(v@.skip(0) =~= v@);
    while from < v.len() && is_space(v[from])
        invariant
            v@ == s@,
            from <= v@.len(),
            trimmed_start(s@) == trimmed_start(v@.skip(from as int)),
        decreases v@.len() - from,
    {
        assert(v@.skip(from as int).drop_first() =~= v@.skip(from + 1));
        from += 1;
    }
    let ghost rest = v@.skip(from as int);
    assert(rest.len() > 0 ==> rest[0] == v@[from as int]);
    assert(trimmed_start(s@) == rest);
    let mut to: usize = v.len();
    assert(v@.subrange(from as int, to as int) =~= rest);
    while to > from && is_space(v[to - 1])
        invariant
            from <= to <= v@.len(),
            trimmed_end(rest) == trimmed_end(v@.subrange(from as int, to as int)),
        decreases to,
    {
        assert(v@.subrange(from as int, to as int).last() == v@[to - 1]);
        assert(v@.subrange(from as int, to as int).drop_last() =~= v@.subrange(
            from as int,
            to - 1,
        ));
        to -= 1;
    }
    assert(to > from ==> v@.subrange(from as int, to as int).last() == v@[to - 1]);
    text_of(v.as_slice(), from, to)
}

/// The number of bytes that a text label may have before it is cut.
pub const LABEL_BYTES: usize = 120;

/// The longest prefix of a text whose UTF-8 encoding has at most `limit` bytes.
pub open spec fn prefix_within(text: Seq<char>, limit: nat) -> Seq<char>
    decreases text.len(),
{
    if text.len() == 0 || encode_utf8(text).len() <= limit {
        text
    } else {
        prefix_within(text.drop_last(), limit)
    }
}

/// A text cut to the length of a label: all of it, or as many characters as fit and an ellipsis.
pub open spec fn shortened(text: Seq<char>) -> Seq<char> {
    if encode_utf8(text).len() > LABEL_BYTES {
        prefix_within(text, LABEL_BYTES as nat).push('\u{2026}')
    } else {
        text
    }
}

/// The encoding of two texts together.
pub proof fn lemma_encode_concat(a: Seq<char>, b: Seq<char>)
    ensures
        encode_utf8(a + b) == encode_utf8(a) + encode_utf8(b),
    decreases a.len(),
{
    if a.len() == 0 {
        assert(a + b =~= b);
        assert(encode_utf8(a) + encode_utf8(b) =~= encode_utf8(b));
    } else {
        assert((a + b).drop_first() =~= a.drop_first() + b);
        lemma_encode_concat(a.drop_first(), b);
        assert(encode_utf8(a + b) =~= encode_utf8(a) + encode_utf8(b));
    }
}

/// The number of bytes in the encoding of one character.
spec fn char_width(c: char) -> nat {
    encode_utf8(seq![c]).len()
}

/// The number of bytes in the encoding of one character.
fn width_of(c: char) -> (n: usize)
    ensures
        n == char_width(c),
        n > 0,
{
    let v: u32 = c as u32;
    proof {
        reveal_with_fuel(encode_utf8, 2);
        assert(encode_utf8(seq![c]) =~= encode_scalar(c as u32));
    }
    if v <= 0x7f {
        1
    } else if v <= 0x7ff {
        2
    } else if v <= 0xffff {
        3
    } else {
        4
    }
}

/// The encoding of a text is that of its last character longer than without it.
proof fn lemma_encode_last(text: Seq<char>)
    requires
        text.len() > 0,
    ensures
        encode_utf8(text).len() == encode_utf8(text.drop_last()).len() + char_width(text.last()),
{
    assert(text =~= text.drop_last() + seq![text.last()]);
    lemma_encode_concat(text.drop_last(), seq![text.last()]);
}

/// Cuts a text to the length of a label.
pub fn shorten(text: String) -> (r: String)
    ensures
        r@ == shortened(text@),
{
    let len = text.as_str().as_bytes().len();
    if len <= LABEL_BYTES {
        return text;
    }
    let chars = chars_of(text.as_str());
    let mut k: usize = chars.len();
    let mut n: usize = len;
    assert(text@.take(k as int) =~= text@);
    while k > 0 && n > LABEL_BYTES
        invariant
            chars@ == text@,
            k <= text@.len(),
            n == encode_utf8(text@.take(k as int)).len(),
            prefix_within(text@, LABEL_BYTES as nat) == prefix_within(
                text@.take(k as int),
                LABEL_BYTES as nat,
            ),
        decreases k,
    {
        proof {
            lemma_encode_last(text@.take(k as int));
            assert(text@.take(k as int).drop_last() =~= text@.take(k - 1));
        }
        n -= width_of(chars[k - 1]);
        k -= 1;
    }
    let mut label = text_of(chars.as_slice(), 0, k);
    assert(label@ =~= text@.take(k as int));
    label.push('\u{2026}');
    label
}

/// Of what can follow a text, nothing is in the prefix that its bytes leave no room for.
proof fn lemma_prefix_of_concat(a: Seq<char>, b: Seq<char>, limit: nat)
    requires
        encode_utf8(a).len() == limit,
    ensures
        prefix_within(a + b, limit) == a,
    decreases b.len(),
{
    if b.len() == 0 {
        assert(a + b =~= a);
    } else {
        assert((a + b).drop_last() =~= a + b.drop_last());
        lemma_encode_concat(a, b);
        lemma_encode_last(b);
        assert(char_width(b.last()) > 0) by {
            let one = seq![b.last()];
            assert(encode_utf8(one) =~= encode_scalar(b.last() as u32) + encode_utf8(
                one.drop_first(),
            ));
        }
        lemma_prefix_of_concat(a, b.drop_last(), limit);
    }
}

/// Where a text can be cut between two characters at the length of a label, it is cut there.
pub proof fn law_cut_between_characters(text: Seq<char>)
    requires
        encode_utf8(text).len() > LABEL_BYTES,
        is_char_boundary(encode_utf8(text), LABEL_BYTES as int),
    ensures
        encode_utf8(prefix_within(text, LABEL_BYTES as nat)) == encode_utf8(text).take(
            LABEL_BYTES as int,
        ),
{
    let bytes = encode_utf8(text);
    let (x, y) = (
        bytes.subrange(0, LABEL_BYTES as int),
        bytes.subrange(LABEL_BYTES as int, bytes.len() as int),
    );
    encode_utf8_valid_utf8(text);
    encode_utf8_decode_utf8(text);
    valid_utf8_split(bytes, LABEL_BYTES as int);
    decode_utf8_split(bytes, LABEL_BYTES as int);
    decode_utf8_encode_utf8(x);
    lemma_prefix_of_concat(decode_utf8(x), decode_utf8(y), LABEL_BYTES as nat);
    assert(bytes.take(LABEL_BYTES as int) =~= x);
}

// ---------------------------------------------------------------------------
// Labels
// ---------------------------------------------------------------------------

/// The bytes of the first payload of a MIME type.
pub open spec fn bytes_of(payloads: Seq<PayloadView>, mime: Seq<char>) -> Option<Seq<u8>>
    decreases payloads.len(),
{
    if payloads.len() == 0 {
        None
    } else if payloads[0].0 == mime {
        Some(payloads[0].1)
    } else {
        bytes_of(payloads.drop_first(), mime)
    }
}

/// The bytes of the first payload whose MIME type begins with `prefix`.
pub open spec fn bytes_of_prefix(payloads: Seq<PayloadView>, prefix: Seq<char>) -> Option<Seq<u8>>
    decreases payloads.len(),
{
    if payloads.len() == 0 {
        None
    } else if begins_with(payloads[0].0, prefix) {
        Some(payloads[0].1)
    } else {
        bytes_of_prefix(payloads.drop_first(), prefix)
    }
}

/// The bytes that stand for an entry as text: UTF-8 text if there is any, else plain text, else
/// the first payload of a text type.
pub open spec fn text_bytes(payloads: Seq<PayloadView>) -> Option<Seq<u8>> {
    match bytes_of(payloads, "text/plain;charset=utf-8"@) {
        Some(data) => Some(data),
        None => match bytes_of(payloads, "text/plain"@) {
            Some(data) => Some(data),
            None => bytes_of_prefix(payloads, "text/"@),
        },
    }
}

/// The label of an entry.
pub open spec fn label_text(kind: EntryKind, payloads: Seq<PayloadView>) -> Seq<char> {
    match kind {
        EntryKind::File | EntryKind::Uri => match bytes_of(payloads, "text/uri-list"@) {
            Some(data) => uri_list_label(lossy_text(data)),
            None => "file"@,
        },
        EntryKind::Text => match text_bytes(payloads) {
            Some(data) => shortened(trimmed(lossy_text(data))),
            None => "text"@,
        },
        EntryKind::Image => "image"@,
        EntryKind::Other => "binary"@,
    }
}

/// Whether the payload that a label is made from is decoded as the text it encodes, if it encodes
/// one.
pub open spec fn label_decodes(kind: EntryKind, payloads: Seq<PayloadView>) -> bool {
    match kind {
        EntryKind::File | EntryKind::Uri => match bytes_of(payloads, "text/uri-list"@) {
            Some(data) => decodes_utf8(data) && uri_list_decodes(lossy_text(data)),
            None => true,
        },
        EntryKind::Text => match text_bytes(payloads) {
            Some(data) => decodes_utf8(data),
            None => true,
        },
        _ => true,
    }
}

/// Whether a found payload is what a search should have found.
spec fn found_bytes(found: Option<&[u8]>, expected: Option<Seq<u8>>) -> bool {
    match found {
        Some(data) => expected == Some(data@),
        None => expected is None,
    }
}

/// Finds the first payload of a MIME type.
fn find_payload<'a>(payloads: &'a [(String, Vec<u8>)], mime: &str) -> (r: Option<&'a [u8]>)
    ensures
        found_bytes(r, bytes_of(views(payloads@), mime@)),
{
    let ghost all = views(payloads@);
    let mut i: usize = 0;
    assert(all.skip(0) =~= all);
    while i < payloads.len()
        invariant
            all == views(payloads@),
            i <= payloads@.len(),
            bytes_of(all, mime@) == bytes_of(all.skip(i as int), mime@),
        decreases payloads@.len() - i,
    {
        assert(all.skip(i as int)[0] == payloads@[i as int]@);
        assert(all.skip(i as int).drop_first() =~= all.skip(i + 1));
        if same_text(payloads[i].0.as_str(), mime) {
            return Some(payloads[i].1.as_slice());
        }
        i += 1;
    }
    None
}

/// Finds the first payload whose MIME type begins with `prefix`.
fn find_payload_prefix<'a>(payloads: &'a [(String, Vec<u8>)], prefix: &str) -> (r: Option<&'a [u8]>)
    ensures
        found_bytes(r, bytes_of_prefix(views(payloads@), prefix@)),
{
    let ghost all = views(payloads@);
    let mut i: usize = 0;
    assert(all.skip(0) =~= all);
    while i < payloads.len()
        invariant
            all == views(payloads@),
            i <= payloads@.len(),
            bytes_of_prefix(all, prefix@) == bytes_of_prefix(all.skip(i as int), prefix@),
        decreases payloads@.len() - i,
    {
        assert(all.skip(i as int)[0] == payloads@[i as int]@);
        assert(all.skip(i as int).drop_first() =~= all.skip(i + 1));
        if starts_with(payloads[i].0.as_str(), prefix) {
            return Some(payloads[i].1.as_slice());
        }
        i += 1;
    }
    None
}

/// Finds the bytes that stand for an entry as text.
fn find_text<'a>(payloads: &'a [(String, Vec<u8>)]) -> (r: Option<&'a [u8]>)
    ensures
        found_bytes(r, text_bytes(views(payloads@))),
{
    match find_payload(payloads, "text/plain;charset=utf-8") {
        Some(data) => Some(data),
        None => match find_payload(payloads, "text/plain") {
            Some(data) => Some(data),
            None => find_payload_prefix(payloads, "text/"),
        },
    }
}

/// Builds the label of an entry from its kind and payloads.
pub fn build_label(kind: &EntryKind, mime_payloads: &[(String, Vec<u8>)]) -> (label: String)
    ensures
        label@ == label_text(*kind, views(mime_payloads@)),
        label_decodes(*kind, views(mime_payloads@)),
{
    match kind {
        EntryKind::File | EntryKind::Uri => match find_payload(mime_payloads, "text/uri-list") {
            Some(data) => label_uri_list(data),
            None => "file".to_string(),
        },
        EntryKind::Text => match find_text(mime_payloads) {
            Some(data) => shorten(trim(from_utf8_lossy(data).as_str())),
            None => "text".to_string(),
        },
        EntryKind::Image => "image".to_string(),
        EntryKind::Other => "binary".to_string(),
    }
}

} // verus!
