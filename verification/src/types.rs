//! What a history entry is, and how it is classified.
use vstd::prelude::*;

use crate::order::views;
use crate::text::{begins_with, same_text, starts_with};
use crate::time::Timestamp;

verus! {

/// What a clipboard entry holds, as far as a user cares.
#[derive(Debug, Clone, Copy, PartialEq, Eq, Structural)]
pub enum EntryKind {
    Text,
    Uri,
    File,
    Image,
    Other,
}

/// The name of a kind.
pub open spec fn kind_name(kind: EntryKind) -> Seq<char> {
    match kind {
        EntryKind::Text => "text"@,
        EntryKind::Uri => "uri"@,
        EntryKind::File => "file"@,
        EntryKind::Image => "image"@,
        EntryKind::Other => "other"@,
    }
}

/// The kind that a name stands for; a name that is not known stands for [`EntryKind::Other`].
pub open spec fn kind_named(name: Seq<char>) -> EntryKind {
    if name == "text"@ {
        EntryKind::Text
    } else if name == "uri"@ {
        EntryKind::Uri
    } else if name == "file"@ {
        EntryKind::File
    } else if name == "image"@ {
        EntryKind::Image
    } else {
        EntryKind::Other
    }
}

impl EntryKind {
    /// The name of the kind.
    pub fn label(&self) -> (name: &'static str)
        ensures
            name@ == kind_name(*self),
    {
        match self {
            EntryKind::Text => "text",
            EntryKind::Uri => "uri",
            EntryKind::File => "file",
            EntryKind::Image => "image",
            EntryKind::Other => "other",
        }
    }
}

/// The kind that a stored name stands for.
pub fn parse_kind(s: &str) -> (kind: EntryKind)
    ensures
        kind == kind_named(s@),
{
    if same_text(s, "text") {
        EntryKind::Text
    } else if same_text(s, "uri") {
        EntryKind::Uri
    } else if same_text(s, "file") {
        EntryKind::File
    } else if same_text(s, "image") {
        EntryKind::Image
    } else {
        EntryKind::Other
    }
}

/// A kind is read back from its name.
pub proof fn law_kind_name_roundtrip(kind: EntryKind)
    ensures
        kind_named(kind_name(kind)) == kind,
{
    reveal_strlit("text");
    reveal_strlit("uri");
    reveal_strlit("file");
    reveal_strlit("image");
    reveal_strlit("other");
    assert("text"@[0] == 't' && "file"@[0] == 'f' && "image"@[0] == 'i' && "other"@[0] == 'o'
        && "uri"@[0] == 'u');
}

/// One MIME type of an entry with its bytes, in Base64 notation.
#[derive(Debug, Clone)]
pub struct MimePayload {
    pub mime_type: String,
    /// The bytes in Base64 notation.
    pub data_b64: String,
}

impl View for MimePayload {
    type V = (Seq<char>, Seq<char>);

    open spec fn view(&self) -> (Seq<char>, Seq<char>) {
        (self.mime_type@, self.data_b64@)
    }
}

/// An entry of the history, as it is listed.
#[derive(Debug, Clone)]
pub struct Entry {
    pub id: i64,
    pub hash: String,
    pub kind: EntryKind,
    pub label: String,
    pub preview: String,
    pub size: usize,
    /// When the entry was first recorded.
    pub created_at: Timestamp,
    /// When the entry was last recorded or restored.
    pub last_used_at: Timestamp,
    pub mime_types: Vec<String>,
}

/// What a listed entry is.
pub struct EntryView {
    pub id: i64,
    pub hash: Seq<char>,
    pub kind: EntryKind,
    pub label: Seq<char>,
    pub preview: Seq<char>,
    pub size: usize,
    pub created_at: (i64, u32),
    pub last_used_at: (i64, u32),
    pub mime_types: Seq<Seq<char>>,
}

impl View for Entry {
    type V = EntryView;

    open spec fn view(&self) -> EntryView {
        EntryView {
            id: self.id,
            hash: self.hash@,
            kind: self.kind,
            label: self.label@,
            preview: self.preview@,
            size: self.size,
            created_at: self.created_at@,
            last_used_at: self.last_used_at@,
            mime_types: views(self.mime_types@),
        }
    }
}

/// Whether one of the MIME types begins with `prefix`.
pub open spec fn some_begins_with(mimes: Seq<Seq<char>>, prefix: Seq<char>) -> bool {
    exists|i: int| 0 <= i < mimes.len() && begins_with(#[trigger] mimes[i], prefix)
}

/// Whether a file manager offered these MIME types for copied or cut files.
pub open spec fn is_file_offer(mimes: Seq<Seq<char>>) -> bool {
    ||| mimes.contains("x-special/gnome-copied-files"@)
    ||| mimes.contains("x-kde-cut-selection"@)
    ||| some_begins_with(mimes, "x-special/"@)
    ||| mimes.contains("text/uri-list"@) && (some_begins_with(mimes, "application/x-kde"@)
        || some_begins_with(mimes, "x-special"@))
}

/// The kind of an entry with the given MIME types.
pub open spec fn kind_of(mimes: Seq<Seq<char>>) -> EntryKind {
    if is_file_offer(mimes) {
        EntryKind::File
    } else if mimes.contains("text/uri-list"@) {
        EntryKind::Uri
    } else if some_begins_with(mimes, "image/"@) {
        EntryKind::Image
    } else if some_begins_with(mimes, "text/"@) {
        EntryKind::Text
    } else {
        EntryKind::Other
    }
}

/// The kind depends on which MIME types are offered, not on their order.
pub proof fn law_kind_ignores_order(a: Seq<Seq<char>>, b: Seq<Seq<char>>)
    requires
        forall|mime: Seq<char>| #[trigger] a.contains(mime) <==> b.contains(mime),
    ensures
        kind_of(a) == kind_of(b),
{
    lemma_prefix_among(a, b, "x-special/"@);
    lemma_prefix_among(a, b, "application/x-kde"@);
    lemma_prefix_among(a, b, "x-special"@);
    lemma_prefix_among(a, b, "image/"@);
    lemma_prefix_among(a, b, "text/"@);
}

proof fn lemma_prefix_among(a: Seq<Seq<char>>, b: Seq<Seq<char>>, prefix: Seq<char>)
    requires
        forall|mime: Seq<char>| #[trigger] a.contains(mime) <==> b.contains(mime),
    ensures
        some_begins_with(a, prefix) == some_begins_with(b, prefix),
{
    if some_begins_with(a, prefix) {
        let i = choose|i: int| 0 <= i < a.len() && begins_with(#[trigger] a[i], prefix);
        assert(a.contains(a[i]));
        assert(b.contains(a[i]));
        let j = choose|j: int| 0 <= j < b.len() && b[j] == a[i];
        assert(begins_with(b[j], prefix));
    }
    if some_begins_with(b, prefix) {
        let i = choose|i: int| 0 <= i < b.len() && begins_with(#[trigger] b[i], prefix);
        assert(b.contains(b[i]));
        assert(a.contains(b[i]));
        let j = choose|j: int| 0 <= j < a.len() && a[j] == b[i];
        assert(begins_with(a[j], prefix));
    }
}

/// Tells whether one of the MIME types is `mime`.
fn offers(mime_types: &[String], mime: &str) -> (r: bool)
    ensures
        r == views(mime_types@).contains(mime@),
{
    let ghost mimes = views(mime_types@);
    let mut i: usize = 0;
    while i < mime_types.len()
        invariant
            mimes == views(mime_types@),
            i <= mime_types@.len(),
            forall|k: int| 0 <= k < i ==> mimes[k] != mime@,
        decreases mime_types@.len() - i,
    {
        assert(mimes[i as int] == mime_types@[i as int]@);
        if same_text(mime_types[i].as_str(), mime) {
            return true;
        }
        i += 1;
    }
    false
}

/// Tells whether one of the MIME types begins with `prefix`.
fn offers_prefix(mime_types: &[String], prefix: &str) -> (r: bool)
    ensures
        r == some_begins_with(views(mime_types@), prefix@),
{
    let ghost mimes = views(mime_types@);
    let mut i: usize = 0;
    while i < mime_types.len()
        invariant
            mimes == views(mime_types@),
            i <= mime_types@.len(),
            forall|k: int| 0 <= k < i ==> !begins_with(#[trigger] mimes[k], prefix@),
        decreases mime_types@.len() - i,
    {
        assert(mimes[i as int] == mime_types@[i as int]@);
        if starts_with(mime_types[i].as_str(), prefix) {
            return true;
        }
        i += 1;
    }
    false
}

/// Classifies an entry by its MIME types: files first, then URIs, images and text.
pub fn classify_kind(mime_types: &[String]) -> (kind: EntryKind)
    ensures
        kind == kind_of(views(mime_types@)),
{
    if offers(mime_types, "x-special/gnome-copied-files") || offers(
        mime_types,
        "x-kde-cut-selection",
    ) || offers_prefix(mime_types, "x-special/") || (offers(mime_types, "text/uri-list") && (
    offers_prefix(mime_types, "application/x-kde") || offers_prefix(mime_types, "x-special"))) {
        return EntryKind::File;
    }
    if offers(mime_types, "text/uri-list") {
        return EntryKind::Uri;
    }
    if offers_prefix(mime_types, "image/") {
        return EntryKind::Image;
    }
    if offers_prefix(mime_types, "text/") {
        return EntryKind::Text;
    }
    EntryKind::Other
}

} // verus!
