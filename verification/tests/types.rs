use mimeclip::types::{classify_kind, parse_kind, EntryKind};

fn kind(mimes: &[&str]) -> EntryKind {
    let mimes: Vec<String> = mimes.iter().map(|m| m.to_string()).collect();
    classify_kind(&mimes)
}

#[test]
fn kinds_have_names() {
    let names = [
        (EntryKind::Text, "text"),
        (EntryKind::Uri, "uri"),
        (EntryKind::File, "file"),
        (EntryKind::Image, "image"),
        (EntryKind::Other, "other"),
    ];
    for (kind, name) in names {
        assert_eq!(kind.label(), name);
        assert_eq!(parse_kind(name), kind);
    }
    assert_eq!(parse_kind("Text"), EntryKind::Other);
    assert_eq!(parse_kind(""), EntryKind::Other);
}

#[test]
fn copied_files_are_files() {
    assert_eq!(kind(&["x-special/gnome-copied-files"]), EntryKind::File);
    assert_eq!(kind(&["text/plain", "x-kde-cut-selection"]), EntryKind::File);
    assert_eq!(kind(&["image/png", "x-special/other"]), EntryKind::File);
    assert_eq!(
        kind(&["text/uri-list", "application/x-kde-cutselection"]),
        EntryKind::File
    );
    assert_eq!(kind(&["text/uri-list", "x-specialties"]), EntryKind::File);
}

#[test]
fn other_offers_are_classified_by_priority() {
    assert_eq!(kind(&["image/png", "text/uri-list"]), EntryKind::Uri);
    assert_eq!(kind(&["text/html", "image/png"]), EntryKind::Image);
    assert_eq!(kind(&["application/json", "text/plain"]), EntryKind::Text);
    assert_eq!(kind(&["application/x-kde"]), EntryKind::Other);
    assert_eq!(kind(&["x-specialties"]), EntryKind::Other);
    assert_eq!(kind(&[]), EntryKind::Other);
}

#[test]
fn kind_ignores_order() {
    let mimes = ["text/plain", "text/uri-list", "x-special/gnome-copied-files"];
    let reversed = ["x-special/gnome-copied-files", "text/uri-list", "text/plain"];
    assert_eq!(kind(&mimes), EntryKind::File);
    assert_eq!(kind(&reversed), EntryKind::File);
}
