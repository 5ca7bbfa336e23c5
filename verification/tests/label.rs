use mimeclip::label::{build_label, percent_decode, shorten, trim};
use mimeclip::types::EntryKind;

fn label(kind: EntryKind, payloads: &[(&str, &[u8])]) -> String {
    let payloads: Vec<(String, Vec<u8>)> = payloads
        .iter()
        .map(|(m, d)| (m.to_string(), d.to_vec()))
        .collect();
    build_label(&kind, &payloads)
}

fn uris(list: &str) -> String {
    label(EntryKind::Uri, &[("text/uri-list", list.as_bytes())])
}

#[test]
fn one_file_is_labelled_by_its_name() {
    assert_eq!(uris("file:///home/me/notes.txt\r\n"), "notes.txt");
    assert_eq!(uris("file:///home/me/my%20notes.txt"), "my notes.txt");
    assert_eq!(uris("file:///home/me/dir/"), "dir");
    assert_eq!(uris("file:///"), "/");
    assert_eq!(uris("file:///a/.."), "/a/..");
    assert_eq!(uris("file:///a/."), "a");
    assert_eq!(uris("https://example.com/x?y"), "x?y");
    assert_eq!(uris("https://example.com"), "example.com");
    assert_eq!(uris("file://file:///x/y"), "y");
}

#[test]
fn several_files_are_counted() {
    assert_eq!(
        uris("# comment\nfile:///a/b.txt\n\nfile:///c\r\nfile:///d\n"),
        "b.txt and 2 more"
    );
    assert_eq!(uris("file:///a\nfile:///b"), "a and 1 more");
}

#[test]
fn list_without_files_is_labelled_file() {
    assert_eq!(uris("# comment\n\n"), "file");
    assert_eq!(uris(""), "file");
    assert_eq!(label(EntryKind::File, &[("text/plain", b"x")]), "file");
    assert_eq!(label(EntryKind::Uri, &[]), "file");
}

#[test]
fn text_is_trimmed() {
    assert_eq!(
        label(EntryKind::Text, &[("text/plain", b" \t\n hello world\r\n ")]),
        "hello world"
    );
    assert_eq!(trim("\u{3000}\u{85}x\u{a0}y\u{2009}"), "x\u{a0}y");
    assert_eq!(trim(" \n"), "");
}

#[test]
fn utf8_text_is_preferred() {
    let payloads: [(&str, &[u8]); 3] = [
        ("text/html", b"<b>"),
        ("text/plain", b"plain"),
        ("text/plain;charset=utf-8", b"utf-8"),
    ];
    assert_eq!(label(EntryKind::Text, &payloads), "utf-8");
    assert_eq!(label(EntryKind::Text, &payloads[..2]), "plain");
    assert_eq!(label(EntryKind::Text, &payloads[..1]), "<b>");
    assert_eq!(label(EntryKind::Text, &[("a/b", b"x")]), "text");
}

#[test]
fn long_text_is_cut() {
    let text = "x".repeat(121);
    let mut expected = "x".repeat(120);
    expected.push('…');
    assert_eq!(
        label(EntryKind::Text, &[("text/plain", text.as_bytes())]),
        expected
    );
    let exact = "y".repeat(120);
    assert_eq!(
        label(EntryKind::Text, &[("text/plain", exact.as_bytes())]),
        exact
    );
}

#[test]
fn text_is_cut_between_characters() {
    for (n, c, kept) in [
        (119, 'é', 0),
        (118, 'é', 1),
        (117, '€', 1),
        (118, '€', 0),
        (119, '€', 0),
        (116, '😀', 1),
        (117, '😀', 0),
        (118, '😀', 0),
        (119, '😀', 0),
    ] {
        let start = "x".repeat(n);
        let text = format!("{start}{c}{c}zzz");
        let mut expected = start;
        for _ in 0..kept {
            expected.push(c);
        }
        expected.push('…');
        assert_eq!(
            label(EntryKind::Text, &[("text/plain", text.as_bytes())]),
            expected
        );
    }
    assert_eq!(shorten("é".repeat(60)), "é".repeat(60));
    assert_eq!(shorten("é".repeat(61)), format!("{}…", "é".repeat(60)));
}

#[test]
fn ill_formed_text_is_replaced() {
    assert_eq!(
        label(EntryKind::Text, &[("text/plain", b"a\xffb")]),
        "a\u{fffd}b"
    );
}

#[test]
fn other_kinds_have_fixed_labels() {
    assert_eq!(label(EntryKind::Image, &[("image/png", b"x")]), "image");
    assert_eq!(label(EntryKind::Other, &[("a/b", b"x")]), "binary");
}

#[test]
fn percent_escapes_are_replaced() {
    assert_eq!(percent_decode("a%20b%2Fc%c3%a9"), "a b/cé");
    assert_eq!(percent_decode("100%"), "100%");
    assert_eq!(percent_decode("%4"), "%4");
    assert_eq!(percent_decode("%zz%41"), "%zzA");
    assert_eq!(percent_decode("%+f"), "\u{f}");
    assert_eq!(percent_decode("%%41"), "%A");
    assert_eq!(percent_decode("%é1"), "%é1");
    assert_eq!(percent_decode("%ff"), "\u{fffd}");
    assert_eq!(percent_decode("no escapes"), "no escapes");
}

#[test]
fn names_are_taken_as_std_takes_them() {
    for path in [
        "/a/b", "/a/b/", "/a/b//", "a", "/", "", ".", "..", "/..", "a/..", "a/.", "./", "a/./",
        "./a", "//a", "/.a", "a/...", "a//.//",
    ] {
        let expected = std::path::Path::new(path)
            .file_name()
            .map(|n| n.to_str().unwrap().to_string());
        assert_eq!(mimeclip::label::file_name(path), expected, "{path:?}");
    }
}
