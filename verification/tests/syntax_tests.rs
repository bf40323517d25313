use resharp::{RegexOptions, SyntaxKind};

#[test]
fn regex_options_flags() {
    let opts = RegexOptions::IGNORE_CASE() | RegexOptions::MULTILINE();
    assert!(opts.contains(RegexOptions::IGNORE_CASE()));
    assert!(opts.contains(RegexOptions::MULTILINE()));
    assert!(!opts.contains(RegexOptions::SINGLELINE()));
}

#[test]
fn syntax_kind_roundtrip() {
    for kind in [
        SyntaxKind::Root,
        SyntaxKind::One,
        SyntaxKind::Conjunction,
        SyntaxKind::Alternate,
    ] {
        let raw = kind.into_raw();
        let back = SyntaxKind::from_raw(raw);
        assert_eq!(kind, back);
    }
}

#[test]
fn syntax_kind_raw_numbers_and_static_text() {
    assert_eq!(SyntaxKind::Char.into_raw(), 0);
    assert_eq!(SyntaxKind::Root.into_raw(), 30);
    assert_eq!(SyntaxKind::GroupName.into_raw(), 78);
    assert_eq!(SyntaxKind::from_raw(2), SyntaxKind::Pipe);
    assert_eq!(SyntaxKind::Pipe.static_text(), Some("|"));
    assert_eq!(SyntaxKind::Backslash.static_text(), Some("\\"));
    assert_eq!(SyntaxKind::Comma.static_text(), Some(","));
    assert_eq!(SyntaxKind::Char.static_text(), None);
    assert_eq!(SyntaxKind::Root.static_text(), None);
}
