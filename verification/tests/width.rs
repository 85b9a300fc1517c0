use unweave::graphemes::grapheme_count_tab_expanded;
use unweave::UnweaveTab;

#[test]
fn expand_tabs_ascii() {
    let mut out = Vec::new();
    let ngraphemes = grapheme_count_tab_expanded(
        b"ab\tcdefghijk\tl\t",
        UnweaveTab::Expand(8),
        Some(&mut out),
    );

    let expected = b"ab      cdefghijk       l       ";
    assert!(ngraphemes == expected.len() as u32);
    assert!(out == expected);
}

#[test]
fn expand_tabs_unicode() {
    let mut out = Vec::new();
    let ngraphemes = grapheme_count_tab_expanded(
        "αβ\tγδεζηθικλ\tμ\t".as_bytes(),
        UnweaveTab::Expand(8),
        Some(&mut out),
    );

    let expected = "αβ      γδεζηθικλ       μ       ";
    assert!(ngraphemes == expected.chars().count() as u32);
    assert!(out == expected.as_bytes());
}
