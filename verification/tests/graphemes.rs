use unweave::graphemes::{
    ascii_grapheme_count, cell_grapheme_count, checked_grapheme_count, grapheme_breaks,
    grapheme_count_tab_expanded, push_spaces, str_grapheme_count,
};
use unweave::UnweaveTab;

fn measure(line: &[u8], tab: UnweaveTab) -> (u32, Vec<u8>) {
    let mut out = Vec::new();
    let width = grapheme_count_tab_expanded(line, tab, Some(&mut out));
    assert_eq!(grapheme_count_tab_expanded(line, tab, None), width);
    assert_eq!(checked_grapheme_count(line, tab), Some(width));
    (width, out)
}

#[test]
fn byte_widths() {
    assert_eq!(ascii_grapheme_count(0x00), 0);
    assert_eq!(ascii_grapheme_count(b'\t'), 0);
    assert_eq!(ascii_grapheme_count(0x1f), 0);
    assert_eq!(ascii_grapheme_count(b' '), 1);
    assert_eq!(ascii_grapheme_count(b'a'), 1);
    assert_eq!(ascii_grapheme_count(0x7e), 1);
    assert_eq!(ascii_grapheme_count(0x7f), 0);
    assert_eq!(ascii_grapheme_count(0x80), 0);
    assert_eq!(ascii_grapheme_count(0xce), 0);
    assert_eq!(ascii_grapheme_count(0xff), 0);
}

#[test]
fn cluster_widths() {
    assert_eq!(str_grapheme_count("a"), 1);
    assert_eq!(str_grapheme_count("\t"), 0);
    assert_eq!(str_grapheme_count("\u{7f}"), 0);
    assert_eq!(str_grapheme_count("é"), 1);
    assert_eq!(str_grapheme_count("e\u{301}"), 1);
    assert_eq!(str_grapheme_count("\r\n"), 1);
    assert_eq!(cell_grapheme_count(b"a"), 1);
    assert_eq!(cell_grapheme_count(b"\x01"), 0);
    assert_eq!(cell_grapheme_count("日".as_bytes()), 1);
}

#[test]
fn cells_of_ascii() {
    assert_eq!(grapheme_breaks(b""), Vec::<usize>::new());
    assert_eq!(grapheme_breaks(b"abc"), vec![1, 2, 3]);
    // In a line that is ASCII throughout every byte is a cell.
    assert_eq!(grapheme_breaks(b"a\r\nb"), vec![1, 2, 3, 4]);
}

#[test]
fn cells_of_text() {
    assert_eq!(grapheme_breaks("αβ".as_bytes()), vec![2, 4]);
    assert_eq!(grapheme_breaks("e\u{301}x".as_bytes()), vec![3, 4]);
    assert_eq!(grapheme_breaks("α\r\nb".as_bytes()), vec![2, 4, 5]);
    assert_eq!(grapheme_breaks("🇷🇺🇸🇹".as_bytes()), vec![8, 16]);
}

#[test]
fn cells_of_invalid_bytes() {
    // A lead byte without what follows it, inside the line and at its end.
    assert_eq!(grapheme_breaks(b"\xce\xb1\xce\x79"), vec![2, 3, 4]);
    assert_eq!(grapheme_breaks(b"\xce\xb1\xce"), vec![2, 3]);
    assert_eq!(grapheme_breaks(b"\xff\xfe"), vec![1, 2]);
    // Three bytes of a four byte character, then text again.
    assert_eq!(grapheme_breaks(b"\xf0\x9f\x87\xce\xb1z"), vec![1, 2, 3, 5, 6]);
    assert_eq!(grapheme_breaks(b"a\x80\x80b"), vec![1, 2, 3, 4]);
}

#[test]
fn widths() {
    assert_eq!(measure(b"", UnweaveTab::Expand(8)), (0, b"".to_vec()));
    assert_eq!(measure(b"abc", UnweaveTab::NoExpand), (3, b"abc".to_vec()));
    assert_eq!(measure(b"a\x01\x7fb", UnweaveTab::Expand(8)), (2, b"a\x01\x7fb".to_vec()));
    assert_eq!(measure("日本語".as_bytes(), UnweaveTab::Expand(8)).0, 3);
    assert_eq!(measure("e\u{301}e\u{301}".as_bytes(), UnweaveTab::Expand(8)).0, 2);
    // A byte that is no text takes up no cell.
    assert_eq!(measure(b"\xce\xb1\xce\x79", UnweaveTab::Expand(8)).0, 2);
    assert_eq!(measure(b"\xce\xb1\xce\x13", UnweaveTab::Expand(8)).0, 1);
    assert_eq!(measure(b"\xff\xfe", UnweaveTab::Expand(8)).0, 0);
    // A line end within a line is one cell in text, and none in ASCII.
    assert_eq!(measure("α\r\nb".as_bytes(), UnweaveTab::Expand(8)).0, 3);
    assert_eq!(measure(b"a\r\nb", UnweaveTab::Expand(8)).0, 2);
}

#[test]
fn tab_stops() {
    assert_eq!(measure(b"\t", UnweaveTab::Expand(8)), (8, b"        ".to_vec()));
    assert_eq!(measure(b"a\tb", UnweaveTab::Expand(4)), (5, b"a   b".to_vec()));
    assert_eq!(measure(b"abcd\tb", UnweaveTab::Expand(4)), (9, b"abcd    b".to_vec()));
    assert_eq!(measure(b"abc\tb", UnweaveTab::Expand(4)), (5, b"abc b".to_vec()));
    assert_eq!(measure(b"a\tb", UnweaveTab::Expand(1)), (3, b"a b".to_vec()));
    assert_eq!(measure(b"\t\t", UnweaveTab::Expand(3)), (6, b"      ".to_vec()));
    assert_eq!(measure(b"12345678\t", UnweaveTab::Expand(8)).0, 16);
    // What takes up no cell does not move the tab stop.
    assert_eq!(measure(b"\x01\tb", UnweaveTab::Expand(4)), (5, b"\x01    b".to_vec()));
    // What takes up one cell moves it by one, however many bytes it has.
    assert_eq!(measure("日\tb".as_bytes(), UnweaveTab::Expand(4)), (5, "日   b".as_bytes().to_vec()));
    assert_eq!(
        measure(b"\xce\tb", UnweaveTab::Expand(4)),
        (5, b"\xce    b".to_vec())
    );
}

#[test]
fn tabs_left_alone() {
    assert_eq!(measure(b"a\tb", UnweaveTab::NoExpand), (2, b"a\tb".to_vec()));
    assert_eq!(measure("α\tβ".as_bytes(), UnweaveTab::NoExpand), (2, "α\tβ".as_bytes().to_vec()));
}

#[test]
fn expansion_is_appended() {
    let mut out = b"x".to_vec();
    let width = grapheme_count_tab_expanded(b"\ty", UnweaveTab::Expand(2), Some(&mut out));
    assert_eq!(width, 3);
    assert_eq!(out, b"x  y");
}

#[test]
fn spaces() {
    let mut out = b"ab".to_vec();
    push_spaces(&mut out, 0);
    assert_eq!(out, b"ab");
    push_spaces(&mut out, 3);
    assert_eq!(out, b"ab   ");
}

#[test]
fn width_that_cannot_be_counted() {
    // Two tabs with a stop every 2^32 - 1 cells lead past what 32 bits hold.
    let tab = UnweaveTab::Expand(u32::MAX);
    assert_eq!(checked_grapheme_count(b"\t", tab), Some(u32::MAX));
    assert_eq!(checked_grapheme_count(b"\ta", tab), None);
    assert_eq!(checked_grapheme_count(b"a\t\t", tab), None);
    // A wide tab stop is no hindrance for a line without a tab.
    assert_eq!(checked_grapheme_count(&[b'a'; 5000], UnweaveTab::Expand(1_000_000)), Some(5000));
}
