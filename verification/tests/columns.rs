use unweave::unweave_columns::{
    unweave_into_columns, unweave_into_columns_single_pass, unweave_into_columns_two_pass_cached,
    unweave_into_columns_two_pass_reread,
};
use unweave::{UnweaveMmap, UnweaveOptionsColumns, UnweaveTab, UnweaveTwoPass, UnweaveWidth};

const TWO_PASS: &[UnweaveTwoPass] = &[UnweaveTwoPass::Cached, UnweaveTwoPass::Reread];

fn options(
    pattern: &str,
    width: UnweaveWidth,
    separator: Option<&str>,
    two_pass: UnweaveTwoPass,
    tab: UnweaveTab,
) -> UnweaveOptionsColumns {
    UnweaveOptionsColumns {
        pattern: pattern.to_string(),
        output: None,
        inputs: Vec::new(),
        mmap: UnweaveMmap::Allow,
        width,
        column_separator: separator.map(|s| s.to_string()),
        two_pass,
        tab,
    }
}

/// Runs the options on the inputs in every way that the library offers and
/// holds each output against `expected`.
fn check(
    pattern: &str,
    width: UnweaveWidth,
    separator: Option<&str>,
    tab: UnweaveTab,
    inputs: &[&[u8]],
    expected: &[u8],
) {
    for two_pass in TWO_PASS {
        let opts = options(pattern, width, separator, *two_pass, tab);
        assert_eq!(unweave_into_columns(&opts, inputs).unwrap(), expected);
    }
    let opts = options(pattern, width, separator, UnweaveTwoPass::Cached, tab);
    assert_eq!(unweave_into_columns_two_pass_cached(&opts, inputs).unwrap(), expected);
    assert_eq!(unweave_into_columns_two_pass_reread(&opts, inputs).unwrap(), expected);
    if separator.is_none() && opts.width.is_column() {
        assert_eq!(unweave_into_columns_single_pass(&opts, inputs).unwrap(), expected);
    }
}

#[test]
fn unweave_columns_simple_pattern() {
    check(
        "A|B|C",
        UnweaveWidth::Column(5),
        None,
        UnweaveTab::Expand(8),
        &[b"A:1\nB:1\nA:2\nZ:1\nC:1\nB:2\nC:2"],
        [
            "A:1\n",
            "     B:1\n",
            "A:2\n",
            "          C:1\n",
            "     B:2\n",
            "          C:2\n"
        ].concat()
        .as_bytes(),
    );
}

#[test]
fn unweave_columns_separator() {
    check(
        "A|B|C",
        UnweaveWidth::Column(5),
        Some("|"),
        UnweaveTab::Expand(8),
        &[b"A:1\nB:1\nA:2\nZ:1\nC:1\nB:2\nC:2"],
        [
            "A:1  |     |\n",
            "     |B:1  |\n",
            "A:2  |     |\n",
            "     |     |C:1\n",
            "     |B:2  |\n",
            "     |     |C:2\n"
        ].concat()
        .as_bytes(),
    );
}

#[test]
fn unweave_columns_auto_width() {
    check(
        "A|B|C",
        UnweaveWidth::Undefined,
        Some("|"),
        UnweaveTab::Expand(8),
        &[b"A:11\nB:1111\nA:2\nZ:1\nC:1\nB:2\nC:222"],
        [
            "A:11|      |\n",
            "    |B:1111|\n",
            "A:2 |      |\n",
            "    |      |C:1\n",
            "    |B:2   |\n",
            "    |      |C:222\n"
        ].concat()
        .as_bytes(),
    );
}

#[test]
fn unweave_columns_line_width() {
    check(
        "A|B|C",
        UnweaveWidth::Line(15),
        Some("|"),
        UnweaveTab::Expand(8),
        &[b"A:11\nB:111\nA:2\nZ:1\nC:1\nB:2\nC:222"],
        [
            "A:11 |     |\n",
            "     |B:111|\n",
            "A:2  |     |\n",
            "     |     |C:1\n",
            "     |B:2  |\n",
            "     |     |C:222\n"
        ].concat()
        .as_bytes(),
    );
}

#[test]
fn unweave_columns_complex_regex() {
    check(
        r"[1-6](A|B|C)(?:A|B|C)",
        UnweaveWidth::Undefined,
        None,
        UnweaveTab::Expand(8),
        &[b"1ACx\n2BAy\n3AC\nZAC\n4CBz\n5BAz\n6CCy"],
        [
            "1ACx\n",
            "    2BAy\n",
            "3AC\n",
            "        4CBz\n",
            "    5BAz\n",
            "        6CCy\n"
        ].concat()
        .as_bytes(),
    );
}

#[test]
fn unweave_columns_multiple_unicode() {
    check(
        "άλφα|βήτα|γάμμα",
        UnweaveWidth::Undefined,
        None,
        UnweaveTab::Expand(8),
        &[
            "άλφα1\nβήτα1\nδέλτα1\nβήτα2\nγάμμα1\n".as_bytes(),
            "γάμμα2\nάλφα2\n".as_bytes(),
        ],
        [
            "άλφα1\n",
            "     βήτα1\n",
            "     βήτα2\n",
            "          γάμμα1\n",
            "          γάμμα2\n",
            "άλφα2\n"
        ].concat()
        .as_bytes(),
    );
}

#[test]
fn unweave_columns_wrapping() {
    check(
        "άλφα|βήτα|γάμμα",
        UnweaveWidth::Column(5),
        None,
        UnweaveTab::Expand(8),
        &["άλφα-1\nβήτα1\nδέλτα1\nβήτα-22\nγάμμα1\n".as_bytes()],
        [
            "άλφα-\n",
            "1\n",
            "     βήτα1\n",
            "     βήτα-\n",
            "     22\n",
            "          γάμμα\n",
            "          1\n"
        ].concat()
        .as_bytes(),
    );
}

#[test]
fn unweave_columns_wrapping_with_separator() {
    check(
        "άλφα|βήτα|γάμμα",
        UnweaveWidth::Column(5),
        Some("##"),
        UnweaveTab::Expand(8),
        &["άλφα-1\nβήτα1\nδέλτα1\nβήτα-1234567\nγάμμα1\n".as_bytes()],
        [
            "άλφα-##     ##\n",
            "1    ##     ##\n",
            "     ##βήτα1##\n",
            "     ##βήτα-##\n",
            "     ##12345##\n",
            "     ##67   ##\n",
            "     ##     ##γάμμα\n",
            "     ##     ##1\n"
        ].concat()
        .as_bytes(),
    );
}

#[test]
fn unweave_columns_unicode_fill() {
    check(
        "α|β|γ",
        UnweaveWidth::Column(5),
        Some("|"),
        UnweaveTab::Expand(8),
        &["α:Α\nβ:ΒΒ\nγ:ΓΓΓ".as_bytes()],
        ["α:Α  |     |\n", "     |β:ΒΒ |\n", "     |     |γ:ΓΓΓ\n"].concat().as_bytes(),
    );
}

#[test]
fn unweave_columns_invalid_unicode_fill() {
    check(
        "α|β",
        UnweaveWidth::Column(5),
        Some("|"),
        UnweaveTab::Expand(8),
        &[b"\xce\xb1\xce\x79\n\xce\xb2"],
        b"\xce\xb1\xce\x79   |\n     |\xce\xb2\n",
    );
}

#[test]
fn unweave_columns_invalid_unicode_wrap() {
    check(
        "α|β",
        UnweaveWidth::Column(1),
        Some("|"),
        UnweaveTab::Expand(8),
        &[b"\xce\xb1\xce\x79\n\xce\xb2"],
        b"\xce\xb1|\n\xce\x79|\n |\xce\xb2\n",
    );
}

#[test]
fn unweave_columns_invalid_unicode_not_printable_wrap() {
    check(
        "α|β",
        UnweaveWidth::Column(5),
        Some("|"),
        UnweaveTab::Expand(8),
        &[b"\xce\xb1\xce\x13\n\xce\xb2"],
        b"\xce\xb1\xce\x13    |\n     |\xce\xb2\n",
    );
}

#[test]
fn unweave_columns_invalid_unicode_end_of_line_fill() {
    check(
        "α|β",
        UnweaveWidth::Column(5),
        Some("|"),
        UnweaveTab::Expand(8),
        &[b"\xce\xb1\xce\n\xce\xb2"],
        b"\xce\xb1\xce    |\n     |\xce\xb2\n",
    );
}

#[test]
fn unweave_columns_invalid_unicode_end_of_line_wrap() {
    check(
        "α|β",
        UnweaveWidth::Column(1),
        Some("|"),
        UnweaveTab::Expand(8),
        &[b"\xce\xb1\xce\n\xce\xb2"],
        b"\xce\xb1\xce|\n |\xce\xb2\n",
    );
}

#[test]
fn unweave_columns_tab_fill() {
    check(
        "b|d",
        UnweaveWidth::Column(10),
        Some("|"),
        UnweaveTab::Expand(8),
        &["αb\tc\nd".as_bytes()],
        "αb      c |\n          |d\n".as_bytes(),
    );
}

#[test]
fn unweave_columns_tab_wrap() {
    check(
        "b|d",
        UnweaveWidth::Column(5),
        Some("|"),
        UnweaveTab::Expand(8),
        &["αb\tc\nd".as_bytes()],
        "αb   |\n   c |\n     |d\n".as_bytes(),
    );
}

#[test]
fn unweave_columns_tab_no_expand() {
    check(
        "b|d",
        UnweaveWidth::Column(5),
        Some("|"),
        UnweaveTab::NoExpand,
        &["αb\tc\nd".as_bytes()],
        "αb\tc  |\n     |d\n".as_bytes(),
    );
}
