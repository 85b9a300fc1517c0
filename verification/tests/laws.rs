use unweave::column_printer::ColumnPrinter;
use unweave::graphemes::grapheme_count_tab_expanded;
use unweave::unweave_columns::{
    unweave_into_columns, unweave_into_columns_single_pass, unweave_into_columns_two_pass_cached,
    unweave_into_columns_two_pass_reread,
};
use unweave::{
    UnweaveError, UnweaveMmap, UnweaveOptionsColumns, UnweaveTab, UnweaveTwoPass, UnweaveWidth,
};

fn options(
    pattern: &str,
    width: UnweaveWidth,
    separator: Option<&str>,
    tab: UnweaveTab,
) -> UnweaveOptionsColumns {
    UnweaveOptionsColumns {
        pattern: pattern.to_string(),
        output: None,
        inputs: Vec::new(),
        mmap: UnweaveMmap::Allow,
        width,
        column_separator: separator.map(|s| s.to_string()),
        two_pass: UnweaveTwoPass::Cached,
        tab,
    }
}

const INPUTS: &[&[&[u8]]] = &[
    &[],
    &[b""],
    &[b"\n\n"],
    &[b"A:1\nB:1\nA:2"],
    &[b"A:1\r\nB:1\r\nA:2\r\n"],
    &[b"B a line that is wrapped\nA\nC\tx\ty\nB\nD:\x01\x02\x03\x04\x05\x06\n"],
    &[b"A first\nB", b"", b"C third\nA again\n"],
    &[b"A \xce\xb1\xce\x79\nB \xff\xfe\xfd\xfc\xfb\xfa\nA \xf0\x9f\x87"],
    &["A άλφα-ένα\nB e\u{301}e\u{301}e\u{301}e\u{301}e\u{301}e\u{301}\nΓ\nA 🇷🇺🇸🇹🇷🇺🇸🇹🇷🇺🇸🇹".as_bytes()],
];

#[test]
fn one_pass_and_two_passes_agree() {
    let widths = [1, 2, 5, 8, 100];
    let tabs = [UnweaveTab::NoExpand, UnweaveTab::Expand(1), UnweaveTab::Expand(8)];
    for inputs in INPUTS {
        for w in widths {
            for tab in tabs {
                let opts = options("^[A-D]", UnweaveWidth::Column(w), None, tab);
                let single = unweave_into_columns_single_pass(&opts, inputs).unwrap();
                assert_eq!(unweave_into_columns_two_pass_cached(&opts, inputs).unwrap(), single);
                assert_eq!(unweave_into_columns_two_pass_reread(&opts, inputs).unwrap(), single);
                assert_eq!(unweave_into_columns(&opts, inputs).unwrap(), single);
            }
        }
    }
}

#[test]
fn two_passes_agree_in_every_mode() {
    let modes = [
        UnweaveWidth::Undefined,
        UnweaveWidth::Column(3),
        UnweaveWidth::Line(10),
        UnweaveWidth::Line(2),
    ];
    for inputs in INPUTS {
        for mode in modes {
            for separator in [None, Some(""), Some("|"), Some(" # "), Some("\t")] {
                let opts = options("^[A-D]", mode, separator, UnweaveTab::Expand(4));
                let cached = unweave_into_columns_two_pass_cached(&opts, inputs).unwrap();
                assert_eq!(unweave_into_columns_two_pass_reread(&opts, inputs).unwrap(), cached);
                assert!(cached.is_empty() || cached.ends_with(b"\n"));
            }
        }
    }
}

#[test]
fn strategy_is_chosen_by_the_options() {
    let inputs: &[&[u8]] = &[b"A:1\nB:1\nA:2"];
    for two_pass in [UnweaveTwoPass::Cached, UnweaveTwoPass::Reread] {
        let mut opts = options("A|B", UnweaveWidth::Column(5), None, UnweaveTab::Expand(8));
        opts.two_pass = two_pass;
        assert_eq!(unweave_into_columns(&opts, inputs).unwrap(), b"A:1\n     B:1\nA:2\n");
        opts.column_separator = Some("|".to_string());
        assert_eq!(unweave_into_columns(&opts, inputs).unwrap(), b"A:1  |\n     |B:1\nA:2  |\n");
    }
}

#[test]
fn single_pass_renders_with_what_it_knows() {
    // With a separator a single pass does not know of the columns to come.
    let inputs: &[&[u8]] = &[b"A:1\nB:1\nA:2"];
    let opts = options("A|B", UnweaveWidth::Column(5), Some("|"), UnweaveTab::Expand(8));
    assert_eq!(
        unweave_into_columns_single_pass(&opts, inputs).unwrap(),
        b"A:1\n     |B:1\nA:2  |\n"
    );
    // Without a given width it renders with the widths of the last new column.
    let opts = options("A|B", UnweaveWidth::Undefined, None, UnweaveTab::Expand(8));
    assert_eq!(
        unweave_into_columns_single_pass(&opts, &[b"A:1\nB:1\nA:22\nB:2"]).unwrap(),
        b"A:1\n   B:1\nA:2\n2\n   B:2\n"
    );
}

#[test]
fn three_lines_in_two_columns() {
    let opts = options("A|B", UnweaveWidth::Column(5), None, UnweaveTab::Expand(8));
    assert_eq!(
        unweave_into_columns(&opts, &[b"A:1\nB:1\nA:2"]).unwrap(),
        b"A:1\n     B:1\nA:2\n"
    );
}

#[test]
fn every_row_has_a_slot_for_every_column() {
    let opts = options("A|B|C", UnweaveWidth::Column(5), Some("|"), UnweaveTab::Expand(8));
    let out = unweave_into_columns(&opts, &[b"A:1\nB:1\nA:2\nC:1"]).unwrap();
    assert_eq!(out, b"A:1  |     |\n     |B:1  |\nA:2  |     |\n     |     |C:1\n");
    for row in out.split(|b| *b == b'\n').filter(|r| !r.is_empty()) {
        let slots: Vec<&[u8]> = row.split(|b| *b == b'|').collect();
        assert_eq!(slots.len(), 3);
        assert!(slots[..2].iter().all(|s| s.len() == 5));
    }
}

#[test]
fn wide_line_takes_as_many_rows_as_it_needs() {
    let opts = options("^A|^B", UnweaveWidth::Column(5), Some("|"), UnweaveTab::Expand(8));
    let line = b"B 23456789012";
    let out = unweave_into_columns(&opts, &[b"A\n", line]).unwrap();
    assert_eq!(out, b"A    |\n     |B 234\n     |56789\n     |012\n");
    let rows: Vec<&[u8]> = out.split(|b| *b == b'\n').filter(|r| !r.is_empty()).collect();
    assert_eq!(rows.len() - 1, (line.len() + 4) / 5);
    let content: Vec<u8> = rows[1..].iter().flat_map(|r| r[6..].iter().copied()).collect();
    assert_eq!(content, line);
}

fn printer(tab: UnweaveTab, widths: &[u32]) -> ColumnPrinter {
    let mut printer = ColumnPrinter::new(&options("", UnweaveWidth::Undefined, None, tab));
    printer.set_column_widths(widths);
    printer
}

const SAMPLES: &[&[u8]] = &[
    b"",
    b"a",
    b"plain ascii text",
    b"tabs\tin\tthe\tline\t",
    b"\x01\x02 control \x7f bytes \x1b[0m",
    b"\xce\xb1\xce\x79 broken \xff\xfe text \xf0\x9f",
    "άλφα βήτα γάμμα δέλτα".as_bytes(),
    "e\u{301}e\u{301} 🇷🇺🇸🇹 a\r\nb 日本語\tテキスト".as_bytes(),
];

#[test]
fn wrapping_loses_and_adds_nothing() {
    for tab in [UnweaveTab::NoExpand, UnweaveTab::Expand(4)] {
        for width in [0, 1, 2, 3, 7, 1000] {
            let p = printer(tab, &[width]);
            for line in SAMPLES {
                let mut expanded = Vec::new();
                grapheme_count_tab_expanded(line, tab, Some(&mut expanded));
                let mut out = Vec::new();
                p.print_in_column(line, 0, None, &mut out);
                // In the first column, with nothing behind it, a row is its content.
                assert_eq!(out.last(), Some(&b'\n'));
                let mut content = Vec::new();
                let mut rest = &expanded[..];
                for row in out[..out.len() - 1].split(|b| *b == b'\n') {
                    content.extend_from_slice(row);
                    if rest.starts_with(row) {
                        rest = &rest[row.len()..];
                    }
                }
                if !expanded.contains(&b'\n') {
                    assert_eq!(content, expanded);
                }
                // Row by row the output walks through the line.
                assert!(rest.is_empty() || expanded.contains(&b'\n'));
            }
        }
    }
}

#[test]
fn line_that_fits_comes_out_as_it_is() {
    for tab in [UnweaveTab::NoExpand, UnweaveTab::Expand(4)] {
        for line in SAMPLES {
            let mut expanded = Vec::new();
            let width = grapheme_count_tab_expanded(line, tab, Some(&mut expanded));
            for known in [None, Some(width)] {
                let p = printer(tab, &[3, width, 2]);
                let mut out = Vec::new();
                p.print_in_column(line, 1, known, &mut out);
                let mut expected = b"   ".to_vec();
                expected.extend_from_slice(&expanded);
                expected.push(b'\n');
                assert_eq!(out, expected);
            }
        }
    }
}

#[test]
fn pattern_decides_whether_there_is_a_run() {
    let opts = options("(", UnweaveWidth::Undefined, None, UnweaveTab::Expand(8));
    for run in [
        unweave_into_columns,
        unweave_into_columns_single_pass,
        unweave_into_columns_two_pass_cached,
        unweave_into_columns_two_pass_reread,
    ] {
        assert!(matches!(run(&opts, &[b"a"]), Err(UnweaveError::InvalidPattern(_))));
    }
}

#[test]
fn nothing_in_nothing_out() {
    for mode in [UnweaveWidth::Undefined, UnweaveWidth::Column(3), UnweaveWidth::Line(9)] {
        let opts = options("A", mode, Some("|"), UnweaveTab::Expand(8));
        assert!(unweave_into_columns(&opts, &[]).unwrap().is_empty());
        assert!(unweave_into_columns(&opts, &[b"", b""]).unwrap().is_empty());
        assert!(unweave_into_columns(&opts, &[b"no\ntag\nhere\n"]).unwrap().is_empty());
    }
}
