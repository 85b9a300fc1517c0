use unweave::column_printer::ColumnPrinter;
use unweave::column_tracker::ColumnTracker;
use unweave::{UnweaveMmap, UnweaveOptionsColumns, UnweaveTab, UnweaveTwoPass, UnweaveWidth};

fn options(width: UnweaveWidth) -> UnweaveOptionsColumns {
    UnweaveOptionsColumns {
        pattern: "^(.):".to_string(),
        output: None,
        inputs: Vec::new(),
        mmap: UnweaveMmap::Allow,
        width,
        column_separator: Some("|".to_string()),
        two_pass: UnweaveTwoPass::Cached,
        tab: UnweaveTab::Expand(8),
    }
}

const LINES: &[&[u8]] = &[b"A:11", b"B:1111", b"no tag", b"A:2", b"C:\t1", b"B:2", b"A:333"];

#[test]
fn columns_in_order_of_first_appearance() {
    let mut tracker = ColumnTracker::new(&options(UnweaveWidth::Undefined)).unwrap();
    let placed: Vec<_> = LINES.iter().map(|l| tracker.process_line(l)).collect();
    assert_eq!(
        placed,
        vec![
            Some((0, Some(4))),
            Some((1, Some(6))),
            None,
            Some((0, Some(3))),
            Some((2, Some(9))),
            Some((1, Some(3))),
            Some((0, Some(5))),
        ]
    );
}

#[test]
fn columns_whatever_the_width_mode() {
    let modes = [UnweaveWidth::Undefined, UnweaveWidth::Column(3), UnweaveWidth::Line(20)];
    for mode in modes {
        let mut tracker = ColumnTracker::new(&options(mode)).unwrap();
        let columns: Vec<_> =
            LINES.iter().map(|l| tracker.process_line(l).map(|(column, _)| column)).collect();
        assert_eq!(columns, vec![Some(0), Some(1), None, Some(0), Some(2), Some(1), Some(0)]);
    }
}

#[test]
fn width_is_measured_only_where_none_is_given() {
    let mut tracker = ColumnTracker::new(&options(UnweaveWidth::Column(3))).unwrap();
    assert_eq!(tracker.process_line(b"A:11"), Some((0, None)));
    let mut tracker = ColumnTracker::new(&options(UnweaveWidth::Line(3))).unwrap();
    assert_eq!(tracker.process_line(b"A:11"), Some((0, None)));
    let mut tracker = ColumnTracker::new(&options(UnweaveWidth::Undefined)).unwrap();
    assert_eq!(tracker.process_line(b"A:"), Some((0, Some(2))));
    assert_eq!(tracker.process_line(b"\x01:"), Some((1, Some(1))));
}

fn final_widths(width: UnweaveWidth, lines: &[&[u8]]) -> Vec<u32> {
    let mut tracker = ColumnTracker::new(&options(width)).unwrap();
    for line in lines {
        tracker.process_line(line);
    }
    tracker.final_column_widths().to_vec()
}

#[test]
fn widest_line_decides_where_no_width_is_given() {
    assert_eq!(final_widths(UnweaveWidth::Undefined, LINES), vec![5, 6, 9]);
    assert_eq!(final_widths(UnweaveWidth::Undefined, &[]), Vec::<u32>::new());
    assert_eq!(final_widths(UnweaveWidth::Undefined, &[b"x"]), Vec::<u32>::new());
}

#[test]
fn given_column_width_stays() {
    assert_eq!(final_widths(UnweaveWidth::Column(3), LINES), vec![3, 3, 3]);
}

#[test]
fn line_width_is_divided_evenly() {
    assert_eq!(final_widths(UnweaveWidth::Line(20), LINES), vec![6, 6, 6]);
    assert_eq!(final_widths(UnweaveWidth::Line(15), LINES), vec![5, 5, 5]);
    assert_eq!(final_widths(UnweaveWidth::Line(2), LINES), vec![0, 0, 0]);
    assert_eq!(final_widths(UnweaveWidth::Line(7), &[b"A:1"]), vec![7]);
    assert_eq!(final_widths(UnweaveWidth::Line(7), &[]), Vec::<u32>::new());
}

#[test]
fn settled_widths_stay_settled() {
    let mut tracker = ColumnTracker::new(&options(UnweaveWidth::Line(20))).unwrap();
    for line in LINES {
        tracker.process_line(line);
    }
    assert_eq!(tracker.final_column_widths(), &[6, 6, 6]);
    // Classifying the lines once more finds the same columns and changes no width.
    let columns: Vec<_> =
        LINES.iter().map(|l| tracker.process_line(l).map(|(column, _)| column)).collect();
    assert_eq!(columns, vec![Some(0), Some(1), None, Some(0), Some(2), Some(1), Some(0)]);
    assert_eq!(tracker.final_column_widths(), &[6, 6, 6]);
}

#[test]
fn printer_learns_of_new_columns() {
    let opts = options(UnweaveWidth::Column(2));
    let mut tracker = ColumnTracker::new(&opts).unwrap();
    let mut printer = ColumnPrinter::new(&opts);
    let mut out = Vec::new();
    for line in [&b"A:"[..], b"B:", b"A:"] {
        let (column, width) =
            tracker.process_line_with_column_printer(line, Some(&mut printer)).unwrap();
        printer.print_in_column(line, column, width, &mut out);
    }
    // The first line was rendered when there was one column only.
    assert_eq!(out, b"A:\n  |B:\nA:|\n");
}

#[test]
fn line_wider_than_can_be_counted() {
    // Two tabs with a stop every 2^32 - 1 cells lead past what 32 bits hold:
    // the line has its column all the same, as wide as a column can be.
    let mut opts = options(UnweaveWidth::Undefined);
    opts.tab = UnweaveTab::Expand(u32::MAX);
    let mut tracker = ColumnTracker::new(&opts).unwrap();
    assert_eq!(tracker.process_line(b"A:"), Some((0, Some(2))));
    assert_eq!(tracker.process_line(b"B:\t\t"), Some((1, None)));
    assert_eq!(tracker.process_line(b"A:\t"), Some((0, Some(u32::MAX))));
    assert_eq!(tracker.final_column_widths(), &[u32::MAX, u32::MAX]);
}
