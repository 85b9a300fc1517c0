use unweave::lines::{line_spans, trim_newline, SliceFullLines};

fn full_lines(buf: &[u8]) -> Vec<&[u8]> {
    let mut lines = SliceFullLines::new(buf);
    let mut found = Vec::new();
    while let Some(line) = lines.next() {
        found.push(line);
    }
    assert!(lines.next().is_none());
    found
}

#[test]
fn full_lines_keep_their_end() {
    assert_eq!(
        full_lines(b"a\nb\r\n\nc"),
        vec![&b"a\n"[..], &b"b\r\n"[..], &b"\n"[..], &b"c"[..]]
    );
    assert_eq!(full_lines(b"a\n"), vec![&b"a\n"[..]]);
    assert_eq!(full_lines(b"a"), vec![&b"a"[..]]);
    assert_eq!(full_lines(b"\n\n"), vec![&b"\n"[..], &b"\n"[..]]);
    assert!(full_lines(b"").is_empty());
}

#[test]
fn line_ends_are_trimmed() {
    assert_eq!(trim_newline(b"a\r\n"), b"a");
    assert_eq!(trim_newline(b"a\n"), b"a");
    assert_eq!(trim_newline(b"a\r"), b"a");
    assert_eq!(trim_newline(b"a"), b"a");
    assert_eq!(trim_newline(b"a\r\r\n"), b"a\r");
    assert_eq!(trim_newline(b"a\n\n"), b"a\n");
    assert_eq!(trim_newline(b"a\n\r"), b"a\n");
    assert_eq!(trim_newline(b"\r\n"), b"");
    assert_eq!(trim_newline(b"\n"), b"");
    assert_eq!(trim_newline(b"\r"), b"");
    assert_eq!(trim_newline(b""), b"");
    assert_eq!(trim_newline(b"a b \n"), b"a b ");
}

#[test]
fn lines_of_all_inputs() {
    let inputs: [&[u8]; 4] = [b"a\nbc\r\n", b"", b"d", b"\n\nlast"];
    let spans = line_spans(&inputs);
    let found: Vec<(usize, &[u8])> = spans
        .iter()
        .map(|s| (s.input, &inputs[s.input][s.start..s.end]))
        .collect();
    assert_eq!(
        found,
        vec![
            (0, &b"a"[..]),
            (0, &b"bc"[..]),
            (2, &b"d"[..]),
            (3, &b""[..]),
            (3, &b""[..]),
            (3, &b"last"[..]),
        ]
    );
    assert_eq!((spans[1].start, spans[1].end), (2, 4));
    assert!(line_spans(&[]).is_empty());
}
