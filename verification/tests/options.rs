use unweave::options::{
    asks_for_reread, check_two_pass_reread, input_names, parse_options, parse_u32,
    read_arguments, resolve_options, CommandLine, ParsedArguments,
};
use unweave::{UnweaveError, UnweaveMmap, UnweaveOptions, UnweaveTab, UnweaveTwoPass, UnweaveWidth};

#[test]
fn options_require_pattern() {
    let opts = parse_options(&["--mode=columns"]);
    assert!(opts.is_err());
    let opts = parse_options(&["--mode=columns", ""]);
    assert!(opts.is_err());
    let opts = parse_options(&["--mode=columns", "bla"]);
    assert!(opts.is_ok());
}

#[test]
fn options_require_output_for_files() {
    let opts = parse_options(&["--mode=files", "bla"]);
    assert!(opts.is_err());
}

#[test]
fn options_for_files_do_not_accept_width() {
    let opts = parse_options(&["--mode=files", "--column-width=10", "bla"]);
    assert!(opts.is_err());
    let opts = parse_options(&["--mode=files", "--line-width=10", "bla"]);
    assert!(opts.is_err());
}

#[test]
fn options_do_not_accept_both_column_and_line_width() {
    let opts = parse_options(&["--mode=files", "--column-width=10", "--line-width=10", "bla"]);
    assert!(opts.is_err());
}

#[test]
fn options_processed_for_columns() {
    let opts = parse_options(&[
        "--mode=columns",
        "--column-width=10",
        "--output=output1",
        "--tab-width=3",
        "bla",
        "input1",
        "input2",
    ])
    .unwrap();
    let opts = if let UnweaveOptions::Columns(o) = opts { o } else { panic!("") };
    assert!(opts.pattern == "bla");
    assert!(opts.output == Some("output1".to_string()));
    assert!(opts.width == UnweaveWidth::Column(10));
    assert!(opts.inputs == ["input1".to_string(), "input2".to_string()]);
    assert!(opts.mmap == UnweaveMmap::Allow);
    assert!(opts.tab == UnweaveTab::Expand(3));
}

#[test]
fn options_processed_for_files() {
    let opts =
        parse_options(&["--mode=files", "--output=output1", "bla", "input1", "input2"]).unwrap();
    let opts = if let UnweaveOptions::Files(o) = opts { o } else { panic!("") };
    assert!(opts.pattern == "bla");
    assert!(opts.output == Some("output1".to_string()));
    assert!(opts.inputs == ["input1".to_string(), "input2".to_string()]);
    assert!(opts.mmap == UnweaveMmap::Allow);
}

#[test]
fn options_input_from_stdin_adds_dev_stdin() {
    let opts = parse_options(&["--mode=files", "--output=output1", "bla"]).unwrap();
    let opts = if let UnweaveOptions::Files(o) = opts { o } else { panic!("") };
    assert!(opts.pattern == "bla");
    assert!(opts.output == Some("output1".to_string()));
    assert!(opts.inputs == ["/dev/stdin".to_string()]);
}

#[test]
fn options_no_mmap() {
    let opts = parse_options(&["--no-mmap", "bla"]).unwrap();
    let opts = if let UnweaveOptions::Columns(o) = opts { o } else { panic!("") };
    assert!(opts.mmap == UnweaveMmap::Disallow);
}

#[test]
fn options_short() {
    let opts =
        parse_options(&["-m", "columns", "-c", "10", "-o", "output1", "-t", "7", "-n", "bla"])
            .unwrap();
    let opts = if let UnweaveOptions::Columns(o) = opts { o } else { panic!("") };
    assert!(opts.pattern == "bla");
    assert!(opts.output == Some("output1".to_string()));
    assert!(opts.width == UnweaveWidth::Column(10));
    assert!(opts.inputs == ["/dev/stdin".to_string()]);
    assert!(opts.mmap == UnweaveMmap::Disallow);
    assert!(opts.tab == UnweaveTab::Expand(7));
}

#[test]
fn options_tab_noexpand() {
    let opts = parse_options(&["--tab-width=noexpand", "bla"]).unwrap();
    let opts = if let UnweaveOptions::Columns(o) = opts { o } else { panic!("") };
    assert!(opts.tab == UnweaveTab::NoExpand);
}

fn columns(args: &[&str]) -> unweave::UnweaveOptionsColumns {
    match parse_options(args) {
        Ok(UnweaveOptions::Columns(o)) => o,
        _ => panic!("no run into columns"),
    }
}

#[test]
fn options_defaults() {
    let opts = columns(&["bla"]);
    assert!(opts.output == None);
    assert!(opts.width == UnweaveWidth::Undefined);
    assert!(opts.column_separator == None);
    assert!(opts.two_pass == UnweaveTwoPass::Cached);
    assert!(opts.tab == UnweaveTab::Expand(8));
    assert!(opts.mmap == UnweaveMmap::Allow);
    assert!(opts.inputs == ["/dev/stdin".to_string()]);
}

#[test]
fn options_dash_is_standard_input() {
    let opts = columns(&["bla", "a", "-", "b"]);
    assert!(opts.inputs == ["a".to_string(), "/dev/stdin".to_string(), "b".to_string()]);
}

#[test]
fn options_width_and_separator() {
    let opts = columns(&["-l", "80", "-s", " | ", "--two-pass=reread", "bla"]);
    assert!(opts.width == UnweaveWidth::Line(80));
    assert!(opts.column_separator == Some(" | ".to_string()));
    assert!(opts.two_pass == UnweaveTwoPass::Reread);
    let opts = columns(&["--two-pass", "cached", "-c", "+5", "bla"]);
    assert!(opts.two_pass == UnweaveTwoPass::Cached);
    assert!(opts.width == UnweaveWidth::Column(5));
}

#[test]
fn options_faults() {
    assert!(matches!(parse_options(&[]), Err(UnweaveError::MissingOption("pattern"))));
    assert!(matches!(
        parse_options(&[""]),
        Err(UnweaveError::InvalidOptionValue("pattern", v)) if v.is_empty()
    ));
    assert!(matches!(
        parse_options(&["-m", "rows", "bla"]),
        Err(UnweaveError::InvalidOptionValue("mode", v)) if v == "rows"
    ));
    assert!(matches!(
        parse_options(&["-m", "files", "bla"]),
        Err(UnweaveError::MissingOption("output"))
    ));
    assert!(matches!(
        parse_options(&["-m", "files", "-o", "x", "-l", "3", "-c", "4", "bla"]),
        Err(UnweaveError::InvalidOption("line-width"))
    ));
    assert!(matches!(
        parse_options(&["-m", "files", "-o", "x", "-c", "4", "bla"]),
        Err(UnweaveError::InvalidOption("column-width"))
    ));
    assert!(matches!(
        parse_options(&["-m", "files", "-o", "x", "--two-pass=cached", "bla"]),
        Err(UnweaveError::InvalidOption("two-pass"))
    ));
    assert!(matches!(
        parse_options(&["-m", "files", "-o", "x", "-t", "4", "bla"]),
        Err(UnweaveError::InvalidOption("tab-width"))
    ));
    assert!(matches!(
        parse_options(&["-l", "3", "-c", "4", "bla"]),
        Err(UnweaveError::LineAndColumnWidth)
    ));
    assert!(matches!(
        parse_options(&["-l", "0", "bla"]),
        Err(UnweaveError::InvalidOptionValue("line-width", v)) if v == "0"
    ));
    assert!(matches!(
        parse_options(&["-c", "wide", "bla"]),
        Err(UnweaveError::InvalidOptionValue("column-width", v)) if v == "wide"
    ));
    assert!(matches!(
        parse_options(&["-c", "4294967296", "bla"]),
        Err(UnweaveError::InvalidOptionValue("column-width", _))
    ));
    assert!(matches!(
        parse_options(&["--two-pass=twice", "bla"]),
        Err(UnweaveError::InvalidOptionValue("two-pass", v)) if v == "twice"
    ));
    assert!(matches!(
        parse_options(&["-t", "0", "bla"]),
        Err(UnweaveError::InvalidOptionValue("tab-width", v)) if v == "0"
    ));
    assert!(matches!(
        parse_options(&["-t", "none", "bla"]),
        Err(UnweaveError::InvalidOptionValue("tab-width", v)) if v == "none"
    ));
    assert!(matches!(parse_options(&["--nonsense", "bla"]), Err(UnweaveError::ParsingFailure(_))));
    assert!(matches!(parse_options(&["-c"]), Err(UnweaveError::ParsingFailure(_))));
    assert!(matches!(
        parse_options(&["-c", "1", "-c", "2", "bla"]),
        Err(UnweaveError::ParsingFailure(_))
    ));
}

#[test]
fn options_help_and_version() {
    match parse_options(&["--help"]) {
        Ok(UnweaveOptions::Help(text)) => {
            assert!(text.starts_with("Usage: unweave [OPTION...] PATTERN [FILE..]\n"));
            assert!(text.contains("--column-width COLUMN-WIDTH"));
            assert!(text.contains("-h, --help"));
        }
        _ => panic!("no help"),
    }
    assert!(matches!(parse_options(&["-h", "-c", "x"]), Ok(UnweaveOptions::Help(_))));
    assert!(matches!(parse_options(&["--version"]), Ok(UnweaveOptions::Version)));
    // The version is asked for before anything is looked at.
    assert!(matches!(parse_options(&["--version", "-c", "x"]), Ok(UnweaveOptions::Version)));
}

#[test]
fn resolve_from_plain_values() {
    let line = CommandLine {
        version: false,
        free: vec!["pat".to_string(), "-".to_string()],
        mode: Some("files".to_string()),
        column_width: None,
        line_width: None,
        column_separator: None,
        two_pass: None,
        no_mmap: true,
        output: Some("out-%t".to_string()),
        tab_width: None,
    };
    match resolve_options(&line, &[]) {
        Ok(UnweaveOptions::Files(o)) => {
            assert_eq!(o.pattern, "pat");
            assert_eq!(o.output, Some("out-%t".to_string()));
            assert_eq!(o.inputs, vec!["/dev/stdin".to_string()]);
            assert!(o.mmap == UnweaveMmap::Disallow);
        }
        _ => panic!("no run into files"),
    }
}

#[test]
fn numbers() {
    assert_eq!(parse_u32("0"), Some(0));
    assert_eq!(parse_u32("10"), Some(10));
    assert_eq!(parse_u32("+10"), Some(10));
    assert_eq!(parse_u32("007"), Some(7));
    assert_eq!(parse_u32("4294967295"), Some(u32::MAX));
    assert_eq!(parse_u32("4294967296"), None);
    assert_eq!(parse_u32("99999999999999999999"), None);
    assert_eq!(parse_u32(""), None);
    assert_eq!(parse_u32("+"), None);
    assert_eq!(parse_u32("-1"), None);
    assert_eq!(parse_u32("1 "), None);
    assert_eq!(parse_u32("++1"), None);
    assert_eq!(parse_u32("١"), None);
    // The same texts as std reads them.
    for text in ["0", "+10", "007", "4294967295", "4294967296", "", "+", "-1", "1 ", "++1", "١"] {
        assert_eq!(parse_u32(text), text.parse::<u32>().ok());
    }
}

#[test]
fn reread_needs_inputs_that_can_be_read_again() {
    assert!(check_two_pass_reread(UnweaveTwoPass::Reread, &[true, true]).is_ok());
    assert!(check_two_pass_reread(UnweaveTwoPass::Reread, &[]).is_ok());
    assert!(matches!(
        check_two_pass_reread(UnweaveTwoPass::Reread, &[true, false]),
        Err(UnweaveError::InvalidTwoPassReread)
    ));
    assert!(check_two_pass_reread(UnweaveTwoPass::Cached, &[false]).is_ok());
}

fn line_of(args: &[&str]) -> CommandLine {
    match read_arguments(args) {
        Ok(ParsedArguments::Line(line)) => line,
        _ => panic!("no command line"),
    }
}

#[test]
fn arguments_are_read_option_by_option() {
    let line = line_of(&["-c", "5", "--two-pass=reread", "-n", "pat", "a", "-"]);
    assert_eq!(line.column_width, Some("5".to_string()));
    assert_eq!(line.two_pass, Some("reread".to_string()));
    assert!(line.no_mmap);
    assert!(!line.version);
    assert_eq!(line.mode, None);
    assert_eq!(line.line_width, None);
    assert_eq!(line.free, vec!["pat".to_string(), "a".to_string(), "-".to_string()]);
    assert_eq!(input_names(&line), vec!["a".to_string(), "/dev/stdin".to_string()]);
    assert!(asks_for_reread(&line));
    assert!(!asks_for_reread(&line_of(&["pat"])));
    assert!(!asks_for_reread(&line_of(&["--two-pass=cached", "pat"])));
    assert!(!asks_for_reread(&line_of(&["--two-pass=again", "pat"])));
    assert!(matches!(read_arguments(&["--help"]), Ok(ParsedArguments::Help(_))));
    assert!(matches!(read_arguments(&["--what"]), Err(UnweaveError::ParsingFailure(_))));
}

#[test]
fn reread_is_refused_before_the_tab_width_is_looked_at() {
    let line = line_of(&["--two-pass=reread", "-t", "none", "pat", "a", "b"]);
    assert!(matches!(
        resolve_options(&line, &[true, false]),
        Err(UnweaveError::InvalidTwoPassReread)
    ));
    assert!(matches!(
        resolve_options(&line, &[true, true]),
        Err(UnweaveError::InvalidOptionValue("tab-width", _))
    ));
    // A two-pass mode that is none is found out first.
    let line = line_of(&["--two-pass=again", "pat", "a"]);
    assert!(matches!(
        resolve_options(&line, &[false]),
        Err(UnweaveError::InvalidOptionValue("two-pass", _))
    ));
    // Where nothing is read a second time it does not matter.
    let line = line_of(&["pat", "a"]);
    assert!(matches!(resolve_options(&line, &[false]), Ok(UnweaveOptions::Columns(_))));
    let line = line_of(&["--two-pass=reread", "pat", "a"]);
    assert!(matches!(resolve_options(&line, &[true]), Ok(UnweaveOptions::Columns(_))));
}
