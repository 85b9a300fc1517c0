//! Reading the command line: which options it holds, and what run they
//! ask for.

use vstd::prelude::*;
use vstd::string::{StrSliceExecFns, StringExecFns, StringSliceAdditionalSpecFns};
use vstd::utf8::encode_utf8;
use crate::{
    UnweaveError, UnweaveMmap, UnweaveOptions, UnweaveOptionsColumns, UnweaveOptionsFiles,
    UnweaveTab, UnweaveTwoPass, UnweaveWidth,
};

verus! {

/// `getopts::Options`, the options that a command line may hold.
#[verifier::external_type_specification]
#[verifier::external_body]
pub struct ExOptions(getopts::Options);

/// `getopts::Matches`, what was found of the options in a command line.
#[verifier::external_type_specification]
#[verifier::external_body]
pub struct ExMatches(getopts::Matches);

/// Whether a set of options has an option of this name, short or long:
/// whether `getopts::Options::parse` knows the name.
pub uninterp spec fn options_define(options: getopts::Options, name: Seq<char>) -> bool;

/// Whether the options that matches were found with had an option of this
/// name. Stands for what `getopts::Matches::opt_defined` returns.
pub uninterp spec fn matches_define(matches: getopts::Matches, name: Seq<char>) -> bool;

/// What `getopts::Options::parse` makes of arguments: the matches, or the
/// words of the failure.
pub uninterp spec fn parse_outcome(options: getopts::Options, args: Seq<Seq<char>>) -> Result<
    getopts::Matches,
    Seq<char>,
>;

/// The argument that was given to the option of this name, or `None`. Stands
/// for what `getopts::Matches::opt_str` returns.
pub uninterp spec fn matches_value(matches: getopts::Matches, name: Seq<char>) -> Option<
    Seq<char>,
>;

/// Whether the option of this name was given. Stands for what
/// `getopts::Matches::opt_present` returns.
pub uninterp spec fn matches_present(matches: getopts::Matches, name: Seq<char>) -> bool;

/// The arguments that belong to no option: `free` of `getopts::Matches`.
pub uninterp spec fn matches_free(matches: getopts::Matches) -> Seq<Seq<char>>;

/// The description of the options under a heading. Stands for what
/// `getopts::Options::usage` returns.
pub uninterp spec fn usage_of(options: getopts::Options, brief: Seq<char>) -> Seq<char>;

/// The characters of each argument.
pub open spec fn args_text(args: Seq<&str>) -> Seq<Seq<char>> {
    Seq::new(args.len(), |i: int| args[i]@)
}

/// A short name is empty or one ASCII character; a long name is empty or
/// longer than one character; and one of the two is there.
pub open spec fn names_accepted(short: Seq<char>, long: Seq<char>) -> bool {
    &&& short.len() == 0 || (short.len() == 1 && (short[0] as u32) < 0x80)
    &&& long.len() != 1
    &&& short.len() + long.len() > 0
}

/// `options` defines what `before` did, and the two names.
pub open spec fn defines_also(
    options: getopts::Options,
    before: getopts::Options,
    short: Seq<char>,
    long: Seq<char>,
) -> bool {
    forall|name: Seq<char>| #[trigger]
        options_define(options, name) == (options_define(before, name) || (name.len() > 0 && (name
            == short || name == long)))
}

/// `getopts::Options::new` makes a set of options that defines none.
#[verifier::external_body]
fn options_new() -> (options: getopts::Options)
    ensures
        forall|name: Seq<char>| !#[trigger] options_define(options, name),
{
    getopts::Options::new()
}

/// `getopts::Options::optopt` adds an option that takes an argument and may
/// be given once. It asks of the names what `names_accepted` says.
#[verifier::external_body]
fn add_optopt(options: &mut getopts::Options, short: &str, long: &str, desc: &str, hint: &str)
    requires
        names_accepted(short@, long@),
    ensures
        defines_also(*final(options), *old(options), short@, long@),
{
    options.optopt(short, long, desc, hint);
}

/// `getopts::Options::optflag` adds an option that takes no argument and
/// may be given once. It asks of the names what `names_accepted` says.
#[verifier::external_body]
fn add_optflag(options: &mut getopts::Options, short: &str, long: &str, desc: &str)
    requires
        names_accepted(short@, long@),
    ensures
        defines_also(*final(options), *old(options), short@, long@),
{
    options.optflag(short, long, desc);
}

/// `getopts::Options::parse` reads the arguments. What comes back is what
/// the options make of these arguments: on success matches, which answer for
/// the names that the options define; on failure, the words of the failure.
#[verifier::external_body]
fn parse_arguments(options: &getopts::Options, args: &[&str]) -> (r: Result<
    getopts::Matches,
    String,
>)
    ensures
        match r {
            Ok(matches) => parse_outcome(*options, args_text(args@)) matches Ok(m) && m
                == matches,
            Err(text) => parse_outcome(*options, args_text(args@)) matches Err(t) && t == text@,
        },
        r matches Ok(matches) ==> forall|name: Seq<char>| #[trigger]
            matches_define(matches, name) == options_define(*options, name),
{
    options.parse(args).map_err(|e| e.to_string())
}

/// `getopts::Matches::opt_str`: the argument given to an option that is
/// defined, or `None`.
#[verifier::external_body]
fn option_value(matches: &getopts::Matches, name: &str) -> (value: Option<String>)
    requires
        matches_define(*matches, name@),
    ensures
        text_of(value) == matches_value(*matches, name@),
{
    matches.opt_str(name)
}

/// `getopts::Matches::opt_present`: whether an option that is defined was
/// given.
#[verifier::external_body]
fn option_present(matches: &getopts::Matches, name: &str) -> (present: bool)
    requires
        matches_define(*matches, name@),
    ensures
        present == matches_present(*matches, name@),
{
    matches.opt_present(name)
}

/// The arguments that belong to no option, `free` of `getopts::Matches`.
#[verifier::external_body]
fn free_arguments(matches: &getopts::Matches) -> (free: Vec<String>)
    ensures
        texts_of(free@) == matches_free(*matches),
{
    matches.free.clone()
}

/// `getopts::Options::usage` describes the options under a heading.
#[verifier::external_body]
fn usage_text(options: &getopts::Options, brief: &str) -> (text: String)
    ensures
        text@ == usage_of(*options, brief@),
{
    options.usage(brief)
}

/// What the command line holds, option by option.
pub struct CommandLine {
    pub version: bool,
    pub free: Vec<String>,
    pub mode: Option<String>,
    pub column_width: Option<String>,
    pub line_width: Option<String>,
    pub column_separator: Option<String>,
    pub two_pass: Option<String>,
    pub no_mmap: bool,
    pub output: Option<String>,
    pub tab_width: Option<String>,
}

/// The options define the names that the program reads.
pub open spec fn defines_program_options(options: getopts::Options) -> bool {
    &&& options_define(options, "mode"@)
    &&& options_define(options, "column-width"@)
    &&& options_define(options, "line-width"@)
    &&& options_define(options, "column-separator"@)
    &&& options_define(options, "two-pass"@)
    &&& options_define(options, "no-mmap"@)
    &&& options_define(options, "output"@)
    &&& options_define(options, "tab-width"@)
    &&& options_define(options, "version"@)
    &&& options_define(options, "help"@)
}

/// The options of the program.
fn program_options() -> (options: getopts::Options)
    ensures
        defines_program_options(options),
{
    proof {
        reveal_strlit("");
        reveal_strlit("m");
        reveal_strlit("c");
        reveal_strlit("l");
        reveal_strlit("s");
        reveal_strlit("n");
        reveal_strlit("o");
        reveal_strlit("t");
        reveal_strlit("h");
        reveal_strlit("mode");
        reveal_strlit("column-width");
        reveal_strlit("line-width");
        reveal_strlit("column-separator");
        reveal_strlit("two-pass");
        reveal_strlit("no-mmap");
        reveal_strlit("output");
        reveal_strlit("tab-width");
        reveal_strlit("version");
        reveal_strlit("help");
    }
    let mut options = options_new();
    add_optopt(
        &mut options,
        "m",
        "mode",
        "the unweave output mode, into separate columns in a single file (\"columns\", the default), or separate files (\"files\")",
        "MODE",
    );
    add_optopt(
        &mut options,
        "c",
        "column-width",
        "the width, in characters, of each column in the output (for columns mode)",
        "COLUMN-WIDTH",
    );
    add_optopt(
        &mut options,
        "l",
        "line-width",
        "the width, in characters, of each line in the output (for columns mode), with all columns having the same automatically calculated width",
        "LINE-WIDTH",
    );
    add_optopt(
        &mut options,
        "s",
        "column-separator",
        "the separator to print between columns in the output (for columns mode)",
        "COLUMN-SEPARATOR",
    );
    add_optopt(
        &mut options,
        "",
        "two-pass",
        "when a second pass through the data is required, either use the data and other information stored in memory from the first pass(\"cached\", the default), or reread and reprocess the data (\"reread\")",
        "PASS-MODE",
    );
    add_optflag(&mut options, "n", "no-mmap", "do not use mmap to access file contents");
    add_optopt(
        &mut options,
        "o",
        "output",
        "output file (for columns mode), or an output file template (for files mode) in which '%t' is replaced with the stream tag and '%Nd' with the stream number (starting from 0) zero-padded to a length of N digits",
        "OUTPUT",
    );
    add_optopt(
        &mut options,
        "t",
        "tab-width",
        "in columns mode, the number of spaces to replace tab characters with (default: 8), or \"noexpand\" to disable tab expansion",
        "TAB-WIDTH",
    );
    add_optflag(&mut options, "", "version", "output version information and exit");
    add_optflag(&mut options, "h", "help", "display this help and exit");
    options
}

/// What matches hold of each option of the program.
pub open spec fn command_line_of(matches: getopts::Matches) -> CommandLineView {
    CommandLineView {
        version: matches_present(matches, "version"@),
        free: matches_free(matches),
        mode: matches_value(matches, "mode"@),
        column_width: matches_value(matches, "column-width"@),
        line_width: matches_value(matches, "line-width"@),
        column_separator: matches_value(matches, "column-separator"@),
        two_pass: matches_value(matches, "two-pass"@),
        no_mmap: matches_present(matches, "no-mmap"@),
        output: matches_value(matches, "output"@),
        tab_width: matches_value(matches, "tab-width"@),
    }
}

/// Takes from the matches what the command line holds of each option.
fn read_command_line(matches: &getopts::Matches) -> (line: CommandLine)
    requires
        matches_define(*matches, "mode"@),
        matches_define(*matches, "column-width"@),
        matches_define(*matches, "line-width"@),
        matches_define(*matches, "column-separator"@),
        matches_define(*matches, "two-pass"@),
        matches_define(*matches, "no-mmap"@),
        matches_define(*matches, "output"@),
        matches_define(*matches, "tab-width"@),
        matches_define(*matches, "version"@),
    ensures
        line@ == command_line_of(*matches),
{
    CommandLine {
        version: option_present(matches, "version"),
        free: free_arguments(matches),
        mode: option_value(matches, "mode"),
        column_width: option_value(matches, "column-width"),
        line_width: option_value(matches, "line-width"),
        column_separator: option_value(matches, "column-separator"),
        two_pass: option_value(matches, "two-pass"),
        no_mmap: option_present(matches, "no-mmap"),
        output: option_value(matches, "output"),
        tab_width: option_value(matches, "tab-width"),
    }
}

/// The command line with its texts as sequences of characters.
pub struct CommandLineView {
    pub version: bool,
    pub free: Seq<Seq<char>>,
    pub mode: Option<Seq<char>>,
    pub column_width: Option<Seq<char>>,
    pub line_width: Option<Seq<char>>,
    pub column_separator: Option<Seq<char>>,
    pub two_pass: Option<Seq<char>>,
    pub no_mmap: bool,
    pub output: Option<Seq<char>>,
    pub tab_width: Option<Seq<char>>,
}

/// The characters of a text that may be missing.
pub open spec fn text_of(value: Option<String>) -> Option<Seq<char>> {
    match value {
        Some(s) => Some(s@),
        None => None,
    }
}

/// The characters of each of the texts.
pub open spec fn texts_of(values: Seq<String>) -> Seq<Seq<char>> {
    Seq::new(values.len(), |i: int| values[i]@)
}

impl View for CommandLine {
    type V = CommandLineView;

    open spec fn view(&self) -> CommandLineView {
        CommandLineView {
            version: self.version,
            free: texts_of(self.free@),
            mode: text_of(self.mode),
            column_width: text_of(self.column_width),
            line_width: text_of(self.line_width),
            column_separator: text_of(self.column_separator),
            two_pass: text_of(self.two_pass),
            no_mmap: self.no_mmap,
            output: text_of(self.output),
            tab_width: text_of(self.tab_width),
        }
    }
}

/// What a command line asks for.
pub enum Request {
    Help(Seq<char>),
    Version,
    Columns {
        pattern: Seq<char>,
        output: Option<Seq<char>>,
        inputs: Seq<Seq<char>>,
        mmap: UnweaveMmap,
        width: UnweaveWidth,
        column_separator: Option<Seq<char>>,
        two_pass: UnweaveTwoPass,
        tab: UnweaveTab,
    },
    Files {
        pattern: Seq<char>,
        output: Option<Seq<char>>,
        inputs: Seq<Seq<char>>,
        mmap: UnweaveMmap,
    },
}

/// Why a command line asks for nothing that can be done.
pub enum OptionFault {
    MissingOption(Seq<char>),
    InvalidOption(Seq<char>),
    InvalidOptionValue(Seq<char>, Seq<char>),
    InvalidTwoPassReread,
    LineAndColumnWidth,
}

impl UnweaveOptions {
    /// What the options ask for, with their texts as sequences of characters.
    pub open spec fn request(self) -> Request {
        match self {
            UnweaveOptions::Help(text) => Request::Help(text@),
            UnweaveOptions::Version => Request::Version,
            UnweaveOptions::Columns(o) => Request::Columns {
                pattern: o.pattern@,
                output: text_of(o.output),
                inputs: texts_of(o.inputs@),
                mmap: o.mmap,
                width: o.width,
                column_separator: text_of(o.column_separator),
                two_pass: o.two_pass,
                tab: o.tab,
            },
            UnweaveOptions::Files(o) => Request::Files {
                pattern: o.pattern@,
                output: text_of(o.output),
                inputs: texts_of(o.inputs@),
                mmap: o.mmap,
            },
        }
    }
}

impl UnweaveError {
    /// The fault in the options that the error reports, if it reports one.
    pub open spec fn option_fault(self) -> Option<OptionFault> {
        match self {
            UnweaveError::MissingOption(o) => Some(OptionFault::MissingOption(o@)),
            UnweaveError::InvalidOption(o) => Some(OptionFault::InvalidOption(o@)),
            UnweaveError::InvalidOptionValue(o, v) => Some(
                OptionFault::InvalidOptionValue(o@, v@),
            ),
            UnweaveError::InvalidTwoPassReread => Some(OptionFault::InvalidTwoPassReread),
            UnweaveError::LineAndColumnWidth => Some(OptionFault::LineAndColumnWidth),
            _ => None,
        }
    }
}

/// One of the digits `0` to `9`.
pub open spec fn is_digit_byte(b: u8) -> bool {
    0x30 <= b <= 0x39
}

/// Digits throughout.
pub open spec fn all_digits(digits: Seq<u8>) -> bool {
    forall|i: int| 0 <= i < digits.len() ==> is_digit_byte(#[trigger] digits[i])
}

/// The number that decimal digits stand for.
pub open spec fn digits_value(digits: Seq<u8>) -> nat
    decreases digits.len(),
{
    if digits.len() == 0 {
        0
    } else {
        digits_value(digits.drop_last()) * 10 + (digits.last() - 0x30) as nat
    }
}

/// The number that `text` stands for: decimal digits, at least one, with or
/// without a plus sign before them, for a number that 32 bits can hold.
pub open spec fn parsed_u32(text: Seq<u8>) -> Option<u32> {
    let digits = if text.len() > 0 && text[0] == 0x2b {
        text.drop_first()
    } else {
        text
    };
    if digits.len() > 0 && all_digits(digits) && digits_value(digits) <= u32::MAX {
        Some(digits_value(digits) as u32)
    } else {
        None
    }
}

/// More digits do not stand for less.
pub proof fn lemma_digits_value_grows(digits: Seq<u8>, k: int)
    requires
        0 <= k <= digits.len(),
    ensures
        digits_value(digits.take(k)) <= digits_value(digits),
    decreases digits.len() - k,
{
    if k < digits.len() {
        assert(digits.take(k + 1).drop_last() =~= digits.take(k));
        lemma_digits_value_grows(digits, k + 1);
        assert(digits_value(digits.take(k)) * 10 >= digits_value(digits.take(k))) by (nonlinear_arith);
    } else {
        assert(digits.take(k) =~= digits);
    }
}

/// Reads a number as `parsed_u32` says.
pub fn parse_u32(text: &str) -> (r: Option<u32>)
    ensures
        r == parsed_u32(text.spec_bytes()),
{
    let bytes = text.as_bytes();
    let start: usize = if bytes.len() > 0 && bytes[0] == 0x2b {
        1
    } else {
        0
    };
    let ghost digits = bytes@.skip(start as int);
    assert(digits =~= if bytes@.len() > 0 && bytes@[0] == 0x2b {
        bytes@.drop_first()
    } else {
        bytes@
    });
    if start == bytes.len() {
        return None;
    }
    let mut value: u32 = 0;
    let mut i: usize = start;
    assert(digits.take(0) =~= Seq::<u8>::empty());
    while i < bytes.len()
        invariant
            start <= i <= bytes.len(),
            start < bytes.len(),
            bytes@ == text.spec_bytes(),
            digits == bytes@.skip(start as int),
            digits == if bytes@.len() > 0 && bytes@[0] == 0x2b {
                bytes@.drop_first()
            } else {
                bytes@
            },
            forall|j: int| 0 <= j < i - start ==> is_digit_byte(#[trigger] digits[j]),
            value == digits_value(digits.take(i - start)),
        decreases bytes.len() - i,
    {
        let b = bytes[i];
        assert(digits[i - start] == b);
        proof {
            assert(digits.take(i - start + 1).drop_last() =~= digits.take(i - start));
            lemma_digits_value_grows(digits, i - start + 1);
        }
        if !(0x30 <= b && b <= 0x39) {
            assert(!is_digit_byte(digits[i - start]));
            return None;
        }
        let digit = (b - 0x30) as u32;
        assert(digits.take(i - start + 1).last() == b);
        assert(digits_value(digits.take(i - start + 1)) == value * 10 + digit);
        if value > (u32::MAX - digit) / 10 {
            return None;
        }
        value = value * 10 + digit;
        i += 1;
    }
    assert(digits.take(i - start) =~= digits);
    Some(value)
}

fn bytes_equal(a: &[u8], b: &[u8]) -> (r: bool)
    ensures
        r == (a@ == b@),
{
    if a.len() != b.len() {
        return false;
    }
    let mut i: usize = 0;
    while i < a.len()
        invariant
            i <= a.len(),
            a@.len() == b@.len(),
            forall|j: int| 0 <= j < i ==> a@[j] == b@[j],
        decreases a.len() - i,
    {
        if a[i] != b[i] {
            return false;
        }
        i += 1;
    }
    assert(a@ =~= b@);
    true
}

/// Whether two texts are the same.
pub fn text_is(text: &str, other: &str) -> (r: bool)
    ensures
        r == (text@ == other@),
{
    proof {
        vstd::utf8::encode_utf8_decode_utf8(text@);
        vstd::utf8::encode_utf8_decode_utf8(other@);
    }
    bytes_equal(text.as_bytes(), other.as_bytes())
}

/// The inputs that the free arguments name: all but the first, with the
/// standard input for `-`, and the standard input where none is named.
pub open spec fn inputs_of(free: Seq<Seq<char>>) -> Seq<Seq<char>> {
    if free.len() <= 1 {
        seq!["/dev/stdin"@]
    } else {
        Seq::new(
            (free.len() - 1) as nat,
            |i: int|
                if free[i + 1] == "-"@ {
                    "/dev/stdin"@
                } else {
                    free[i + 1]
                },
        )
    }
}

/// The width that an option gives: a number above zero.
pub open spec fn width_given(value: Seq<char>) -> Option<u32> {
    match parsed_u32(encode_utf8(value)) {
        Some(w) if w > 0 => Some(w),
        _ => None,
    }
}

/// How the columns get their widths.
pub open spec fn width_of(line: CommandLineView) -> Result<UnweaveWidth, OptionFault> {
    match (line.line_width, line.column_width) {
        (Some(v), _) => match width_given(v) {
            Some(w) => Ok(UnweaveWidth::Line(w)),
            None => Err(OptionFault::InvalidOptionValue("line-width"@, v)),
        },
        (None, Some(v)) => match width_given(v) {
            Some(w) => Ok(UnweaveWidth::Column(w)),
            None => Err(OptionFault::InvalidOptionValue("column-width"@, v)),
        },
        (None, None) => Ok(UnweaveWidth::Undefined),
    }
}

/// How a second pass comes by the lines; from memory unless told otherwise.
pub open spec fn two_pass_of(line: CommandLineView) -> Result<UnweaveTwoPass, OptionFault> {
    match line.two_pass {
        None => Ok(UnweaveTwoPass::Cached),
        Some(v) => if v == "cached"@ {
            Ok(UnweaveTwoPass::Cached)
        } else if v == "reread"@ {
            Ok(UnweaveTwoPass::Reread)
        } else {
            Err(OptionFault::InvalidOptionValue("two-pass"@, v))
        },
    }
}

/// What becomes of tabs; a stop every eight cells unless told otherwise.
pub open spec fn tab_of(line: CommandLineView) -> Result<UnweaveTab, OptionFault> {
    match line.tab_width {
        None => Ok(UnweaveTab::Expand(8)),
        Some(v) => match width_given(v) {
            Some(w) => Ok(UnweaveTab::Expand(w)),
            None => if v == "noexpand"@ {
                Ok(UnweaveTab::NoExpand)
            } else {
                Err(OptionFault::InvalidOptionValue("tab-width"@, v))
            },
        },
    }
}

/// The mode of the run; columns unless told otherwise.
pub open spec fn mode_of(line: CommandLineView) -> Seq<char> {
    match line.mode {
        Some(m) => m,
        None => "columns"@,
    }
}

/// An option that a run into files has no use for.
pub open spec fn stray_option(line: CommandLineView) -> Option<Seq<char>> {
    if line.line_width is Some {
        Some("line-width"@)
    } else if line.column_width is Some {
        Some("column-width"@)
    } else if line.two_pass is Some {
        Some("two-pass"@)
    } else if line.tab_width is Some {
        Some("tab-width"@)
    } else {
        None
    }
}

/// One of the inputs cannot be read a second time.
pub open spec fn some_unreadable(rereadable: Seq<bool>) -> bool {
    exists|i: int| 0 <= i < rereadable.len() && !#[trigger] rereadable[i]
}

/// What the command line asks for, or the first fault found in it, where
/// `rereadable` says of each input whether it can be read a second time.
pub open spec fn requested(line: CommandLineView, rereadable: Seq<bool>) -> Result<
    Request,
    OptionFault,
> {
    if line.version {
        Ok(Request::Version)
    } else if line.free.len() == 0 {
        Err(OptionFault::MissingOption("pattern"@))
    } else if line.free[0].len() == 0 {
        Err(OptionFault::InvalidOptionValue("pattern"@, line.free[0]))
    } else if mode_of(line) != "columns"@ && mode_of(line) != "files"@ {
        Err(OptionFault::InvalidOptionValue("mode"@, mode_of(line)))
    } else if mode_of(line) == "files"@ && line.output is None {
        Err(OptionFault::MissingOption("output"@))
    } else if mode_of(line) == "files"@ && stray_option(line) is Some {
        Err(OptionFault::InvalidOption(stray_option(line)->0))
    } else if line.line_width is Some && line.column_width is Some {
        Err(OptionFault::LineAndColumnWidth)
    } else {
        match (width_of(line), two_pass_of(line), tab_of(line)) {
            (Err(f), _, _) => Err(f),
            (Ok(_), Err(f), _) => Err(f),
            (Ok(_), Ok(UnweaveTwoPass::Reread), _) if some_unreadable(rereadable) => Err(
                OptionFault::InvalidTwoPassReread,
            ),
            (Ok(_), Ok(_), Err(f)) => Err(f),
            (Ok(width), Ok(two_pass), Ok(tab)) => {
                let mmap = if line.no_mmap {
                    UnweaveMmap::Disallow
                } else {
                    UnweaveMmap::Allow
                };
                if mode_of(line) == "files"@ {
                    Ok(
                        Request::Files {
                            pattern: line.free[0],
                            output: line.output,
                            inputs: inputs_of(line.free),
                            mmap,
                        },
                    )
                } else {
                    Ok(
                        Request::Columns {
                            pattern: line.free[0],
                            output: line.output,
                            inputs: inputs_of(line.free),
                            mmap,
                            width,
                            column_separator: line.column_separator,
                            two_pass,
                            tab,
                        },
                    )
                }
            },
        }
    }
}

fn clone_option(value: &Option<String>) -> (copy: Option<String>)
    ensures
        text_of(copy) == text_of(*value),
{
    match value {
        Some(s) => Some(s.clone()),
        None => None,
    }
}

fn inputs_from(free: &Vec<String>) -> (inputs: Vec<String>)
    ensures
        texts_of(inputs@) == inputs_of(texts_of(free@)),
{
    let mut inputs: Vec<String> = Vec::new();
    let mut i: usize = 1;
    while i < free.len()
        invariant
            1 <= i,
            i <= free.len() || (free.len() == 0 && i == 1),
            inputs@.len() == i - 1,
            forall|j: int|
                0 <= j < i - 1 ==> (#[trigger] inputs@[j])@ == if free@[j + 1]@ == "-"@ {
                    "/dev/stdin"@
                } else {
                    free@[j + 1]@
                },
        decreases free.len() - i,
    {
        let name = if text_is(free[i].as_str(), "-") {
            String::from_str("/dev/stdin")
        } else {
            free[i].clone()
        };
        inputs.push(name);
        i += 1;
    }
    if inputs.len() == 0 {
        inputs.push(String::from_str("/dev/stdin"));
        assert(texts_of(inputs@) =~= seq!["/dev/stdin"@]);
    } else {
        assert(free@.len() >= 2 && i == free@.len() && inputs@.len() == free@.len() - 1);
        assert forall|j: int| 0 <= j < inputs@.len() implies texts_of(inputs@)[j] == inputs_of(
            texts_of(free@),
        )[j] by {
            assert(texts_of(free@)[j + 1] == free@[j + 1]@);
        }
        assert(texts_of(inputs@) =~= inputs_of(texts_of(free@)));
    }
    inputs
}

fn width_from(value: &str) -> (width: Option<u32>)
    ensures
        width == width_given(value@),
{
    match parse_u32(value) {
        Some(w) => if w > 0 {
            Some(w)
        } else {
            None
        },
        None => None,
    }
}

/// Finds what a command line asks for, or the first fault in it, where
/// `rereadable` says of each input whether it can be read a second time.
pub fn resolve_options(line: &CommandLine, rereadable: &[bool]) -> (r: Result<
    UnweaveOptions,
    UnweaveError,
>)
    ensures
        match (r, requested(line@, rereadable@)) {
            (Ok(options), Ok(request)) => options.request() == request,
            (Err(e), Err(fault)) => e.option_fault() == Some(fault),
            _ => false,
        },
{
    if line.version {
        return Ok(UnweaveOptions::Version);
    }
    if line.free.len() == 0 {
        return Err(UnweaveError::MissingOption("pattern"));
    }
    assert(line@.free[0] == line.free@[0]@);
    if line.free[0].as_str().unicode_len() == 0 {
        return Err(UnweaveError::InvalidOptionValue("pattern", line.free[0].clone()));
    }
    let pattern = line.free[0].clone();
    let inputs = inputs_from(&line.free);

    let mode = match &line.mode {
        Some(m) => m.clone(),
        None => String::from_str("columns"),
    };
    let files = text_is(mode.as_str(), "files");
    if !files && !text_is(mode.as_str(), "columns") {
        return Err(UnweaveError::InvalidOptionValue("mode", mode));
    }
    if files {
        if line.output.is_none() {
            return Err(UnweaveError::MissingOption("output"));
        }
        if line.line_width.is_some() {
            return Err(UnweaveError::InvalidOption("line-width"));
        }
        if line.column_width.is_some() {
            return Err(UnweaveError::InvalidOption("column-width"));
        }
        if line.two_pass.is_some() {
            return Err(UnweaveError::InvalidOption("two-pass"));
        }
        if line.tab_width.is_some() {
            return Err(UnweaveError::InvalidOption("tab-width"));
        }
    }
    if line.line_width.is_some() && line.column_width.is_some() {
        return Err(UnweaveError::LineAndColumnWidth);
    }
    let width = match (&line.line_width, &line.column_width) {
        (Some(v), _) => match width_from(v.as_str()) {
            Some(w) => UnweaveWidth::Line(w),
            None => {
                return Err(UnweaveError::InvalidOptionValue("line-width", v.clone()));
            },
        },
        (None, Some(v)) => match width_from(v.as_str()) {
            Some(w) => UnweaveWidth::Column(w),
            None => {
                return Err(UnweaveError::InvalidOptionValue("column-width", v.clone()));
            },
        },
        (None, None) => UnweaveWidth::Undefined,
    };
    let two_pass = match &line.two_pass {
        None => UnweaveTwoPass::Cached,
        Some(v) => if text_is(v.as_str(), "cached") {
            UnweaveTwoPass::Cached
        } else if text_is(v.as_str(), "reread") {
            UnweaveTwoPass::Reread
        } else {
            return Err(UnweaveError::InvalidOptionValue("two-pass", v.clone()));
        },
    };
    match check_two_pass_reread(two_pass, rereadable) {
        Ok(()) => {},
        Err(e) => {
            return Err(e);
        },
    }
    let mmap = if line.no_mmap {
        UnweaveMmap::Disallow
    } else {
        UnweaveMmap::Allow
    };
    let tab = match &line.tab_width {
        None => UnweaveTab::Expand(8),
        Some(v) => match width_from(v.as_str()) {
            Some(w) => UnweaveTab::Expand(w),
            None => if text_is(v.as_str(), "noexpand") {
                UnweaveTab::NoExpand
            } else {
                return Err(UnweaveError::InvalidOptionValue("tab-width", v.clone()));
            },
        },
    };
    if files {
        Ok(
            UnweaveOptions::Files(
                UnweaveOptionsFiles { pattern, output: clone_option(&line.output), inputs, mmap },
            ),
        )
    } else {
        Ok(
            UnweaveOptions::Columns(
                UnweaveOptionsColumns {
                    pattern,
                    output: clone_option(&line.output),
                    inputs,
                    mmap,
                    width,
                    column_separator: clone_option(&line.column_separator),
                    two_pass,
                    tab,
                },
            ),
        )
    }
}

/// What stands above the options in the help text.
pub open spec fn usage_heading() -> Seq<char> {
    "Usage: unweave [OPTION...] PATTERN [FILE..]\nUnweave interleaved streams of text lines using regular expression matching.\n\nEach line is classified based on a stream tag extracted using the regular\nexpression PATTERN. The first capture group (or the whole match if there is no\nexplicit capture group) is used as the stream tag for the match. Without a \nFILE, or when FILE is -, read standard input."@
}

/// What stands above the options in the help text.
fn usage_brief() -> (brief: &'static str)
    ensures
        brief@ == usage_heading(),
{
    "Usage: unweave [OPTION...] PATTERN [FILE..]\nUnweave interleaved streams of text lines using regular expression matching.\n\nEach line is classified based on a stream tag extracted using the regular\nexpression PATTERN. The first capture group (or the whole match if there is no\nexplicit capture group) is used as the stream tag for the match. Without a \nFILE, or when FILE is -, read standard input."
}

/// What was read from the arguments of the program: a call for help, with
/// the help text, or what the command line holds of each option.
pub enum ParsedArguments {
    Help(String),
    Line(CommandLine),
}

/// Whether `r` is what was found in a command line: for a call for help the
/// help text, and else what the matches hold of each option.
pub open spec fn reads_matches(
    r: Result<ParsedArguments, UnweaveError>,
    options: getopts::Options,
    matches: getopts::Matches,
) -> bool {
    if matches_present(matches, "help"@) {
        r matches Ok(ParsedArguments::Help(text)) && text@ == usage_of(options, usage_heading())
    } else {
        r matches Ok(ParsedArguments::Line(line)) && line@ == command_line_of(matches)
    }
}

/// Whether `r` is what `options` make of `args`: where the arguments cannot
/// be read, the words of the failure, and else what was found in them.
pub open spec fn reads_arguments(
    r: Result<ParsedArguments, UnweaveError>,
    options: getopts::Options,
    args: Seq<Seq<char>>,
) -> bool {
    match parse_outcome(options, args) {
        Err(words) => r matches Err(UnweaveError::ParsingFailure(text)) && text@ == words,
        Ok(matches) => reads_matches(r, options, matches),
    }
}

/// Reads the arguments of the program with options that define the names of
/// the program's options. What the arguments hold of each option is the
/// option parser's to say: where it fails, its words are the error.
pub fn read_arguments(args: &[&str]) -> (r: Result<ParsedArguments, UnweaveError>)
    ensures
        exists|options: getopts::Options|
            defines_program_options(options) && #[trigger] reads_arguments(
                r,
                options,
                args_text(args@),
            ),
{
    let options = program_options();
    let r = match parse_arguments(&options, args) {
        Ok(matches) => {
            if option_present(&matches, "help") {
                Ok(ParsedArguments::Help(usage_text(&options, usage_brief())))
            } else {
                Ok(ParsedArguments::Line(read_command_line(&matches)))
            }
        },
        Err(text) => Err(UnweaveError::ParsingFailure(text)),
    };
    assert(reads_arguments(r, options, args_text(args@)));
    r
}

/// The inputs that a command line names.
pub fn input_names(line: &CommandLine) -> (inputs: Vec<String>)
    ensures
        texts_of(inputs@) == inputs_of(line@.free),
{
    inputs_from(&line.free)
}

/// Whether a command line asks for a second pass that reads the inputs
/// again.
pub fn asks_for_reread(line: &CommandLine) -> (r: bool)
    ensures
        r == (two_pass_of(line@) == Ok::<UnweaveTwoPass, OptionFault>(UnweaveTwoPass::Reread)),
{
    match &line.two_pass {
        Some(v) => !text_is(v.as_str(), "cached") && text_is(v.as_str(), "reread"),
        None => false,
    }
}

/// Whether `r` answers what was read from the arguments: a call for help
/// with the help text, and a command line with what it asks for, or with the
/// first fault in it, where no input is known not to be readable again.
pub open spec fn answers(
    r: Result<UnweaveOptions, UnweaveError>,
    read: Result<ParsedArguments, UnweaveError>,
) -> bool {
    match read {
        Err(e) => r matches Err(f) && f == e,
        Ok(ParsedArguments::Help(text)) => r matches Ok(UnweaveOptions::Help(t)) && t == text,
        Ok(ParsedArguments::Line(line)) => match (r, requested(line@, Seq::empty())) {
            (Ok(found), Ok(request)) => found.request() == request,
            (Err(e), Err(fault)) => e.option_fault() == Some(fault),
            _ => false,
        },
    }
}

/// Whether `r` answers `args` as read with `options`.
pub open spec fn answers_arguments(
    r: Result<UnweaveOptions, UnweaveError>,
    options: getopts::Options,
    args: Seq<Seq<char>>,
) -> bool {
    exists|read: Result<ParsedArguments, UnweaveError>|
        reads_arguments(read, options, args) && #[trigger] answers(r, read)
}

/// Reads the arguments of the program and finds what they ask for.
///
/// The arguments are read as `read_arguments` says. A call for help is
/// answered with the help text; anything else is resolved as
/// `resolve_options` says, with every input taken for one that can be read a
/// second time.
pub fn parse_options(args: &[&str]) -> (r: Result<UnweaveOptions, UnweaveError>)
    ensures
        exists|options: getopts::Options|
            defines_program_options(options) && #[trigger] answers_arguments(
                r,
                options,
                args_text(args@),
            ),
{
    let read = read_arguments(args);
    let ghost options = choose|options: getopts::Options|
        defines_program_options(options) && #[trigger] reads_arguments(
            read,
            options,
            args_text(args@),
        );
    let ghost seen = read;
    let r = match read {
        Ok(ParsedArguments::Help(text)) => Ok(UnweaveOptions::Help(text)),
        Ok(ParsedArguments::Line(line)) => {
            let none: [bool; 0] = [];
            assert(none@ =~= Seq::<bool>::empty());
            resolve_options(&line, none.as_slice())
        },
        Err(e) => Err(e),
    };
    assert(answers(r, seen));
    assert(answers_arguments(r, options, args_text(args@)));
    r
}

/// A second pass that reads its inputs again needs inputs that can be read
/// again: every one of them.
pub fn check_two_pass_reread(two_pass: UnweaveTwoPass, rereadable: &[bool]) -> (r: Result<
    (),
    UnweaveError,
>)
    ensures
        r is Err <==> two_pass is Reread && some_unreadable(rereadable@),
        r matches Err(e) ==> e is InvalidTwoPassReread,
{
    if two_pass == UnweaveTwoPass::Reread {
        let mut i: usize = 0;
        while i < rereadable.len()
            invariant
                i <= rereadable.len(),
                two_pass is Reread,
                forall|j: int| 0 <= j < i ==> rereadable@[j],
            decreases rereadable.len() - i,
        {
            if !rereadable[i] {
                assert(!rereadable@[i as int]);
                return Err(UnweaveError::InvalidTwoPassReread);
            }
            i += 1;
        }
    }
    Ok(())
}

} // verus!
