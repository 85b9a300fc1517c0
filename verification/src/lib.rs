use vstd::prelude::*;

pub mod errors;
pub mod graphemes;
pub mod lines;
pub mod options;
pub mod tag_finder;
pub mod tag_map;
pub mod column_printer;
pub mod column_tracker;
pub mod unweave_columns;
pub mod unweave_files;

verus! {

/// Why a run cannot start or go on.
#[derive(Debug)]
pub enum UnweaveError {
    ParsingFailure(String),
    MissingOption(&'static str),
    InvalidOption(&'static str),
    InvalidOptionValue(&'static str, String),
    InvalidTwoPassReread,
    LineAndColumnWidth,
    InvalidOutputFilePattern(char),
    IncompleteOutputFilePattern,
    /// The pattern is no regular expression; the field holds the reason.
    InvalidPattern(String),
    /// A tag that is to name a file is not valid UTF-8.
    InvalidTagEncoding,
}

/// How a second pass over the input obtains the lines again.
#[derive(PartialEq, Eq, Structural, Clone, Copy, Debug)]
pub enum UnweaveTwoPass {
    Cached,
    Reread,
}

/// How the width of the output columns is decided.
#[derive(PartialEq, Eq, Structural, Clone, Copy, Debug)]
pub enum UnweaveWidth {
    Undefined,
    Column(u32),
    Line(u32),
}

impl UnweaveWidth {
    /// Whether the options give the width of each column.
    pub fn is_column(&self) -> (r: bool)
        ensures
            r == (*self is Column),
    {
        match self {
            UnweaveWidth::Column(_) => true,
            _ => false,
        }
    }
}

/// What becomes of a tab byte.
#[derive(PartialEq, Eq, Structural, Clone, Copy, Debug)]
pub enum UnweaveTab {
    NoExpand,
    Expand(u32),
}

impl UnweaveTab {
    /// A tab stop every zero cells is no tab stop.
    pub open spec fn well_formed(self) -> bool {
        self matches UnweaveTab::Expand(tw) ==> tw > 0
    }

    /// The most cells that one byte of a line can take up.
    pub open spec fn stop(self) -> nat {
        match self {
            UnweaveTab::NoExpand => 1,
            UnweaveTab::Expand(tw) => tw as nat,
        }
    }

    /// Whether tabs are replaced by spaces.
    pub fn is_expand(&self) -> (r: bool)
        ensures
            r == (*self is Expand),
    {
        match self {
            UnweaveTab::Expand(_) => true,
            _ => false,
        }
    }
}

/// Whether an input may be mapped into memory in place of being read.
#[derive(PartialEq, Eq, Structural, Clone, Copy, Debug)]
pub enum UnweaveMmap {
    Allow,
    Disallow,
}

/// What a run that writes one column per stream is told.
pub struct UnweaveOptionsColumns {
    pub pattern: String,
    pub output: Option<String>,
    pub inputs: Vec<String>,
    pub mmap: UnweaveMmap,
    pub width: UnweaveWidth,
    pub column_separator: Option<String>,
    pub two_pass: UnweaveTwoPass,
    pub tab: UnweaveTab,
}

impl UnweaveOptionsColumns {
    /// The bytes that stand between two columns.
    pub open spec fn separator(&self) -> Seq<u8> {
        match self.column_separator {
            Some(s) => vstd::utf8::encode_utf8(s@),
            None => Seq::empty(),
        }
    }
}

/// What a run that writes one file per stream is told.
pub struct UnweaveOptionsFiles {
    pub pattern: String,
    pub output: Option<String>,
    pub inputs: Vec<String>,
    pub mmap: UnweaveMmap,
}

/// What the command line asks for: a run in one of the two modes, or the
/// help text, which the value holds, or the version.
pub enum UnweaveOptions {
    Columns(UnweaveOptionsColumns),
    Files(UnweaveOptionsFiles),
    Help(String),
    Version,
}

} // verus!
