//! Rendering a line into its column: blank slots for the columns to its
//! left and right, padding up to the column's width, and wrapping over
//! several rows where the line is wider than its column.

use vstd::prelude::*;
use vstd::slice::slice_subrange;
use vstd::utf8::{decode_utf8, valid_utf8};
use crate::graphemes::{
    breaks_partition, check_utf8, cell_bytes, cell_grapheme_count, cell_start, cells_text, cells_width,
    checked_grapheme_count, cluster_width, expand_tabs, expand_tabs_into, grapheme_breaks, ints,
    is_expanded_tab, lemma_line_breaks_partition, line_breaks, line_width, push_spaces, spaces,
};
use crate::{UnweaveOptionsColumns, UnweaveTab};

verus! {

/// What stands before a line in column `col`: a blank slot and a separator
/// for each column to its left.
pub open spec fn prefix_of(widths: Seq<u32>, sep: Seq<u8>, col: nat) -> Seq<u8>
    decreases col,
{
    if col == 0 {
        Seq::empty()
    } else {
        prefix_of(widths, sep, (col - 1) as nat) + spaces(widths[col - 1] as nat) + sep
    }
}

/// A separator and a blank slot for each of the columns `from..to`.
pub open spec fn blank_slots(widths: Seq<u32>, sep: Seq<u8>, from: nat, to: nat) -> Seq<u8>
    decreases to,
{
    if to <= from {
        Seq::empty()
    } else {
        blank_slots(widths, sep, from, (to - 1) as nat) + sep + spaces(widths[to - 1] as nat)
    }
}

/// `s` without the run of space bytes at its end.
pub open spec fn trim_spaces(s: Seq<u8>) -> Seq<u8>
    decreases s.len(),
{
    if s.len() > 0 && s.last() == 0x20 {
        trim_spaces(s.drop_last())
    } else {
        s
    }
}

/// What stands behind a line in column `col`: a separator and a blank slot
/// for each column to its right, without the spaces at the end, and a newline.
pub open spec fn suffix_of(widths: Seq<u32>, sep: Seq<u8>, col: nat) -> Seq<u8> {
    trim_spaces(blank_slots(widths, sep, col + 1, widths.len())).push(0x0au8)
}

/// A character that shows nothing: one that has the Unicode property
/// `White_Space`.
pub open spec fn is_whitespace(c: char) -> bool {
    let u = c as u32;
    (0x09 <= u <= 0x0d) || u == 0x20 || u == 0x85 || u == 0xa0 || u == 0x1680 || (0x2000 <= u
        <= 0x200a) || u == 0x2028 || u == 0x2029 || u == 0x202f || u == 0x205f || u == 0x3000
}

/// Whitespace throughout.
pub open spec fn all_whitespace(text: Seq<char>) -> bool {
    forall|i: int| 0 <= i < text.len() ==> is_whitespace(#[trigger] text[i])
}

/// `s` shows nothing: it is a text of whitespace characters only.
pub open spec fn is_blank(s: Seq<u8>) -> bool {
    valid_utf8(s) && all_whitespace(decode_utf8(s))
}

/// The spaces that fill a column of `column_width` cells behind `width` cells
/// of content. Nothing is filled in where only blank follows.
pub open spec fn padding(column_width: u32, width: nat, suffix: Seq<u8>) -> nat {
    if is_blank(suffix) || width >= column_width {
        0
    } else {
        (column_width - width) as nat
    }
}

/// One output row with `chunk`, of `width` cells, in column `col`.
pub open spec fn row(widths: Seq<u32>, sep: Seq<u8>, col: int, chunk: Seq<u8>, width: nat) -> Seq<
    u8,
> {
    let suffix = suffix_of(widths, sep, col as nat);
    prefix_of(widths, sep, col as nat) + chunk + spaces(padding(widths[col], width, suffix))
        + suffix
}

/// A piece of a wrapped line, and the cells it takes up.
pub struct Chunk {
    pub bytes: Seq<u8>,
    pub width: nat,
}

/// The pieces that the cells from `k` on are wrapped into, where the piece
/// under way starts at byte `chunk_start` and holds `acc` cells so far. A
/// piece ends with the cell that brings it to the column's width, or with
/// the line.
pub open spec fn wrap_from(
    text: Seq<u8>,
    breaks: Seq<int>,
    k: nat,
    chunk_start: int,
    acc: nat,
    column_width: nat,
) -> Seq<Chunk>
    decreases breaks.len() - k,
{
    if k >= breaks.len() {
        Seq::empty()
    } else {
        let width = acc + cluster_width(cell_bytes(text, breaks, k as int));
        let end = breaks[k as int];
        if end < text.len() && width < column_width {
            wrap_from(text, breaks, k + 1, chunk_start, width, column_width)
        } else {
            seq![Chunk { bytes: text.subrange(chunk_start, end), width }] + wrap_from(
                text,
                breaks,
                k + 1,
                end,
                0,
                column_width,
            )
        }
    }
}

/// The pieces that `text` is wrapped into for a column of `column_width` cells.
pub open spec fn wrap_chunks(text: Seq<u8>, column_width: nat) -> Seq<Chunk> {
    wrap_from(text, line_breaks(text), 0, 0, 0, column_width)
}

/// One row for each piece, in order.
pub open spec fn rows(widths: Seq<u32>, sep: Seq<u8>, col: int, chunks: Seq<Chunk>) -> Seq<u8>
    decreases chunks.len(),
{
    if chunks.len() == 0 {
        Seq::empty()
    } else {
        rows(widths, sep, col, chunks.drop_last()) + row(
            widths,
            sep,
            col,
            chunks.last().bytes,
            chunks.last().width,
        )
    }
}

/// The bytes of the pieces, one after the other.
pub open spec fn content(chunks: Seq<Chunk>) -> Seq<u8>
    decreases chunks.len(),
{
    if chunks.len() == 0 {
        Seq::empty()
    } else {
        chunks.first().bytes + content(chunks.drop_first())
    }
}

/// A tab of `line` is to be replaced by spaces.
pub open spec fn expanding(tab: UnweaveTab, line: Seq<u8>) -> bool {
    tab is Expand && line.contains(0x09u8)
}

/// The bytes of `line` as they are put out.
pub open spec fn shown_text(tab: UnweaveTab, line: Seq<u8>) -> Seq<u8> {
    if expanding(tab, line) {
        expand_tabs(line, tab)
    } else {
        line
    }
}

/// The width that decides whether `line` fits: the one the caller knows,
/// unless tabs are expanded, and else the measured one.
pub open spec fn shown_width(tab: UnweaveTab, line: Seq<u8>, known: Option<u32>) -> nat {
    match known {
        Some(g) if !expanding(tab, line) => g as nat,
        _ => line_width(line, tab),
    }
}

/// What `line` becomes in column `col`: one row where it fits, and else
/// one row for each piece it is wrapped into.
pub open spec fn rendered(
    widths: Seq<u32>,
    sep: Seq<u8>,
    tab: UnweaveTab,
    line: Seq<u8>,
    col: int,
    known: Option<u32>,
) -> Seq<u8> {
    let text = shown_text(tab, line);
    let width = shown_width(tab, line, known);
    if width <= widths[col] {
        row(widths, sep, col, text, width)
    } else {
        rows(widths, sep, col, wrap_chunks(text, widths[col] as nat))
    }
}

/// Renders lines into the columns of an output.
pub struct ColumnPrinter {
    sep: Vec<u8>,
    tab: UnweaveTab,
    column_widths: Vec<u32>,
    column_prefixes: Vec<Vec<u8>>,
    column_suffixes: Vec<Vec<u8>>,
    column_blank: Vec<bool>,
}

/// Whether a character shows nothing.
pub fn is_whitespace_char(c: char) -> (r: bool)
    ensures
        r == is_whitespace(c),
{
    let u = c as u32;
    (0x09 <= u && u <= 0x0d) || u == 0x20 || u == 0x85 || u == 0xa0 || u == 0x1680 || (0x2000 <= u
        && u <= 0x200a) || u == 0x2028 || u == 0x2029 || u == 0x202f || u == 0x205f || u == 0x3000
}

/// Whether `s` shows nothing.
pub fn is_blank_bytes(s: &[u8]) -> (r: bool)
    ensures
        r == is_blank(s@),
{
    match check_utf8(s) {
        Ok(text) => {
            proof {
                vstd::utf8::encode_utf8_decode_utf8(text@);
            }
            let mut blank = true;
            for c in it: text.chars()
                invariant
                    it.seq() == text@,
                    blank == (forall|j: int|
                        0 <= j < it.index() ==> is_whitespace(#[trigger] text@[j])),
            {
                if !is_whitespace_char(c) {
                    blank = false;
                }
            }
            blank
        },
        Err(_) => false,
    }
}

impl ColumnPrinter {
    /// The bytes that stand between two columns.
    pub closed spec fn separator(&self) -> Seq<u8> {
        self.sep@
    }

    /// What becomes of tabs.
    pub closed spec fn tab(&self) -> UnweaveTab {
        self.tab
    }

    /// The width of each column, as last set.
    pub closed spec fn widths(&self) -> Seq<u32> {
        self.column_widths@
    }

    /// The prefix and suffix kept for each column are those of the widths.
    pub closed spec fn wf(&self) -> bool {
        &&& self.tab.well_formed()
        &&& self.column_prefixes@.len() == self.column_widths@.len()
        &&& self.column_suffixes@.len() == self.column_widths@.len()
        &&& self.column_blank@.len() == self.column_widths@.len()
        &&& forall|c: int|
            0 <= c < self.column_widths@.len() ==> #[trigger] self.column_blank@[c] == is_blank(
                suffix_of(self.column_widths@, self.sep@, c as nat),
            )
        &&& forall|c: int|
            0 <= c < self.column_widths@.len() ==> (#[trigger] self.column_prefixes@[c])@
                == prefix_of(self.column_widths@, self.sep@, c as nat)
        &&& forall|c: int|
            0 <= c < self.column_widths@.len() ==> (#[trigger] self.column_suffixes@[c])@
                == suffix_of(self.column_widths@, self.sep@, c as nat)
    }

    /// A printer without columns.
    pub fn new(opts: &UnweaveOptionsColumns) -> (printer: Self)
        requires
            opts.tab.well_formed(),
        ensures
            printer.wf(),
            printer.widths() == Seq::<u32>::empty(),
            printer.separator() == opts.separator(),
            printer.tab() == opts.tab,
    {
        let mut sep: Vec<u8> = Vec::new();
        match &opts.column_separator {
            Some(s) => {
                sep.extend_from_slice(s.as_str().as_bytes());
            },
            None => {},
        }
        assert(sep@ =~= opts.separator());
        ColumnPrinter {
            sep,
            tab: opts.tab,
            column_widths: Vec::new(),
            column_prefixes: Vec::new(),
            column_suffixes: Vec::new(),
            column_blank: Vec::new(),
        }
    }

    /// Sets the number of columns and their widths.
    pub fn set_column_widths(&mut self, column_widths: &[u32])
        requires
            old(self).wf(),
        ensures
            final(self).wf(),
            final(self).widths() == column_widths@,
            final(self).separator() == old(self).separator(),
            final(self).tab() == old(self).tab(),
    {
        let n = column_widths.len();
        let mut widths: Vec<u32> = Vec::new();
        widths.extend_from_slice(column_widths);
        assert(widths@ =~= column_widths@);
        let mut prefixes: Vec<Vec<u8>> = Vec::new();
        let mut suffixes: Vec<Vec<u8>> = Vec::new();
        let mut blank: Vec<bool> = Vec::new();
        let mut col: usize = 0;
        while col < n
            invariant
                col <= n,
                n == widths@.len(),
                widths@ == column_widths@,
                prefixes@.len() == col,
                suffixes@.len() == col,
                blank@.len() == col,
                forall|c: int|
                    0 <= c < col ==> #[trigger] blank@[c] == is_blank(
                        suffix_of(widths@, self.sep@, c as nat),
                    ),
                forall|c: int|
                    0 <= c < col ==> (#[trigger] prefixes@[c])@ == prefix_of(
                        widths@,
                        self.sep@,
                        c as nat,
                    ),
                forall|c: int|
                    0 <= c < col ==> (#[trigger] suffixes@[c])@ == suffix_of(
                        widths@,
                        self.sep@,
                        c as nat,
                    ),
            decreases n - col,
        {
            let mut prefix: Vec<u8> = Vec::new();
            let mut i: usize = 0;
            while i < col
                invariant
                    i <= col < n,
                    n == widths@.len(),
                    prefix@ == prefix_of(widths@, self.sep@, i as nat),
                decreases col - i,
            {
                push_spaces(&mut prefix, widths[i]);
                prefix.extend_from_slice(self.sep.as_slice());
                i += 1;
            }
            let mut suffix: Vec<u8> = Vec::new();
            let mut j: usize = col + 1;
            while j < n
                invariant
                    col + 1 <= j <= n,
                    n == widths@.len(),
                    suffix@ == blank_slots(widths@, self.sep@, (col + 1) as nat, j as nat),
                decreases n - j,
            {
                suffix.extend_from_slice(self.sep.as_slice());
                push_spaces(&mut suffix, widths[j]);
                j += 1;
            }
            let ghost slots = suffix@;
            while suffix.len() > 0 && suffix[suffix.len() - 1] == 0x20
                invariant
                    trim_spaces(suffix@) == trim_spaces(slots),
                decreases suffix.len(),
            {
                suffix.pop();
            }
            suffix.push(0x0au8);
            blank.push(is_blank_bytes(suffix.as_slice()));
            prefixes.push(prefix);
            suffixes.push(suffix);
            col += 1;
        }
        self.column_widths = widths;
        self.column_prefixes = prefixes;
        self.column_suffixes = suffixes;
        self.column_blank = blank;
    }

    /// Appends to `out` one row with `chunk` in column `col`. The width of
    /// the chunk is `grapheme_count`, and is measured where that is `None`.
    pub fn print_in_column_unwrapped(
        &self,
        chunk: &[u8],
        col: usize,
        grapheme_count: Option<u32>,
        out: &mut Vec<u8>,
    )
        requires
            self.wf(),
            col < self.widths().len(),
        ensures
            final(out)@ == old(out)@ + row(
                self.widths(),
                self.separator(),
                col as int,
                chunk@,
                match grapheme_count {
                    Some(g) => g as nat,
                    None => line_width(chunk@, self.tab()),
                },
            ),
    {
        let column_width = self.column_widths[col];
        let suffix = self.column_suffixes[col].as_slice();
        let prefix = self.column_prefixes[col].as_slice();
        out.extend_from_slice(prefix);
        out.extend_from_slice(chunk);
        // Nothing is filled in where it would end the row with spaces.
        if !self.column_blank[col] {
            let count = match grapheme_count {
                Some(g) => Some(g),
                None => checked_grapheme_count(chunk, self.tab),
            };
            // A chunk that is wider than can be counted fills any column.
            let remaining = match count {
                Some(width) => if width < column_width {
                    column_width - width
                } else {
                    0
                },
                None => 0,
            };
            push_spaces(out, remaining);
        } else {
            assert(out@ =~= out@ + spaces(0));
        }
        out.extend_from_slice(suffix);
    }

    /// Appends to `out` the rows of `line` in column `col`: one row where
    /// the line fits into the column, and else as many as it is wrapped
    /// into. `grapheme_count` is the width of the line where the caller knows
    /// it.
    pub fn print_in_column(
        &self,
        line: &[u8],
        col: usize,
        grapheme_count: Option<u32>,
        out: &mut Vec<u8>,
    )
        requires
            self.wf(),
            col < self.widths().len(),
        ensures
            final(out)@ == old(out)@ + rendered(
                self.widths(),
                self.separator(),
                self.tab(),
                line@,
                col as int,
                grapheme_count,
            ),
    {
        let column_width = self.column_widths[col];
        let mut untabbed_line: Vec<u8> = Vec::new();
        let expand = self.tab.is_expand() && contains_tab(line);
        // The width of the line, unless it is wider than can be counted: then
        // it is wider than any column.
        let width = if expand {
            expand_tabs_into(line, self.tab, &mut untabbed_line)
        } else {
            match grapheme_count {
                Some(g) => Some(g),
                None => {
                    // A line of no more bytes than the column has cells fits.
                    if line.len() <= column_width as usize {
                        proof {
                            lemma_width_at_most_len(line@, self.tab);
                        }
                        self.print_in_column_unwrapped(line, col, None, out);
                        return ;
                    }
                    checked_grapheme_count(line, self.tab)
                },
            }
        };
        let text: &[u8] = if expand {
            untabbed_line.as_slice()
        } else {
            line
        };
        assert(text@ =~= shown_text(self.tab, line@));
        match width {
            Some(w) => {
                assert(w == shown_width(self.tab, line@, grapheme_count));
                if w <= column_width {
                    self.print_in_column_unwrapped(text, col, Some(w), out);
                    return ;
                }
            },
            None => {
                assert(shown_width(self.tab, line@, grapheme_count) > u32::MAX);
            },
        }
        let breaks = grapheme_breaks(text);
        let ghost cells = line_breaks(text@);
        let ghost done: Seq<Chunk> = Seq::empty();
        let mut chunk_graphemes: u32 = 0;
        let mut chunk_start: usize = 0;
        let mut start: usize = 0;
        let mut k: usize = 0;
        assert(done + wrap_chunks(text@, column_width as nat) =~= wrap_chunks(
            text@,
            column_width as nat,
        ));
        while k < breaks.len()
            invariant
                self.wf(),
                col < self.widths().len(),
                column_width == self.widths()[col as int],
                k <= breaks.len(),
                ints(breaks@) == cells,
                breaks_partition(cells, text@.len() as int),
                start == cell_start(cells, k as int),
                chunk_start <= start,
                chunk_graphemes == 0 || chunk_graphemes < column_width,
                done + wrap_from(
                    text@,
                    cells,
                    k as nat,
                    chunk_start as int,
                    chunk_graphemes as nat,
                    column_width as nat,
                ) == wrap_chunks(text@, column_width as nat),
                out@ == old(out)@ + rows(self.widths(), self.separator(), col as int, done),
            decreases breaks.len() - k,
        {
            let end = breaks[k];
            proof {
                assert(cells[k as int] == end);
                assert(start < end) by {
                    if k > 0 {
                        assert(cells[k - 1] < cells[k as int]);
                    }
                }
            }
            let cell = slice_subrange(text, start, end);
            assert(cell@ == cell_bytes(text@, cells, k as int));
            let chunk_width = chunk_graphemes + cell_grapheme_count(cell);
            if end < text.len() && chunk_width < column_width {
                chunk_graphemes = chunk_width;
            } else {
                let chunk = slice_subrange(text, chunk_start, end);
                self.print_in_column_unwrapped(chunk, col, Some(chunk_width), out);
                proof {
                    let piece = Chunk { bytes: chunk@, width: chunk_width as nat };
                    let rest = wrap_from(text@, cells, (k + 1) as nat, end as int, 0, column_width as nat);
                    assert(done.push(piece) + rest =~= done + (seq![piece] + rest));
                    assert(done.push(piece).drop_last() =~= done);
                    done = done.push(piece);
                }
                chunk_start = end;
                chunk_graphemes = 0;
            }
            start = end;
            k += 1;
        }
        assert(done =~= wrap_chunks(text@, column_width as nat));
    }
}

fn contains_tab(line: &[u8]) -> (r: bool)
    ensures
        r == line@.contains(0x09u8),
{
    let mut i: usize = 0;
    while i < line.len()
        invariant
            i <= line.len(),
            forall|j: int| 0 <= j < i ==> line@[j] != 0x09,
        decreases line.len() - i,
    {
        if line[i] == 0x09 {
            return true;
        }
        i += 1;
    }
    false
}

/// Where no tab is expanded no cell is wider than one, so the first `k` cells
/// take up no more cells than they have bytes.
pub proof fn lemma_cells_width_at_most_bytes(
    line: Seq<u8>,
    breaks: Seq<int>,
    tab: UnweaveTab,
    k: nat,
)
    requires
        !expanding(tab, line),
        breaks_partition(breaks, line.len() as int),
        k <= breaks.len(),
    ensures
        cells_width(line, breaks, tab, k) <= cell_start(breaks, k as int),
        cells_text(line, breaks, tab, k) == line.subrange(0, cell_start(breaks, k as int)),
    decreases k,
{
    if k > 0 {
        let j = (k - 1) as nat;
        lemma_cells_width_at_most_bytes(line, breaks, tab, j);
        let a = cell_start(breaks, j as int);
        let b = breaks[j as int];
        assert(0 <= a < b <= line.len()) by {
            if j > 0 {
                assert(breaks[j - 1] < breaks[j as int]);
                assert(0 < breaks[j - 1]);
            }
        }
        assert(!is_expanded_tab(line, breaks, j as int, tab)) by {
            if tab is Expand && cell_bytes(line, breaks, j as int) == seq![0x09u8] {
                assert(cell_bytes(line, breaks, j as int)[0] == line[a]);
                assert(line[a] == 0x09u8);
            }
        }
        assert(line.subrange(0, a) + line.subrange(a, b) =~= line.subrange(0, b));
    } else {
        assert(line.subrange(0, 0) =~= Seq::<u8>::empty());
    }
}

/// A line whose tabs stay as they are is no wider than it is long, and is
/// put out as it is.
pub proof fn lemma_width_at_most_len(line: Seq<u8>, tab: UnweaveTab)
    requires
        !expanding(tab, line),
    ensures
        line_width(line, tab) <= line.len(),
        expand_tabs(line, tab) == line,
{
    let breaks = line_breaks(line);
    lemma_line_breaks_partition(line);
    lemma_cells_width_at_most_bytes(line, breaks, tab, breaks.len());
    if breaks.len() > 0 {
        assert(line.subrange(0, line.len() as int) =~= line);
    } else {
        assert(line.subrange(0, 0) =~= line);
    }
}

/// The pieces from a cell on hold the text from where the piece under way
/// starts.
pub proof fn lemma_wrap_from_content(
    text: Seq<u8>,
    breaks: Seq<int>,
    k: nat,
    chunk_start: int,
    acc: nat,
    column_width: nat,
)
    requires
        breaks_partition(breaks, text.len() as int),
        k <= breaks.len(),
        0 <= chunk_start <= cell_start(breaks, k as int),
        k == breaks.len() ==> chunk_start == text.len(),
    ensures
        content(wrap_from(text, breaks, k, chunk_start, acc, column_width)) == text.subrange(
            chunk_start,
            text.len() as int,
        ),
    decreases breaks.len() - k,
{
    let len = text.len() as int;
    if k >= breaks.len() {
        assert(text.subrange(chunk_start, len) =~= Seq::<u8>::empty());
    } else {
        let width = acc + cluster_width(cell_bytes(text, breaks, k as int));
        let end = breaks[k as int];
        assert(cell_start(breaks, k as int) < end <= len) by {
            if k > 0 {
                assert(breaks[k - 1] < breaks[k as int]);
            }
        }
        if k + 1 == breaks.len() {
            assert(end == len);
        }
        if end < len && width < column_width {
            lemma_wrap_from_content(text, breaks, k + 1, chunk_start, width, column_width);
        } else {
            let piece = Chunk { bytes: text.subrange(chunk_start, end), width };
            let rest = wrap_from(text, breaks, k + 1, end, 0, column_width);
            lemma_wrap_from_content(text, breaks, k + 1, end, 0, column_width);
            assert((seq![piece] + rest).drop_first() =~= rest);
            assert(text.subrange(chunk_start, end) + text.subrange(end, len) =~= text.subrange(
                chunk_start,
                len,
            ));
        }
    }
}

/// Wrapping loses and adds nothing: the pieces that a text is wrapped into,
/// one after the other, are the text.
pub proof fn lemma_wrap_preserves_content(text: Seq<u8>, column_width: nat)
    ensures
        content(wrap_chunks(text, column_width)) == text,
{
    lemma_line_breaks_partition(text);
    lemma_wrap_from_content(text, line_breaks(text), 0, 0, 0, column_width);
    assert(text.subrange(0, text.len() as int) =~= text);
}

/// A line that is no wider than its column comes out as exactly one row.
/// Between the blank slots of the columns to its left and the padding stand
/// the bytes of the line, with the tabs expanded where they are to be.
pub proof fn lemma_fitting_line_is_one_row(
    widths: Seq<u32>,
    sep: Seq<u8>,
    tab: UnweaveTab,
    line: Seq<u8>,
    col: int,
    known: Option<u32>,
)
    requires
        0 <= col < widths.len(),
        known matches Some(g) ==> g == line_width(line, tab),
        line_width(line, tab) <= widths[col],
    ensures
        rendered(widths, sep, tab, line, col, known) == prefix_of(widths, sep, col as nat)
            + expand_tabs(line, tab) + spaces(
            padding(widths[col], line_width(line, tab), suffix_of(widths, sep, col as nat)),
        ) + suffix_of(widths, sep, col as nat),
{
    if !expanding(tab, line) {
        lemma_width_at_most_len(line, tab);
    }
}

/// What stands before a column depends on the columns to its left only.
pub proof fn lemma_prefix_agrees(w1: Seq<u32>, w2: Seq<u32>, sep: Seq<u8>, col: nat)
    requires
        col <= w1.len(),
        col <= w2.len(),
        forall|i: int| 0 <= i < col ==> w1[i] == w2[i],
    ensures
        prefix_of(w1, sep, col) == prefix_of(w2, sep, col),
    decreases col,
{
    if col > 0 {
        lemma_prefix_agrees(w1, w2, sep, (col - 1) as nat);
    }
}

/// Without a separator blank slots are spaces.
pub proof fn lemma_blank_slots_are_spaces(widths: Seq<u32>, from: nat, to: nat)
    ensures
        forall|i: int|
            0 <= i < blank_slots(widths, Seq::empty(), from, to).len() ==> blank_slots(
                widths,
                Seq::empty(),
                from,
                to,
            )[i] == 0x20,
    decreases to,
{
    if to > from {
        lemma_blank_slots_are_spaces(widths, from, (to - 1) as nat);
        let before = blank_slots(widths, Seq::empty(), from, (to - 1) as nat);
        let slots = blank_slots(widths, Seq::empty(), from, to);
        assert(slots =~= before + spaces(widths[to - 1] as nat));
        assert forall|i: int| 0 <= i < slots.len() implies slots[i] == 0x20 by {
            if i < before.len() {
                assert(slots[i] == before[i]);
            }
        }
    }
}

/// Nothing is left of spaces once the spaces at the end are gone.
pub proof fn lemma_trim_spaces_only(s: Seq<u8>)
    requires
        forall|i: int| 0 <= i < s.len() ==> s[i] == 0x20,
    ensures
        trim_spaces(s) == Seq::<u8>::empty(),
    decreases s.len(),
{
    if s.len() > 0 {
        lemma_trim_spaces_only(s.drop_last());
    }
}

/// Without a separator nothing but the newline stands behind a line,
/// however many columns there are.
pub proof fn lemma_suffix_without_separator(widths: Seq<u32>, col: nat)
    ensures
        suffix_of(widths, Seq::empty(), col) == seq![0x0au8],
{
    lemma_blank_slots_are_spaces(widths, col + 1, widths.len());
    lemma_trim_spaces_only(blank_slots(widths, Seq::empty(), col + 1, widths.len()));
    assert(Seq::<u8>::empty().push(0x0au8) =~= seq![0x0au8]);
}

/// Without a separator rows are made from the widths of their own column
/// and of those to its left.
pub proof fn lemma_rows_without_separator(w1: Seq<u32>, w2: Seq<u32>, col: int, chunks: Seq<Chunk>)
    requires
        0 <= col < w1.len(),
        col < w2.len(),
        forall|i: int| 0 <= i <= col ==> w1[i] == w2[i],
    ensures
        rows(w1, Seq::empty(), col, chunks) == rows(w2, Seq::empty(), col, chunks),
        forall|chunk: Seq<u8>, width: nat| #[trigger]
            row(w1, Seq::empty(), col, chunk, width) == row(w2, Seq::empty(), col, chunk, width),
    decreases chunks.len(),
{
    lemma_prefix_agrees(w1, w2, Seq::empty(), col as nat);
    lemma_suffix_without_separator(w1, col as nat);
    lemma_suffix_without_separator(w2, col as nat);
    if chunks.len() > 0 {
        lemma_rows_without_separator(w1, w2, col, chunks.drop_last());
    }
}

/// Without a separator a line is rendered from the widths of its own column
/// and of those to its left; columns further right change nothing.
pub proof fn lemma_rendered_without_separator(
    w1: Seq<u32>,
    w2: Seq<u32>,
    tab: UnweaveTab,
    line: Seq<u8>,
    col: int,
    known: Option<u32>,
)
    requires
        0 <= col < w1.len(),
        col < w2.len(),
        forall|i: int| 0 <= i <= col ==> w1[i] == w2[i],
    ensures
        rendered(w1, Seq::empty(), tab, line, col, known) == rendered(
            w2,
            Seq::empty(),
            tab,
            line,
            col,
            known,
        ),
{
    lemma_rows_without_separator(
        w1,
        w2,
        col,
        wrap_chunks(shown_text(tab, line), w1[col] as nat),
    );
}

/// The width of the cells from `k` on, where no tab is expanded.
pub open spec fn width_from(text: Seq<u8>, breaks: Seq<int>, k: nat) -> nat
    decreases breaks.len() - k,
{
    if k >= breaks.len() {
        0
    } else {
        cluster_width(cell_bytes(text, breaks, k as int)) + width_from(text, breaks, k + 1)
    }
}

/// The cells up to `k` and the cells from `k` on are all the cells.
pub proof fn lemma_width_from(text: Seq<u8>, breaks: Seq<int>, k: nat)
    requires
        k <= breaks.len(),
    ensures
        cells_width(text, breaks, UnweaveTab::NoExpand, k) + width_from(text, breaks, k)
            == cells_width(text, breaks, UnweaveTab::NoExpand, breaks.len()),
    decreases breaks.len() - k,
{
    if k < breaks.len() {
        lemma_width_from(text, breaks, k + 1);
        assert(!is_expanded_tab(text, breaks, k as int, UnweaveTab::NoExpand));
    }
}

/// All pieces but the last are as wide as the column, the last is no wider,
/// and together they are as wide as the piece under way and the cells to come.
pub open spec fn pieces_fill(chunks: Seq<Chunk>, column_width: nat, width: nat) -> bool {
    &&& chunks.len() >= 1
    &&& forall|i: int| 0 <= i < chunks.len() - 1 ==> (#[trigger] chunks[i]).width == column_width
    &&& chunks[chunks.len() - 1].width <= column_width
    &&& (chunks.len() - 1) * column_width + chunks[chunks.len() - 1].width == width
}

/// The pieces from a cell on fill the column, piece after piece.
pub proof fn lemma_wrap_from_fills(
    text: Seq<u8>,
    breaks: Seq<int>,
    k: nat,
    chunk_start: int,
    acc: nat,
    column_width: nat,
)
    requires
        breaks_partition(breaks, text.len() as int),
        k < breaks.len(),
        acc < column_width,
    ensures
        pieces_fill(
            wrap_from(text, breaks, k, chunk_start, acc, column_width),
            column_width,
            acc + width_from(text, breaks, k),
        ),
    decreases breaks.len() - k,
{
    let len = text.len() as int;
    let width = acc + cluster_width(cell_bytes(text, breaks, k as int));
    let end = breaks[k as int];
    assert(end <= len);
    if k + 1 == breaks.len() {
        assert(end == len);
        assert(width_from(text, breaks, k + 1) == 0);
    } else {
        assert(end < breaks[k as int + 1]);
        assert(breaks[k as int + 1] <= len);
    }
    if end < len && width < column_width {
        lemma_wrap_from_fills(text, breaks, k + 1, chunk_start, width, column_width);
    } else {
        let piece = Chunk { bytes: text.subrange(chunk_start, end), width };
        let rest = wrap_from(text, breaks, k + 1, end, 0, column_width);
        let chunks = seq![piece] + rest;
        if end < len {
            lemma_wrap_from_fills(text, breaks, k + 1, end, 0, column_width);
            assert(width == column_width);
            let m = rest.len() as int;
            let cw = column_width as int;
            assert(chunks.len() == m + 1);
            assert(chunks[chunks.len() - 1] == rest[m - 1]);
            assert forall|i: int| 0 <= i < chunks.len() - 1 implies (#[trigger] chunks[i]).width
                == column_width by {
                if i > 0 {
                    assert(chunks[i] == rest[i - 1]);
                }
            }
            assert(m * cw == cw + (m - 1) * cw) by (nonlinear_arith);
        } else {
            assert(rest.len() == 0);
            assert(chunks[0] == piece);
        }
    }
}

/// A text that is wrapped fills its column row by row: every row but the
/// last holds as many cells as the column is wide, and the last holds what is
/// left. So a text of `w` cells, the last of which takes up a cell, takes as
/// many rows of `c` cells as `w / c`, rounded up.
pub proof fn lemma_wrapped_rows(text: Seq<u8>, column_width: nat)
    requires
        text.len() > 0,
        column_width >= 1,
    ensures
        pieces_fill(
            wrap_chunks(text, column_width),
            column_width,
            line_width(text, UnweaveTab::NoExpand),
        ),
{
    let breaks = line_breaks(text);
    lemma_line_breaks_partition(text);
    lemma_wrap_from_fills(text, breaks, 0, 0, 0, column_width);
    lemma_width_from(text, breaks, 0);
}

} // verus!
