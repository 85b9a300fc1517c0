//! The registry of columns: which tag has which column, and how wide each
//! column has to be.

use vstd::prelude::*;
use vstd::slice::slice_subrange;
use ahash::AHashMap;
use crate::column_printer::ColumnPrinter;
use crate::graphemes::{checked_grapheme_count, line_width};
use crate::tag_finder::{refuses, regex_refusal, tag_of, TagFinder};
use crate::tag_map::{tag_indices, tag_map_get, tag_map_insert, tag_map_len, tag_map_new};
use crate::{UnweaveError, UnweaveOptionsColumns, UnweaveTab, UnweaveWidth};

verus! {

/// The columns found so far: the tag of each, in the order in which the
/// tags were first seen, and the width that each column asks for.
pub struct Registry {
    pub tags: Seq<Seq<u8>>,
    pub widths: Seq<u32>,
}

/// The larger of two widths.
pub open spec fn larger(a: u32, b: u32) -> u32 {
    if a >= b {
        a
    } else {
        b
    }
}

impl Registry {
    /// No columns.
    pub open spec fn empty() -> Registry {
        Registry { tags: Seq::empty(), widths: Seq::empty() }
    }

    /// Every column has one tag and one width, and no tag has two columns.
    pub open spec fn wf(self) -> bool {
        &&& self.tags.no_duplicates()
        &&& self.widths.len() == self.tags.len()
    }

    /// The column of a tag that has one.
    pub open spec fn column_of(self, tag: Seq<u8>) -> int {
        self.tags.index_of(tag)
    }

    /// The registry after a line with `tag` that asks for `width` cells. A
    /// tag that is new gets the next column; the column of a known tag grows
    /// to `width` where it was narrower.
    pub open spec fn classify(self, tag: Seq<u8>, width: u32) -> Registry {
        if self.tags.contains(tag) {
            let c = self.column_of(tag);
            Registry { tags: self.tags, widths: self.widths.update(c, larger(self.widths[c], width)) }
        } else {
            Registry { tags: self.tags.push(tag), widths: self.widths.push(width) }
        }
    }
}

/// The width that a line asks of its column while lines are classified:
/// its own width where none is given, as far as a column can be wide.
pub open spec fn candidate_width(mode: UnweaveWidth, tab: UnweaveTab, line: Seq<u8>) -> u32 {
    match mode {
        UnweaveWidth::Undefined => if line_width(line, tab) <= u32::MAX {
            line_width(line, tab) as u32
        } else {
            u32::MAX
        },
        UnweaveWidth::Column(w) => w,
        UnweaveWidth::Line(_) => 0,
    }
}

/// The width of a line as far as classifying it has measured it: where no
/// width is given, and the line is no wider than can be counted in 32 bits.
pub open spec fn known_width(mode: UnweaveWidth, tab: UnweaveTab, line: Seq<u8>) -> Option<u32> {
    match mode {
        UnweaveWidth::Undefined => if line_width(line, tab) <= u32::MAX {
            Some(line_width(line, tab) as u32)
        } else {
            None
        },
        _ => None,
    }
}

/// The widths that the columns are rendered with once every line has been
/// classified. A line width is divided evenly among the columns.
pub open spec fn final_widths(mode: UnweaveWidth, widths: Seq<u32>) -> Seq<u32> {
    match mode {
        UnweaveWidth::Line(w) => Seq::new(
            widths.len(),
            |i: int| (w as nat / widths.len()) as u32,
        ),
        _ => widths,
    }
}

/// A line leaves the registry well formed; its tag has a column then, the
/// one it had or else the next.
pub proof fn lemma_classify_wf(reg: Registry, tag: Seq<u8>, width: u32)
    requires
        reg.wf(),
    ensures
        reg.classify(tag, width).wf(),
        reg.classify(tag, width).tags.contains(tag),
        0 <= reg.classify(tag, width).column_of(tag) < reg.classify(tag, width).tags.len(),
        reg.tags.contains(tag) ==> reg.classify(tag, width).column_of(tag) == reg.column_of(tag),
        !reg.tags.contains(tag) ==> reg.classify(tag, width).column_of(tag) == reg.tags.len(),
{
    let next = reg.classify(tag, width);
    if reg.tags.contains(tag) {
        reg.tags.index_of_first_ensures(tag);
        let c = reg.tags.index_of(tag);
        assert(reg.tags[c] == tag);
    } else {
        let n = reg.tags.len() as int;
        assert(next.tags[n] == tag);
        assert forall|i: int, j: int|
            0 <= i < next.tags.len() && 0 <= j < next.tags.len() && i != j implies next.tags[i]
            != next.tags[j] by {
            if i < n && j < n {
            } else if i < n {
                assert(reg.tags.contains(reg.tags[i]));
            } else {
                assert(reg.tags.contains(reg.tags[j]));
            }
        }
        let c = next.tags.index_of(tag);
        assert(next.tags[c] == tag);
        if c != n {
            assert(reg.tags.contains(reg.tags[c]));
        }
    }
}

/// While lines are classified no column gets narrower, and none changes
/// its tag.
pub proof fn lemma_classify_widths_grow(reg: Registry, tag: Seq<u8>, width: u32, c: int)
    requires
        reg.wf(),
        0 <= c < reg.tags.len(),
    ensures
        reg.classify(tag, width).tags[c] == reg.tags[c],
        reg.classify(tag, width).widths[c] >= reg.widths[c],
        reg.classify(tag, width).widths.len() == reg.classify(tag, width).tags.len(),
{
    lemma_classify_wf(reg, tag, width);
}

/// A line whose tag has a column, and which asks for no more than the
/// column has, changes nothing. So it is with every line once all tags are
/// known and the widths are given by the options: a line asks for the given
/// column width, or, where a line width is given, for nothing.
pub proof fn lemma_classify_settled(reg: Registry, tag: Seq<u8>, width: u32)
    requires
        reg.wf(),
        reg.tags.contains(tag),
        width <= reg.widths[reg.column_of(tag)],
    ensures
        reg.classify(tag, width) == reg,
{
    lemma_classify_wf(reg, tag, width);
    assert(reg.classify(tag, width).widths =~= reg.widths);
}

/// Tracks the columns and their widths while lines are classified.
pub struct ColumnTracker {
    width: UnweaveWidth,
    tab: UnweaveTab,
    tag_finder: TagFinder,
    column_for_tag: AHashMap<Vec<u8>, usize>,
    column_widths: Vec<u32>,
    tags: Ghost<Seq<Seq<u8>>>,
}

impl View for ColumnTracker {
    type V = Registry;

    closed spec fn view(&self) -> Registry {
        Registry { tags: self.tags@, widths: self.column_widths@ }
    }
}

impl ColumnTracker {
    /// How the widths of the columns are decided.
    pub closed spec fn mode(&self) -> UnweaveWidth {
        self.width
    }

    /// What becomes of tabs where lines are measured.
    pub closed spec fn tab(&self) -> UnweaveTab {
        self.tab
    }

    /// The pattern that tags are found with.
    pub closed spec fn pattern(&self) -> Seq<char> {
        self.tag_finder.pattern()
    }

    /// The map from tag to column holds the tags of the registry, each with
    /// its place in the order of first appearance.
    pub closed spec fn wf(&self) -> bool {
        let map = tag_indices(self.column_for_tag);
        &&& self.tab.well_formed()
        &&& self@.wf()
        &&& map.dom().finite()
        &&& map.dom().len() == self.tags@.len()
        &&& forall|tag: Seq<u8>| #[trigger] map.contains_key(tag) <==> self.tags@.contains(tag)
        &&& forall|i: int| 0 <= i < self.tags@.len() ==> map[#[trigger] self.tags@[i]] == i
    }

    /// What a well-formed tracker holds is a well-formed registry.
    pub proof fn lemma_wf(&self)
        requires
            self.wf(),
        ensures
            self@.wf(),
            self.tab().well_formed(),
            self@.tags.len() <= usize::MAX,
    {
        assert(self.column_widths.len() == self.column_widths@.len());
    }

    /// A tracker without columns, unless the regular expression engine
    /// refuses the pattern of the options.
    pub fn new(opts: &UnweaveOptionsColumns) -> (r: Result<Self, UnweaveError>)
        requires
            opts.tab.well_formed(),
        ensures
            match r {
                Ok(tracker) => {
                    &&& regex_refusal(opts.pattern@) is None
                    &&& tracker.wf()
                    &&& tracker@ == Registry::empty()
                    &&& tracker.mode() == opts.width
                    &&& tracker.tab() == opts.tab
                    &&& tracker.pattern() == opts.pattern@
                },
                Err(e) => refuses(opts.pattern@, e),
            },
    {
        match TagFinder::new(opts.pattern.as_str()) {
            Ok(tag_finder) => {
                let tracker = ColumnTracker {
                    width: opts.width,
                    tab: opts.tab,
                    tag_finder,
                    column_for_tag: tag_map_new(),
                    column_widths: Vec::new(),
                    tags: Ghost(Seq::empty()),
                };
                assert(tracker@ =~= Registry::empty());
                Ok(tracker)
            },
            Err(e) => Err(e),
        }
    }

    /// Classifies `line` without a printer to keep up to date.
    pub fn process_line(&mut self, line: &[u8]) -> (r: Option<(usize, Option<u32>)>)
        requires
            old(self).wf(),
        ensures
            final(self).wf(),
            final(self).mode() == old(self).mode(),
            final(self).tab() == old(self).tab(),
            final(self).pattern() == old(self).pattern(),
            match tag_of(old(self).pattern(), line@) {
                Some(tag) => {
                    &&& final(self)@ == old(self)@.classify(
                        tag,
                        candidate_width(old(self).mode(), old(self).tab(), line@),
                    )
                    &&& r == Some(
                        (
                            final(self)@.column_of(tag) as usize,
                            known_width(old(self).mode(), old(self).tab(), line@),
                        ),
                    )
                },
                None => r is None && final(self)@ == old(self)@,
            },
    {
        self.process_line_with_column_printer(line, None)
    }

    /// Finds the tag of `line` and with it the column of the line. A tag
    /// that was not seen before gets the next column, and the printer, where
    /// one is given, is told the widths of the columns there are now.
    ///
    /// Returns the column and, as far as it was measured, the width of the
    /// line; `None` for a line without a tag, which changes nothing.
    pub fn process_line_with_column_printer(
        &mut self,
        line: &[u8],
        lp: Option<&mut ColumnPrinter>,
    ) -> (r: Option<(usize, Option<u32>)>)
        requires
            old(self).wf(),
            lp matches Some(p) ==> p.wf(),
        ensures
            final(self).wf(),
            final(self).mode() == old(self).mode(),
            final(self).tab() == old(self).tab(),
            final(self).pattern() == old(self).pattern(),
            match tag_of(old(self).pattern(), line@) {
                Some(tag) => {
                    &&& final(self)@ == old(self)@.classify(
                        tag,
                        candidate_width(old(self).mode(), old(self).tab(), line@),
                    )
                    &&& r == Some(
                        (
                            final(self)@.column_of(tag) as usize,
                            known_width(old(self).mode(), old(self).tab(), line@),
                        ),
                    )
                },
                None => r is None && final(self)@ == old(self)@,
            },
            match lp {
                Some(p) => {
                    &&& final(p).wf()
                    &&& final(p).separator() == p.separator()
                    &&& final(p).tab() == p.tab()
                    &&& final(p).widths() == if final(self)@.tags.len() > old(self)@.tags.len() {
                        final(self)@.widths
                    } else {
                        p.widths()
                    }
                },
                None => true,
            },
    {
        let range = match self.tag_finder.find_in(line) {
            Some(range) => range,
            None => {
                return None;
            },
        };
        let tag = slice_subrange(line, range.start, range.end);
        assert(Some(tag@) == tag_of(self.pattern(), line@));

        let grapheme_count = match self.width {
            UnweaveWidth::Undefined => checked_grapheme_count(line, self.tab),
            _ => None,
        };
        let column_width = match self.width {
            UnweaveWidth::Undefined => match grapheme_count {
                Some(g) => g,
                None => u32::MAX,
            },
            UnweaveWidth::Column(w) => w,
            _ => 0,
        };
        proof {
            lemma_classify_wf(self@, tag@, column_width);
        }
        let ghost before = self@;
        let ghost map = tag_indices(self.column_for_tag);
        let column = match tag_map_get(&self.column_for_tag, tag) {
            Some(c) => {
                proof {
                    before.tags.index_of_first_ensures(tag@);
                    assert(before.tags[before.tags.index_of(tag@)] == tag@);
                }
                let old_width = self.column_widths[c];
                let new_width = if old_width >= column_width {
                    old_width
                } else {
                    column_width
                };
                self.column_widths.set(c, new_width);
                c
            },
            None => {
                let c = tag_map_len(&self.column_for_tag);
                tag_map_insert(&mut self.column_for_tag, tag, c);
                self.column_widths.push(column_width);
                proof {
                    self.tags@ = self.tags@.push(tag@);
                    let after = tag_indices(self.column_for_tag);
                    assert(after.dom() =~= map.dom().insert(tag@));
                    assert forall|t: Seq<u8>| #[trigger]
                        after.contains_key(t) <==> self.tags@.contains(t) by {
                        if t == tag@ {
                            assert(self.tags@[c as int] == t);
                        } else if before.tags.contains(t) {
                            let i = before.tags.index_of(t);
                            before.tags.index_of_first_ensures(t);
                            assert(before.tags[i] == t);
                            assert(self.tags@[i] == t);
                        } else if self.tags@.contains(t) {
                            let i = self.tags@.index_of(t);
                            self.tags@.index_of_first_ensures(t);
                            assert(self.tags@[i] == t);
                            assert(before.tags[i] == t);
                        }
                    }
                    assert forall|i: int| 0 <= i < self.tags@.len() implies after[#[trigger]
                        self.tags@[i]] == i by {
                        if i < c {
                            assert(before.tags.contains(before.tags[i]));
                        }
                    }
                }
                if let Some(lp) = lp {
                    lp.set_column_widths(self.column_widths.as_slice());
                }
                c
            },
        };
        Some((column, grapheme_count))
    }

    /// Settles the widths that the columns are rendered with, and returns
    /// them.
    pub fn final_column_widths(&mut self) -> (widths: &[u32])
        requires
            old(self).wf(),
        ensures
            final(self).wf(),
            final(self).mode() == old(self).mode(),
            final(self).tab() == old(self).tab(),
            final(self).pattern() == old(self).pattern(),
            final(self)@.tags == old(self)@.tags,
            final(self)@.widths == final_widths(old(self).mode(), old(self)@.widths),
            widths@ == final(self)@.widths,
    {
        match self.width {
            UnweaveWidth::Line(w) => {
                let ncolumns = self.column_widths.len();
                if ncolumns > 0 {
                    let each: u32 = if ncolumns > u32::MAX as usize {
                        0
                    } else {
                        w / (ncolumns as u32)
                    };
                    assert(each == w as nat / ncolumns as nat) by {
                            if ncolumns > u32::MAX {
                                assert(w as nat / ncolumns as nat == 0) by (nonlinear_arith)
                                    requires
                                        0 <= w < ncolumns,
                                ;
                            }
                    }
                    let mut i: usize = 0;
                    while i < ncolumns
                        invariant
                            i <= ncolumns,
                            ncolumns == self.column_widths@.len(),
                            self.width == old(self).width,
                            self.tab == old(self).tab,
                            self.tag_finder == old(self).tag_finder,
                            self.column_for_tag == old(self).column_for_tag,
                            self.tags == old(self).tags,
                            forall|j: int| 0 <= j < i ==> self.column_widths@[j] == each,
                        decreases ncolumns - i,
                    {
                        self.column_widths.set(i, each);
                        i += 1;
                    }
                }
            },
            _ => {},
        }
        assert(self.column_widths@ =~= final_widths(old(self).mode(), old(self)@.widths));
        self.column_widths.as_slice()
    }
}

} // verus!
