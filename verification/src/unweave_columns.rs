//! Unweaving into columns: every stream gets a column of its own in one
//! output, and each line is rendered into the column of its stream.

use vstd::prelude::*;
use crate::column_printer::{lemma_rendered_without_separator, rendered, ColumnPrinter};
use crate::column_tracker::{
    candidate_width, final_widths, known_width, lemma_classify_settled, lemma_classify_wf,
    lemma_classify_widths_grow, ColumnTracker, Registry,
};
use crate::graphemes::line_width;
use crate::lines::{all_lines, contents_of, line_spans, span_lines, LineSpan};
use crate::tag_finder::{refuses, regex_refusal, tag_of};
use crate::{UnweaveError, UnweaveOptionsColumns, UnweaveTab, UnweaveTwoPass, UnweaveWidth};

verus! {

/// What decides the columns and their widths, apart from the lines.
pub struct Layout {
    pub mode: UnweaveWidth,
    pub tab: UnweaveTab,
    pub pattern: Seq<char>,
}

impl UnweaveOptionsColumns {
    /// What the options say of the columns and their widths.
    pub open spec fn layout(&self) -> Layout {
        Layout { mode: self.width, tab: self.tab, pattern: self.pattern@ }
    }
}

/// The width of each line can be counted in 32 bits.
pub open spec fn lines_fit(lines: Seq<Seq<u8>>, tab: UnweaveTab) -> bool {
    forall|i: int| 0 <= i < lines.len() ==> line_width(#[trigger] lines[i], tab) <= u32::MAX
}

/// The registry after `line`. A line without a tag leaves it as it is.
pub open spec fn classify_line(layout: Layout, reg: Registry, line: Seq<u8>) -> Registry {
    match tag_of(layout.pattern, line) {
        Some(tag) => reg.classify(tag, candidate_width(layout.mode, layout.tab, line)),
        None => reg,
    }
}

/// The registry after `lines`, one after the other.
pub open spec fn classify_all(layout: Layout, reg: Registry, lines: Seq<Seq<u8>>) -> Registry
    decreases lines.len(),
{
    if lines.len() == 0 {
        reg
    } else {
        classify_line(layout, classify_all(layout, reg, lines.drop_last()), lines.last())
    }
}

/// What `line` puts into the output where the columns are those of `reg`
/// and have the widths `widths`. A line without a tag puts out nothing.
pub open spec fn render_line(
    layout: Layout,
    sep: Seq<u8>,
    reg: Registry,
    widths: Seq<u32>,
    line: Seq<u8>,
) -> Seq<u8> {
    match tag_of(layout.pattern, line) {
        Some(tag) => rendered(
            widths,
            sep,
            layout.tab,
            line,
            reg.column_of(tag),
            known_width(layout.mode, layout.tab, line),
        ),
        None => Seq::empty(),
    }
}

/// What `lines` put into the output with columns and widths that are settled.
pub open spec fn render_lines(
    layout: Layout,
    sep: Seq<u8>,
    reg: Registry,
    widths: Seq<u32>,
    lines: Seq<Seq<u8>>,
) -> Seq<u8>
    decreases lines.len(),
{
    if lines.len() == 0 {
        Seq::empty()
    } else {
        render_lines(layout, sep, reg, widths, lines.drop_last()) + render_line(
            layout,
            sep,
            reg,
            widths,
            lines.last(),
        )
    }
}

/// The output of a run in two passes: all lines are classified, the widths
/// are settled, and then each line is rendered.
pub open spec fn two_pass_output(layout: Layout, sep: Seq<u8>, lines: Seq<Seq<u8>>) -> Seq<u8> {
    let reg = classify_all(layout, Registry::empty(), lines);
    render_lines(layout, sep, reg, final_widths(layout.mode, reg.widths), lines)
}

/// A line leaves the registry well formed and the columns that there are in
/// place; its tag has a column then.
pub proof fn lemma_classify_line_wf(layout: Layout, reg: Registry, line: Seq<u8>)
    requires
        reg.wf(),
    ensures
        classify_line(layout, reg, line).wf(),
        reg.tags.len() <= classify_line(layout, reg, line).tags.len(),
        forall|i: int|
            0 <= i < reg.tags.len() ==> classify_line(layout, reg, line).tags[i] == reg.tags[i],
        tag_of(layout.pattern, line) matches Some(tag) ==> classify_line(
            layout,
            reg,
            line,
        ).tags.contains(tag),
{
    match tag_of(layout.pattern, line) {
        Some(tag) => {
            lemma_classify_wf(reg, tag, candidate_width(layout.mode, layout.tab, line));
        },
        None => {},
    }
}

/// Classifying keeps the registry well formed, and keeps every column that
/// there is: the tags grow at the end only.
pub proof fn lemma_classify_all_wf(layout: Layout, reg: Registry, lines: Seq<Seq<u8>>)
    requires
        reg.wf(),
    ensures
        classify_all(layout, reg, lines).wf(),
        reg.tags.len() <= classify_all(layout, reg, lines).tags.len(),
        forall|i: int|
            0 <= i < reg.tags.len() ==> classify_all(layout, reg, lines).tags[i] == reg.tags[i],
    decreases lines.len(),
{
    if lines.len() > 0 {
        lemma_classify_all_wf(layout, reg, lines.drop_last());
        lemma_classify_line_wf(layout, classify_all(layout, reg, lines.drop_last()), lines.last());
    }
}

/// A tag keeps its column whatever is classified afterwards.
pub proof fn lemma_column_stable(layout: Layout, reg: Registry, lines: Seq<Seq<u8>>, tag: Seq<u8>)
    requires
        reg.wf(),
        reg.tags.contains(tag),
    ensures
        classify_all(layout, reg, lines).tags.contains(tag),
        classify_all(layout, reg, lines).column_of(tag) == reg.column_of(tag),
        0 <= reg.column_of(tag) < reg.tags.len(),
{
    lemma_classify_all_wf(layout, reg, lines);
    let after = classify_all(layout, reg, lines);
    reg.tags.index_of_first_ensures(tag);
    let c = reg.tags.index_of(tag);
    assert(reg.tags[c] == tag);
    assert(after.tags[c] == tag);
    after.tags.index_of_first_ensures(tag);
    let d = after.tags.index_of(tag);
    assert(after.tags[d] == tag);
}

/// To classify lines is to classify the first of them and then the rest.
pub proof fn lemma_classify_all_split(
    layout: Layout,
    reg: Registry,
    lines: Seq<Seq<u8>>,
    i: int,
)
    requires
        0 <= i <= lines.len(),
    ensures
        classify_all(layout, reg, lines) == classify_all(
            layout,
            classify_all(layout, reg, lines.take(i)),
            lines.skip(i),
        ),
    decreases lines.len() - i,
{
    if i == lines.len() {
        assert(lines.take(i) =~= lines);
        assert(lines.skip(i).len() == 0);
    } else {
        let rest = lines.skip(i);
        assert(rest.drop_last() =~= lines.drop_last().skip(i));
        assert(lines.drop_last().take(i) =~= lines.take(i));
        assert(rest.last() == lines.last());
        lemma_classify_all_split(layout, reg, lines.drop_last(), i);
    }
}

/// Once all lines are classified, the tag of each has a column.
pub proof fn lemma_tag_has_column(layout: Layout, lines: Seq<Seq<u8>>, i: int, tag: Seq<u8>)
    requires
        0 <= i < lines.len(),
        tag_of(layout.pattern, lines[i]) == Some(tag),
    ensures
        classify_all(layout, Registry::empty(), lines).tags.contains(tag),
        0 <= classify_all(layout, Registry::empty(), lines).column_of(tag) < classify_all(
            layout,
            Registry::empty(),
            lines,
        ).tags.len(),
        classify_all(layout, Registry::empty(), lines).column_of(tag) == classify_all(
            layout,
            Registry::empty(),
            lines.take(i + 1),
        ).column_of(tag),
{
    let start = Registry::empty();
    let upto = classify_all(layout, start, lines.take(i + 1));
    lemma_classify_all_wf(layout, start, lines.take(i));
    assert(lines.take(i + 1).drop_last() =~= lines.take(i));
    assert(lines.take(i + 1).last() == lines[i]);
    lemma_classify_line_wf(layout, classify_all(layout, start, lines.take(i)), lines[i]);
    lemma_classify_all_split(layout, start, lines, i + 1);
    lemma_column_stable(layout, upto, lines.skip(i + 1), tag);
}

/// One more line is classified on top of the lines before it.
pub proof fn lemma_classify_all_step(layout: Layout, reg: Registry, lines: Seq<Seq<u8>>, i: int)
    requires
        0 <= i < lines.len(),
    ensures
        classify_all(layout, reg, lines.take(i + 1)) == classify_line(
            layout,
            classify_all(layout, reg, lines.take(i)),
            lines[i],
        ),
{
    assert(lines.take(i + 1).drop_last() =~= lines.take(i));
}

/// One more line is rendered behind the lines before it.
pub proof fn lemma_render_lines_step(
    layout: Layout,
    sep: Seq<u8>,
    reg: Registry,
    widths: Seq<u32>,
    lines: Seq<Seq<u8>>,
    i: int,
)
    requires
        0 <= i < lines.len(),
    ensures
        render_lines(layout, sep, reg, widths, lines.take(i + 1)) == render_lines(
            layout,
            sep,
            reg,
            widths,
            lines.take(i),
        ) + render_line(layout, sep, reg, widths, lines[i]),
{
    assert(lines.take(i + 1).drop_last() =~= lines.take(i));
}

/// Classifies the lines at `spans`, in order.
fn classify_spans(tracker: &mut ColumnTracker, inputs: &[&[u8]], spans: &Vec<LineSpan>)
    requires
        old(tracker).wf(),
        old(tracker)@ == Registry::empty(),
        forall|i: int| 0 <= i < spans@.len() ==> (#[trigger] spans@[i]).valid(contents_of(inputs@)),
    ensures
        final(tracker).wf(),
        final(tracker).mode() == old(tracker).mode(),
        final(tracker).tab() == old(tracker).tab(),
        final(tracker).pattern() == old(tracker).pattern(),
        final(tracker)@ == classify_all(
            tracker_layout(old(tracker)),
            Registry::empty(),
            span_lines(contents_of(inputs@), spans@),
        ),
{
    let ghost lines = span_lines(contents_of(inputs@), spans@);
    let ghost layout = tracker_layout(tracker);
    let mut i: usize = 0;
    assert(lines.take(0) =~= Seq::<Seq<u8>>::empty());
    while i < spans.len()
        invariant
            i <= spans.len(),
            lines == span_lines(contents_of(inputs@), spans@),
            forall|k: int|
                0 <= k < spans@.len() ==> (#[trigger] spans@[k]).valid(contents_of(inputs@)),
            tracker.wf(),
            tracker.mode() == layout.mode,
            tracker.tab() == layout.tab,
            tracker.pattern() == layout.pattern,
            tracker.mode() == old(tracker).mode(),
            tracker.tab() == old(tracker).tab(),
            tracker.pattern() == old(tracker).pattern(),
            tracker@ == classify_all(layout, Registry::empty(), lines.take(i as int)),
        decreases spans.len() - i,
    {
        let line = spans[i].slice(inputs);
        assert(line@ == lines[i as int]);
        proof {
            lemma_classify_all_step(layout, Registry::empty(), lines, i as int);
        }
        tracker.process_line(line);
        i += 1;
    }
    assert(lines.take(i as int) =~= lines);
}

/// The layout that a tracker works to.
pub open spec fn tracker_layout(tracker: &ColumnTracker) -> Layout {
    Layout { mode: tracker.mode(), tab: tracker.tab(), pattern: tracker.pattern() }
}

/// Renders the lines at `spans` in two passes with a tracker and a printer
/// that have no columns yet. The lines are classified; then, with the widths
/// settled, they are classified once more, now to find for each its column,
/// and rendered.
pub fn render_two_pass_reread(
    tracker: ColumnTracker,
    printer: ColumnPrinter,
    inputs: &[&[u8]],
    spans: &Vec<LineSpan>,
) -> (out: Vec<u8>)
    requires
        tracker.wf(),
        tracker@ == Registry::empty(),
        printer.wf(),
        printer.tab() == tracker.tab(),
        forall|i: int| 0 <= i < spans@.len() ==> (#[trigger] spans@[i]).valid(contents_of(inputs@)),
    ensures
        out@ == two_pass_output(
            tracker_layout(&tracker),
            printer.separator(),
            span_lines(contents_of(inputs@), spans@),
        ),
{
    let mut tracker = tracker;
    let mut printer = printer;
    let ghost lines = span_lines(contents_of(inputs@), spans@);
    let ghost layout = tracker_layout(&tracker);
    let ghost sep = printer.separator();

    // The first pass finds the columns.
    classify_spans(&mut tracker, inputs, spans);
    let ghost reg = tracker@;
    printer.set_column_widths(tracker.final_column_widths());
    let ghost widths = printer.widths();
    proof {
        lemma_classify_all_wf(layout, Registry::empty(), lines);
    }

    // The second pass puts each line into its column.
    let mut out: Vec<u8> = Vec::new();
    let mut i: usize = 0;
    assert(lines.take(0) =~= Seq::<Seq<u8>>::empty());
    while i < spans.len()
        invariant
            i <= spans.len(),
            lines == span_lines(contents_of(inputs@), spans@),
            forall|k: int|
                0 <= k < spans@.len() ==> (#[trigger] spans@[k]).valid(contents_of(inputs@)),
            reg == classify_all(layout, Registry::empty(), lines),
            reg.wf(),
            widths.len() == reg.tags.len(),
            tracker.wf(),
            tracker_layout(&tracker) == layout,
            tracker@.tags == reg.tags,
            printer.wf(),
            printer.tab() == layout.tab,
            printer.separator() == sep,
            printer.widths() == widths,
            out@ == render_lines(layout, sep, reg, widths, lines.take(i as int)),
        decreases spans.len() - i,
    {
        let line = spans[i].slice(inputs);
        assert(line@ == lines[i as int]);
        proof {
            lemma_render_lines_step(layout, sep, reg, widths, lines, i as int);
            tracker.lemma_wf();
            assert(out@ + Seq::<u8>::empty() =~= out@);
            match tag_of(layout.pattern, line@) {
                Some(tag) => {
                    lemma_tag_has_column(layout, lines, i as int, tag);
                    lemma_classify_wf(
                        tracker@,
                        tag,
                        candidate_width(layout.mode, layout.tab, line@),
                    );
                },
                None => {},
            }
        }
        match tracker.process_line(line) {
            Some((column, grapheme_count)) => {
                printer.print_in_column(line, column, grapheme_count, &mut out);
            },
            None => {},
        }
        i += 1;
    }
    assert(lines.take(i as int) =~= lines);
    out
}

/// A line with the column it belongs in, and its width where it is known.
pub struct Placed {
    pub line: Seq<u8>,
    pub column: int,
    pub width: Option<u32>,
}

/// What is kept of a line between the two passes: where it lies, its
/// column, and its width as far as classifying it has measured it.
pub struct LineRecord {
    pub span: LineSpan,
    pub column: usize,
    pub width: Option<u32>,
}

impl LineRecord {
    /// The line that the record stands for.
    pub open spec fn placed(self, contents: Seq<Seq<u8>>) -> Placed {
        Placed { line: self.span.line(contents), column: self.column as int, width: self.width }
    }
}

/// The lines that the records stand for.
pub open spec fn records_placed(contents: Seq<Seq<u8>>, records: Seq<LineRecord>) -> Seq<Placed> {
    Seq::new(records.len(), |i: int| records[i].placed(contents))
}

/// The lines that have a tag, each with its column in `reg`.
pub open spec fn placed_lines(layout: Layout, reg: Registry, lines: Seq<Seq<u8>>) -> Seq<Placed>
    decreases lines.len(),
{
    if lines.len() == 0 {
        Seq::empty()
    } else {
        let before = placed_lines(layout, reg, lines.drop_last());
        match tag_of(layout.pattern, lines.last()) {
            Some(tag) => before.push(
                Placed {
                    line: lines.last(),
                    column: reg.column_of(tag),
                    width: known_width(layout.mode, layout.tab, lines.last()),
                },
            ),
            None => before,
        }
    }
}

/// The rows of the placed lines, in order.
pub open spec fn render_placed(
    sep: Seq<u8>,
    tab: UnweaveTab,
    widths: Seq<u32>,
    placed: Seq<Placed>,
) -> Seq<u8>
    decreases placed.len(),
{
    if placed.len() == 0 {
        Seq::empty()
    } else {
        render_placed(sep, tab, widths, placed.drop_last()) + rendered(
            widths,
            sep,
            tab,
            placed.last().line,
            placed.last().column,
            placed.last().width,
        )
    }
}

/// To render the placed lines is to render the lines.
pub proof fn lemma_render_placed(
    layout: Layout,
    sep: Seq<u8>,
    reg: Registry,
    widths: Seq<u32>,
    lines: Seq<Seq<u8>>,
)
    ensures
        render_placed(sep, layout.tab, widths, placed_lines(layout, reg, lines)) == render_lines(
            layout,
            sep,
            reg,
            widths,
            lines,
        ),
    decreases lines.len(),
{
    if lines.len() > 0 {
        lemma_render_placed(layout, sep, reg, widths, lines.drop_last());
        let before = placed_lines(layout, reg, lines.drop_last());
        match tag_of(layout.pattern, lines.last()) {
            Some(tag) => {
                let p = Placed {
                    line: lines.last(),
                    column: reg.column_of(tag),
                    width: known_width(layout.mode, layout.tab, lines.last()),
                };
                assert(before.push(p).drop_last() =~= before);
            },
            None => {
                assert(render_lines(layout, sep, reg, widths, lines.drop_last()) + Seq::<
                    u8,
                >::empty() =~= render_lines(layout, sep, reg, widths, lines.drop_last()));
            },
        }
    }
}

/// Lines keep their columns where the registry grows.
pub proof fn lemma_placed_stable(
    layout: Layout,
    reg: Registry,
    grown: Registry,
    lines: Seq<Seq<u8>>,
)
    requires
        reg.wf(),
        grown.wf(),
        reg.tags.len() <= grown.tags.len(),
        forall|i: int| 0 <= i < reg.tags.len() ==> grown.tags[i] == reg.tags[i],
        forall|j: int|
            0 <= j < lines.len() ==> (tag_of(layout.pattern, #[trigger] lines[j]) matches Some(tag)
                ==> reg.tags.contains(tag)),
    ensures
        placed_lines(layout, grown, lines) == placed_lines(layout, reg, lines),
    decreases lines.len(),
{
    if lines.len() > 0 {
        let front = lines.drop_last();
        assert forall|j: int| 0 <= j < front.len() implies (tag_of(
            layout.pattern,
            #[trigger] front[j],
        ) matches Some(tag) ==> reg.tags.contains(tag)) by {
            assert(front[j] == lines[j]);
        }
        lemma_placed_stable(layout, reg, grown, front);
        assert(lines.last() == lines[lines.len() - 1]);
        match tag_of(layout.pattern, lines.last()) {
            Some(tag) => {
                reg.tags.index_of_first_ensures(tag);
                let c = reg.tags.index_of(tag);
                assert(reg.tags[c] == tag);
                assert(grown.tags[c] == tag);
                grown.tags.index_of_first_ensures(tag);
                let d = grown.tags.index_of(tag);
                assert(grown.tags[d] == tag);
            },
            None => {},
        }
    }
}

/// Renders the lines at `spans` in two passes with a tracker and a printer
/// that have no columns yet. The first pass classifies the lines and keeps
/// for each line with a tag where it lies, its column and its width; the
/// second renders from what was kept, with the widths settled.
pub fn render_two_pass_cached(
    tracker: ColumnTracker,
    printer: ColumnPrinter,
    inputs: &[&[u8]],
    spans: &Vec<LineSpan>,
) -> (out: Vec<u8>)
    requires
        tracker.wf(),
        tracker@ == Registry::empty(),
        printer.wf(),
        printer.tab() == tracker.tab(),
        forall|i: int| 0 <= i < spans@.len() ==> (#[trigger] spans@[i]).valid(contents_of(inputs@)),
    ensures
        out@ == two_pass_output(
            tracker_layout(&tracker),
            printer.separator(),
            span_lines(contents_of(inputs@), spans@),
        ),
{
    let mut tracker = tracker;
    let mut printer = printer;
    let ghost contents = contents_of(inputs@);
    let ghost lines = span_lines(contents, spans@);
    let ghost layout = tracker_layout(&tracker);
    let ghost sep = printer.separator();
    let ghost start = Registry::empty();

    // The first pass finds the columns, and keeps what the second needs.
    let mut records: Vec<LineRecord> = Vec::new();
    let mut i: usize = 0;
    proof {
        assert(lines.take(0) =~= Seq::<Seq<u8>>::empty());
        assert(records_placed(contents, records@) =~= placed_lines(layout, tracker@, lines.take(0)));
    }
    while i < spans.len()
        invariant
            i <= spans.len(),
            contents == contents_of(inputs@),
            lines == span_lines(contents, spans@),
            forall|k: int| 0 <= k < spans@.len() ==> (#[trigger] spans@[k]).valid(contents),
            start == Registry::empty(),
            tracker.wf(),
            tracker_layout(&tracker) == layout,
            tracker@ == classify_all(layout, start, lines.take(i as int)),
            records_placed(contents, records@) == placed_lines(
                layout,
                tracker@,
                lines.take(i as int),
            ),
            forall|r: int|
                0 <= r < records@.len() ==> (#[trigger] records@[r]).span.valid(contents)
                    && records@[r].column < tracker@.tags.len(),
        decreases spans.len() - i,
    {
        let span = spans[i];
        let line = span.slice(inputs);
        assert(line@ == lines[i as int]);
        let ghost reg = tracker@;
        let ghost kept = records@;
        proof {
            let seen = lines.take(i as int);
            let next = lines.take(i + 1);
            tracker.lemma_wf();
            lemma_classify_all_step(layout, start, lines, i as int);
            lemma_classify_line_wf(layout, reg, line@);
            assert(next.drop_last() =~= seen);
            assert forall|j: int| 0 <= j < seen.len() implies (tag_of(
                layout.pattern,
                #[trigger] seen[j],
            ) matches Some(tag) ==> reg.tags.contains(tag)) by {
                if let Some(tag) = tag_of(layout.pattern, seen[j]) {
                    lemma_tag_has_column(layout, seen, j, tag);
                }
            }
            lemma_placed_stable(layout, reg, classify_line(layout, reg, line@), seen);
            if let Some(tag) = tag_of(layout.pattern, line@) {
                lemma_classify_wf(reg, tag, candidate_width(layout.mode, layout.tab, line@));
            }
        }
        match tracker.process_line(line) {
            Some((column, grapheme_count)) => {
                records.push(LineRecord { span, column, width: grapheme_count });
                proof {
                    tracker.lemma_wf();
                    assert(records_placed(contents, records@) =~= records_placed(
                        contents,
                        kept,
                    ).push(records@[kept.len() as int].placed(contents)));
                }
            },
            None => {},
        }
        i += 1;
    }
    assert(lines.take(i as int) =~= lines);
    let ghost reg = tracker@;
    proof {
        tracker.lemma_wf();
    }
    printer.set_column_widths(tracker.final_column_widths());
    let ghost widths = printer.widths();
    let ghost placed = records_placed(contents, records@);
    proof {
        assert(widths.len() == reg.tags.len());
        lemma_render_placed(layout, sep, reg, widths, lines);
        assert(placed.take(0) =~= Seq::<Placed>::empty());
    }

    // The second pass renders from what was kept.
    let mut out: Vec<u8> = Vec::new();
    let mut j: usize = 0;
    while j < records.len()
        invariant
            j <= records.len(),
            contents == contents_of(inputs@),
            placed == records_placed(contents, records@),
            forall|r: int|
                0 <= r < records@.len() ==> (#[trigger] records@[r]).span.valid(contents)
                    && records@[r].column < widths.len(),
            printer.wf(),
            printer.tab() == layout.tab,
            printer.separator() == sep,
            printer.widths() == widths,
            out@ == render_placed(sep, layout.tab, widths, placed.take(j as int)),
        decreases records.len() - j,
    {
        let record = &records[j];
        let line = record.span.slice(inputs);
        proof {
            assert(placed.take(j + 1).drop_last() =~= placed.take(j as int));
            assert(placed.take(j + 1).last() == records@[j as int].placed(contents));
        }
        printer.print_in_column(line, record.column, record.width, &mut out);
        j += 1;
    }
    assert(placed.take(j as int) =~= placed);
    out
}

/// The widths that the printer of a single pass renders with after
/// `lines`: those that the registry held when the last column appeared.
pub open spec fn stream_widths(layout: Layout, lines: Seq<Seq<u8>>) -> Seq<u32>
    decreases lines.len(),
{
    if lines.len() == 0 {
        Seq::empty()
    } else {
        let before = classify_all(layout, Registry::empty(), lines.drop_last());
        let reg = classify_line(layout, before, lines.last());
        if reg.tags.len() > before.tags.len() {
            reg.widths
        } else {
            stream_widths(layout, lines.drop_last())
        }
    }
}

/// The output of a run in a single pass: each line is classified and
/// rendered at once, with the columns and widths known by then.
pub open spec fn single_pass_output(layout: Layout, sep: Seq<u8>, lines: Seq<Seq<u8>>) -> Seq<u8>
    decreases lines.len(),
{
    if lines.len() == 0 {
        Seq::empty()
    } else {
        single_pass_output(layout, sep, lines.drop_last()) + render_line(
            layout,
            sep,
            classify_all(layout, Registry::empty(), lines),
            stream_widths(layout, lines),
            lines.last(),
        )
    }
}

/// Renders the lines at `spans` in one pass with a tracker and a printer
/// that have no columns yet: each line is classified and rendered at once.
pub fn render_single_pass(
    tracker: ColumnTracker,
    printer: ColumnPrinter,
    inputs: &[&[u8]],
    spans: &Vec<LineSpan>,
) -> (out: Vec<u8>)
    requires
        tracker.wf(),
        tracker@ == Registry::empty(),
        printer.wf(),
        printer.widths().len() == 0,
        printer.tab() == tracker.tab(),
        forall|i: int| 0 <= i < spans@.len() ==> (#[trigger] spans@[i]).valid(contents_of(inputs@)),
    ensures
        out@ == single_pass_output(
            tracker_layout(&tracker),
            printer.separator(),
            span_lines(contents_of(inputs@), spans@),
        ),
{
    let mut tracker = tracker;
    let mut printer = printer;
    let ghost lines = span_lines(contents_of(inputs@), spans@);
    let ghost layout = tracker_layout(&tracker);
    let ghost sep = printer.separator();
    let ghost start = Registry::empty();
    let mut out: Vec<u8> = Vec::new();
    let mut i: usize = 0;
    proof {
        assert(lines.take(0) =~= Seq::<Seq<u8>>::empty());
        assert(printer.widths() =~= stream_widths(layout, lines.take(0)));
    }
    while i < spans.len()
        invariant
            i <= spans.len(),
            lines == span_lines(contents_of(inputs@), spans@),
            forall|k: int|
                0 <= k < spans@.len() ==> (#[trigger] spans@[k]).valid(contents_of(inputs@)),
            start == Registry::empty(),
            tracker.wf(),
            tracker_layout(&tracker) == layout,
            tracker@ == classify_all(layout, start, lines.take(i as int)),
            printer.wf(),
            printer.tab() == layout.tab,
            printer.separator() == sep,
            printer.widths() == stream_widths(layout, lines.take(i as int)),
            printer.widths().len() == tracker@.tags.len(),
            out@ == single_pass_output(layout, sep, lines.take(i as int)),
        decreases spans.len() - i,
    {
        let line = spans[i].slice(inputs);
        assert(line@ == lines[i as int]);
        proof {
            tracker.lemma_wf();
            lemma_classify_all_step(layout, start, lines, i as int);
            lemma_classify_line_wf(layout, tracker@, line@);
            assert(lines.take(i + 1).drop_last() =~= lines.take(i as int));
            assert(out@ + Seq::<u8>::empty() =~= out@);
            if let Some(tag) = tag_of(layout.pattern, line@) {
                lemma_classify_wf(tracker@, tag, candidate_width(layout.mode, layout.tab, line@));
            }
        }
        match tracker.process_line_with_column_printer(line, Some(&mut printer)) {
            Some((column, grapheme_count)) => {
                proof {
                    tracker.lemma_wf();
                }
                printer.print_in_column(line, column, grapheme_count, &mut out);
            },
            None => {},
        }
        i += 1;
    }
    assert(lines.take(i as int) =~= lines);
    out
}

/// A single pass renders as two passes do where the columns all have the
/// one width that the options give, and nothing stands between them.
pub open spec fn single_pass_eligible(opts: &UnweaveOptionsColumns) -> bool {
    opts.column_separator is None && opts.width is Column
}

/// Whether a single pass renders as two passes do.
pub fn single_pass_eligible_exec(opts: &UnweaveOptionsColumns) -> (r: bool)
    ensures
        r == single_pass_eligible(opts),
{
    opts.column_separator.is_none() && opts.width.is_column()
}

/// Unweaves `inputs` into columns in a single pass over the lines.
///
/// Succeeds unless the regular expression engine refuses the pattern; then
/// the error holds the engine's words.
pub fn unweave_into_columns_single_pass(opts: &UnweaveOptionsColumns, inputs: &[&[u8]]) -> (r:
    Result<Vec<u8>, UnweaveError>)
    requires
        opts.tab.well_formed(),
    ensures
        match r {
            Ok(out) => regex_refusal(opts.pattern@) is None && out@ == single_pass_output(
                opts.layout(),
                opts.separator(),
                all_lines(contents_of(inputs@)),
            ),
            Err(e) => refuses(opts.pattern@, e),
        },
{
    let printer = ColumnPrinter::new(opts);
    match ColumnTracker::new(opts) {
        Ok(tracker) => {
            let spans = line_spans(inputs);
            Ok(render_single_pass(tracker, printer, inputs, &spans))
        },
        Err(e) => Err(e),
    }
}

/// Unweaves `inputs` into columns in two passes, the second of which works
/// from what the first has kept of each line.
///
/// Succeeds unless the regular expression engine refuses the pattern; then
/// the error holds the engine's words.
pub fn unweave_into_columns_two_pass_cached(opts: &UnweaveOptionsColumns, inputs: &[&[u8]]) -> (r:
    Result<Vec<u8>, UnweaveError>)
    requires
        opts.tab.well_formed(),
    ensures
        match r {
            Ok(out) => regex_refusal(opts.pattern@) is None && out@ == two_pass_output(
                opts.layout(),
                opts.separator(),
                all_lines(contents_of(inputs@)),
            ),
            Err(e) => refuses(opts.pattern@, e),
        },
{
    let printer = ColumnPrinter::new(opts);
    match ColumnTracker::new(opts) {
        Ok(tracker) => {
            let spans = line_spans(inputs);
            Ok(render_two_pass_cached(tracker, printer, inputs, &spans))
        },
        Err(e) => Err(e),
    }
}

/// Unweaves `inputs` into columns in two passes, the second of which
/// classifies every line again.
///
/// Succeeds unless the regular expression engine refuses the pattern; then
/// the error holds the engine's words.
pub fn unweave_into_columns_two_pass_reread(opts: &UnweaveOptionsColumns, inputs: &[&[u8]]) -> (r:
    Result<Vec<u8>, UnweaveError>)
    requires
        opts.tab.well_formed(),
    ensures
        match r {
            Ok(out) => regex_refusal(opts.pattern@) is None && out@ == two_pass_output(
                opts.layout(),
                opts.separator(),
                all_lines(contents_of(inputs@)),
            ),
            Err(e) => refuses(opts.pattern@, e),
        },
{
    let printer = ColumnPrinter::new(opts);
    match ColumnTracker::new(opts) {
        Ok(tracker) => {
            let spans = line_spans(inputs);
            Ok(render_two_pass_reread(tracker, printer, inputs, &spans))
        },
        Err(e) => Err(e),
    }
}

/// Where the options give the width of the columns, every column has that
/// width from the start, and a printer that is told the widths whenever a
/// column appears always holds the widths of the registry.
pub proof fn lemma_column_mode_widths(layout: Layout, lines: Seq<Seq<u8>>)
    requires
        layout.mode is Column,
    ensures
        forall|c: int|
            0 <= c < classify_all(layout, Registry::empty(), lines).widths.len() ==> classify_all(
                layout,
                Registry::empty(),
                lines,
            ).widths[c] == layout.mode->Column_0,
        stream_widths(layout, lines) == classify_all(layout, Registry::empty(), lines).widths,
    decreases lines.len(),
{
    if lines.len() > 0 {
        lemma_column_mode_widths(layout, lines.drop_last());
        lemma_classify_all_wf(layout, Registry::empty(), lines.drop_last());
        let before = classify_all(layout, Registry::empty(), lines.drop_last());
        let reg = classify_line(layout, before, lines.last());
        match tag_of(layout.pattern, lines.last()) {
            Some(tag) => {
                lemma_classify_wf(
                    before,
                    tag,
                    candidate_width(layout.mode, layout.tab, lines.last()),
                );
                if before.tags.contains(tag) {
                    assert(reg.widths =~= before.widths);
                }
            },
            None => {},
        }
    }
}

/// A single pass over `lines` renders what is rendered once more lines have
/// been classified, where all columns have the one width and nothing stands
/// between them.
pub proof fn lemma_single_pass_prefix(
    layout: Layout,
    lines: Seq<Seq<u8>>,
    reg: Registry,
    widths: Seq<u32>,
)
    requires
        layout.mode is Column,
        reg.wf(),
        widths.len() == reg.tags.len(),
        forall|c: int| 0 <= c < widths.len() ==> widths[c] == layout.mode->Column_0,
        classify_all(layout, Registry::empty(), lines).tags.len() <= reg.tags.len(),
        forall|c: int|
            0 <= c < classify_all(layout, Registry::empty(), lines).tags.len() ==> reg.tags[c]
                == classify_all(layout, Registry::empty(), lines).tags[c],
    ensures
        single_pass_output(layout, Seq::empty(), lines) == render_lines(
            layout,
            Seq::empty(),
            reg,
            widths,
            lines,
        ),
    decreases lines.len(),
{
    if lines.len() > 0 {
        let start = Registry::empty();
        let front = lines.drop_last();
        let before = classify_all(layout, start, front);
        let here = classify_all(layout, start, lines);
        lemma_classify_all_wf(layout, start, front);
        lemma_classify_line_wf(layout, before, lines.last());
        lemma_single_pass_prefix(layout, front, reg, widths);
        lemma_column_mode_widths(layout, lines);
        match tag_of(layout.pattern, lines.last()) {
            Some(tag) => {
                here.tags.index_of_first_ensures(tag);
                let c = here.tags.index_of(tag);
                assert(here.tags[c] == tag);
                assert(reg.tags[c] == tag);
                reg.tags.index_of_first_ensures(tag);
                let d = reg.tags.index_of(tag);
                assert(reg.tags[d] == tag);
                assert(c == d);
                lemma_rendered_without_separator(
                    stream_widths(layout, lines),
                    widths,
                    layout.tab,
                    lines.last(),
                    c,
                    known_width(layout.mode, layout.tab, lines.last()),
                );
            },
            None => {},
        }
    }
}

/// With one width for all columns and nothing between them, a single pass
/// and two passes put out the same bytes, whatever the lines.
pub proof fn lemma_single_pass_equals_two_pass(layout: Layout, lines: Seq<Seq<u8>>)
    requires
        layout.mode is Column,
    ensures
        single_pass_output(layout, Seq::empty(), lines) == two_pass_output(
            layout,
            Seq::empty(),
            lines,
        ),
{
    let reg = classify_all(layout, Registry::empty(), lines);
    lemma_classify_all_wf(layout, Registry::empty(), lines);
    lemma_column_mode_widths(layout, lines);
    lemma_single_pass_prefix(layout, lines, reg, final_widths(layout.mode, reg.widths));
}

/// Where a single pass is chosen it puts out what two passes would.
pub proof fn lemma_strategies_agree(opts: &UnweaveOptionsColumns, lines: Seq<Seq<u8>>)
    requires
        single_pass_eligible(opts),
    ensures
        single_pass_output(opts.layout(), opts.separator(), lines) == two_pass_output(
            opts.layout(),
            opts.separator(),
            lines,
        ),
{
    lemma_single_pass_equals_two_pass(opts.layout(), lines);
}

/// The tags of `lines`, each once, in the order in which they first appear.
pub open spec fn first_seen(pattern: Seq<char>, lines: Seq<Seq<u8>>) -> Seq<Seq<u8>>
    decreases lines.len(),
{
    if lines.len() == 0 {
        Seq::empty()
    } else {
        let before = first_seen(pattern, lines.drop_last());
        match tag_of(pattern, lines.last()) {
            Some(tag) if !before.contains(tag) => before.push(tag),
            _ => before,
        }
    }
}

/// The columns are the tags in the order of their first appearance: the
/// column of a tag is decided by the pattern and the lines alone, whatever
/// the width mode and the tab policy.
pub proof fn lemma_columns_by_first_appearance(layout: Layout, lines: Seq<Seq<u8>>)
    ensures
        classify_all(layout, Registry::empty(), lines).tags == first_seen(layout.pattern, lines),
    decreases lines.len(),
{
    if lines.len() > 0 {
        lemma_columns_by_first_appearance(layout, lines.drop_last());
    }
}

/// `width` is the largest width among the lines with `tag`.
pub open spec fn is_widest(
    layout: Layout,
    lines: Seq<Seq<u8>>,
    tag: Seq<u8>,
    width: nat,
) -> bool {
    &&& forall|j: int|
        0 <= j < lines.len() && tag_of(layout.pattern, #[trigger] lines[j]) == Some(tag)
            ==> line_width(lines[j], layout.tab) <= width
    &&& exists|j: int|
        0 <= j < lines.len() && tag_of(layout.pattern, #[trigger] lines[j]) == Some(tag)
            && line_width(lines[j], layout.tab) == width
}

/// Where no width is given, the width of a column is in the end the largest
/// measured width among the lines of that column.
pub proof fn lemma_undefined_width_is_widest(layout: Layout, lines: Seq<Seq<u8>>, c: int)
    requires
        layout.mode is Undefined,
        lines_fit(lines, layout.tab),
        0 <= c < classify_all(layout, Registry::empty(), lines).tags.len(),
    ensures
        classify_all(layout, Registry::empty(), lines).wf(),
        is_widest(
            layout,
            lines,
            classify_all(layout, Registry::empty(), lines).tags[c],
            classify_all(layout, Registry::empty(), lines).widths[c] as nat,
        ),
        final_widths(layout.mode, classify_all(layout, Registry::empty(), lines).widths)
            == classify_all(layout, Registry::empty(), lines).widths,
    decreases lines.len(),
{
    let start = Registry::empty();
    lemma_classify_all_wf(layout, start, lines);
    if lines.len() > 0 {
        let front = lines.drop_last();
        let last = lines.last();
        let n = front.len() as int;
        let before = classify_all(layout, start, front);
        let reg = classify_all(layout, start, lines);
        let tag = reg.tags[c];
        lemma_classify_all_wf(layout, start, front);
        lemma_classify_line_wf(layout, before, last);
        assert(lines_fit(front, layout.tab)) by {
            assert forall|j: int| 0 <= j < front.len() implies line_width(
                #[trigger] front[j],
                layout.tab,
            ) <= u32::MAX by {
                assert(front[j] == lines[j]);
            }
        }
        assert(last == lines[n]);
        let measured = line_width(last, layout.tab);
        assert(candidate_width(layout.mode, layout.tab, last) == measured);
        if c < before.tags.len() {
            lemma_undefined_width_is_widest(layout, front, c);
            assert(before.tags[c] == tag);
            let old_width = before.widths[c] as nat;
            let j0 = choose|j: int|
                0 <= j < front.len() && tag_of(layout.pattern, #[trigger] front[j]) == Some(tag)
                    && line_width(front[j], layout.tab) == old_width;
            assert(front[j0] == lines[j0]);
            if tag_of(layout.pattern, last) == Some(tag) {
                lemma_classify_wf(before, tag, measured as u32);
                before.tags.index_of_first_ensures(tag);
                assert(before.tags[before.column_of(tag)] == tag);
                assert(before.column_of(tag) == c);
                let width = reg.widths[c] as nat;
                assert(width == if old_width >= measured {
                    old_width
                } else {
                    measured
                });
                assert forall|j: int|
                    0 <= j < lines.len() && tag_of(layout.pattern, #[trigger] lines[j]) == Some(
                        tag,
                    ) implies line_width(lines[j], layout.tab) <= width by {
                    if j < n {
                        assert(front[j] == lines[j]);
                    }
                }
                if old_width >= measured {
                    assert(tag_of(layout.pattern, lines[j0]) == Some(tag) && line_width(
                        lines[j0],
                        layout.tab,
                    ) == width);
                } else {
                    assert(tag_of(layout.pattern, lines[n]) == Some(tag) && line_width(
                        lines[n],
                        layout.tab,
                    ) == width);
                }
            } else {
                match tag_of(layout.pattern, last) {
                    Some(other) => {
                        lemma_classify_wf(before, other, measured as u32);
                        if before.tags.contains(other) {
                            before.tags.index_of_first_ensures(other);
                            assert(before.tags[before.column_of(other)] == other);
                        }
                    },
                    None => {},
                }
                assert(reg.widths[c] == before.widths[c]);
                assert forall|j: int|
                    0 <= j < lines.len() && tag_of(layout.pattern, #[trigger] lines[j]) == Some(
                        tag,
                    ) implies line_width(lines[j], layout.tab) <= old_width by {
                    if j < n {
                        assert(front[j] == lines[j]);
                    }
                }
                assert(tag_of(layout.pattern, lines[j0]) == Some(tag) && line_width(
                    lines[j0],
                    layout.tab,
                ) == old_width);
            }
        } else {
            // The column is new with the last line.
            assert(tag_of(layout.pattern, last) == Some(tag) && !before.tags.contains(tag)) by {
                match tag_of(layout.pattern, last) {
                    Some(other) => {
                        lemma_classify_wf(before, other, measured as u32);
                    },
                    None => {},
                }
            }
            assert(reg.widths[c] == measured);
            assert forall|j: int|
                0 <= j < lines.len() && tag_of(layout.pattern, #[trigger] lines[j]) == Some(
                    tag,
                ) implies line_width(lines[j], layout.tab) <= measured by {
                if j < n {
                    assert(front[j] == lines[j]);
                    lemma_tag_has_column(layout, front, j, tag);
                }
            }
            assert(tag_of(layout.pattern, lines[n]) == Some(tag) && line_width(
                lines[n],
                layout.tab,
            ) == measured);
        }
    }
}

/// Unweaves `inputs` into columns, one column for each stream: in a single
/// pass where that renders as two passes do, and else in two passes, in the
/// way that the options ask for.
///
/// Whichever way is taken, what comes out is what two passes put out. The
/// run succeeds unless the regular expression engine refuses the pattern;
/// then the error holds the engine's words.
pub fn unweave_into_columns(opts: &UnweaveOptionsColumns, inputs: &[&[u8]]) -> (r: Result<
    Vec<u8>,
    UnweaveError,
>)
    requires
        opts.tab.well_formed(),
    ensures
        match r {
            Ok(out) => {
                &&& regex_refusal(opts.pattern@) is None
                &&& out@ == two_pass_output(
                    opts.layout(),
                    opts.separator(),
                    all_lines(contents_of(inputs@)),
                )
                &&& single_pass_eligible(opts) ==> out@ == single_pass_output(
                    opts.layout(),
                    opts.separator(),
                    all_lines(contents_of(inputs@)),
                )
            },
            Err(e) => refuses(opts.pattern@, e),
        },
{
    if single_pass_eligible_exec(opts) {
        proof {
            lemma_strategies_agree(opts, all_lines(contents_of(inputs@)));
        }
        return unweave_into_columns_single_pass(opts, inputs);
    }
    match opts.two_pass {
        UnweaveTwoPass::Cached => unweave_into_columns_two_pass_cached(opts, inputs),
        UnweaveTwoPass::Reread => unweave_into_columns_two_pass_reread(opts, inputs),
    }
}

/// However many lines are classified, a column keeps its tag and gets no
/// narrower.
pub proof fn lemma_classify_all_widths_grow(
    layout: Layout,
    reg: Registry,
    lines: Seq<Seq<u8>>,
    c: int,
)
    requires
        reg.wf(),
        0 <= c < reg.tags.len(),
    ensures
        classify_all(layout, reg, lines).wf(),
        c < classify_all(layout, reg, lines).tags.len(),
        classify_all(layout, reg, lines).tags[c] == reg.tags[c],
        classify_all(layout, reg, lines).widths[c] >= reg.widths[c],
    decreases lines.len(),
{
    lemma_classify_all_wf(layout, reg, lines);
    if lines.len() > 0 {
        let before = classify_all(layout, reg, lines.drop_last());
        lemma_classify_all_widths_grow(layout, reg, lines.drop_last(), c);
        match tag_of(layout.pattern, lines.last()) {
            Some(tag) => {
                lemma_classify_widths_grow(
                    before,
                    tag,
                    candidate_width(layout.mode, layout.tab, lines.last()),
                    c,
                );
            },
            None => {},
        }
    }
}

/// Lines whose tags have their columns, and which ask for no more than the
/// columns have, change nothing, however many they are. So it is where the
/// lines are classified a second time with the widths settled by the
/// options: the columns and their widths stay as they are.
pub proof fn lemma_classify_all_settled(layout: Layout, reg: Registry, lines: Seq<Seq<u8>>)
    requires
        reg.wf(),
        forall|j: int|
            0 <= j < lines.len() ==> (tag_of(layout.pattern, #[trigger] lines[j]) matches Some(tag)
                ==> reg.tags.contains(tag) && candidate_width(layout.mode, layout.tab, lines[j])
                <= reg.widths[reg.column_of(tag)]),
    ensures
        classify_all(layout, reg, lines) == reg,
    decreases lines.len(),
{
    if lines.len() > 0 {
        let front = lines.drop_last();
        assert forall|j: int| 0 <= j < front.len() implies (tag_of(
            layout.pattern,
            #[trigger] front[j],
        ) matches Some(tag) ==> reg.tags.contains(tag) && candidate_width(
            layout.mode,
            layout.tab,
            front[j],
        ) <= reg.widths[reg.column_of(tag)]) by {
            assert(front[j] == lines[j]);
        }
        lemma_classify_all_settled(layout, reg, front);
        assert(lines.last() == lines[lines.len() - 1]);
        match tag_of(layout.pattern, lines.last()) {
            Some(tag) => {
                lemma_classify_settled(
                    reg,
                    tag,
                    candidate_width(layout.mode, layout.tab, lines.last()),
                );
            },
            None => {},
        }
    }
}

} // verus!
