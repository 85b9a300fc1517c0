//! Cutting a line of bytes into cells: the units in which width is counted
//! and at which a line may be wrapped.
//!
//! A line that is ASCII throughout has one cell per byte. Any other line is
//! read as UTF-8: each maximal valid span is cut into extended grapheme
//! clusters, and the bytes of each invalid sequence in between are one cell
//! each.

use vstd::prelude::*;
use vstd::string::StringSliceAdditionalSpecFns;
use vstd::utf8::{decode_utf8, valid_utf8};
use vstd::slice::slice_subrange;
use crate::UnweaveTab;

verus! {

/// The byte offsets at which the extended grapheme clusters of a text
/// start. Stands for what
/// `unicode_segmentation::UnicodeSegmentation::grapheme_indices` yields.
pub uninterp spec fn grapheme_starts(text: Seq<char>) -> Seq<usize>;

/// The length of the invalid sequence that stops UTF-8 validation of `bytes`,
/// or `None` where validation stops because the input ends inside a
/// character. Stands for what `core::str::Utf8Error::error_len` returns for
/// the error of `core::str::from_utf8`.
pub uninterp spec fn utf8_error_len(bytes: Seq<u8>) -> Option<usize>;

/// Where validation of a byte sequence stopped, and on how many bytes.
pub struct Utf8Fault {
    pub valid_up_to: usize,
    pub error_len: Option<usize>,
}

/// `starts` cuts a text of `len` bytes into consecutive pieces, none empty.
pub open spec fn starts_partition(starts: Seq<usize>, len: nat) -> bool {
    &&& (starts.len() == 0 <==> len == 0)
    &&& starts.len() > 0 ==> starts[0] == 0
    &&& forall|i: int, j: int| 0 <= i < j < starts.len() ==> starts[i] < starts[j]
    &&& forall|i: int| 0 <= i < starts.len() ==> #[trigger] starts[i] < len
}

/// `breaks` holds the end offset of each cell of a line of `len` bytes: the
/// cells are consecutive, none is empty, and together they are the line.
pub open spec fn breaks_partition(breaks: Seq<int>, len: int) -> bool {
    &&& (breaks.len() == 0 <==> len == 0)
    &&& forall|i: int| 0 <= i < breaks.len() ==> 0 < #[trigger] breaks[i] <= len
    &&& forall|i: int, j: int| 0 <= i < j < breaks.len() ==> breaks[i] < breaks[j]
    &&& breaks.len() > 0 ==> breaks[breaks.len() - 1] == len
}

/// One cell per byte, for the bytes from `from` up to `to`.
pub open spec fn byte_breaks(from: int, to: int) -> Seq<int> {
    Seq::new((to - from) as nat, |i: int| from + i + 1)
}

/// The same cells, seen from `by` bytes earlier.
pub open spec fn shifted(breaks: Seq<int>, by: int) -> Seq<int> {
    Seq::new(breaks.len(), |i: int| breaks[i] + by)
}

/// The cells of a valid UTF-8 text: its extended grapheme clusters.
pub open spec fn text_breaks(text: Seq<u8>) -> Seq<int> {
    let starts = grapheme_starts(decode_utf8(text));
    if starts_partition(starts, text.len()) {
        Seq::new(
            starts.len(),
            |i: int|
                if i + 1 < starts.len() {
                    starts[i + 1] as int
                } else {
                    text.len() as int
                },
        )
    } else {
        byte_breaks(0, text.len() as int)
    }
}

/// `n` is the length of the longest prefix of `bytes` that is valid UTF-8.
pub open spec fn is_valid_prefix_len(bytes: Seq<u8>, n: int) -> bool {
    &&& 0 <= n <= bytes.len()
    &&& valid_utf8(bytes.subrange(0, n))
    &&& forall|m: int| n < m <= bytes.len() ==> !valid_utf8(#[trigger] bytes.subrange(0, m))
}

/// The length of the longest prefix of `bytes` that is valid UTF-8.
pub open spec fn valid_prefix_len(bytes: Seq<u8>) -> int {
    choose|n: int| is_valid_prefix_len(bytes, n)
}

/// The number of bytes, after the valid prefix, that are taken one by one.
pub open spec fn invalid_run_len(bytes: Seq<u8>) -> int {
    match utf8_error_len(bytes) {
        Some(k) => k as int,
        None => bytes.len() - valid_prefix_len(bytes),
    }
}

/// The cells of a line that is not ASCII throughout.
pub open spec fn span_breaks(cur: Seq<u8>) -> Seq<int>
    decreases cur.len(),
{
    if valid_utf8(cur) {
        text_breaks(cur)
    } else {
        let n = valid_prefix_len(cur);
        let step = n + invalid_run_len(cur);
        if 0 <= n <= step && 0 < step <= cur.len() {
            text_breaks(cur.subrange(0, n)) + byte_breaks(n, step) + shifted(
                span_breaks(cur.subrange(step, cur.len() as int)),
                step,
            )
        } else {
            byte_breaks(0, cur.len() as int)
        }
    }
}

/// Every byte of `line` is an ASCII character.
pub open spec fn all_ascii(line: Seq<u8>) -> bool {
    forall|i: int| 0 <= i < line.len() ==> line[i] < 0x80
}

/// The end offset of each cell of `line`, in order.
pub open spec fn line_breaks(line: Seq<u8>) -> Seq<int> {
    if all_ascii(line) {
        byte_breaks(0, line.len() as int)
    } else {
        span_breaks(line)
    }
}

/// Offsets as mathematical integers.
pub open spec fn ints(v: Seq<usize>) -> Seq<int> {
    Seq::new(v.len(), |i: int| v[i] as int)
}

/// To append an offset is to append its integer.
pub proof fn lemma_ints_push(v: Seq<usize>, x: usize)
    ensures
        ints(v.push(x)) == ints(v).push(x as int),
{
    assert(ints(v.push(x)) =~= ints(v).push(x as int));
}

/// One cell per byte cuts a line into cells.
pub proof fn lemma_byte_breaks_partition(len: int)
    requires
        0 <= len,
    ensures
        breaks_partition(byte_breaks(0, len), len),
{
}

/// Grapheme clusters cut a text into cells.
pub proof fn lemma_text_breaks_partition(text: Seq<u8>)
    ensures
        breaks_partition(text_breaks(text), text.len() as int),
{
    let starts = grapheme_starts(decode_utf8(text));
    if starts_partition(starts, text.len()) {
        let b = text_breaks(text);
        assert forall|i: int| 0 <= i < b.len() implies 0 < #[trigger] b[i] <= text.len() by {
            if i + 1 < starts.len() {
                assert(starts[0] < starts[i + 1]);
            }
        }
        assert forall|i: int, j: int| 0 <= i < j < b.len() implies b[i] < b[j] by {
            if j + 1 < starts.len() {
                assert(starts[i + 1] < starts[j + 1]);
            } else {
                assert(starts[i + 1] < text.len());
            }
        }
    } else {
        lemma_byte_breaks_partition(text.len() as int);
    }
}

/// Cells of a first part, then cells of the rest, are cells of the whole.
pub proof fn lemma_partition_concat(a: Seq<int>, n: int, b: Seq<int>, m: int)
    requires
        breaks_partition(a, n),
        breaks_partition(b, m),
        0 <= n,
        0 <= m,
    ensures
        breaks_partition(a + shifted(b, n), n + m),
{
    let c = a + shifted(b, n);
    assert forall|i: int| 0 <= i < c.len() implies 0 < #[trigger] c[i] <= n + m by {
        if i >= a.len() {
            assert(c[i] == b[i - a.len()] + n);
        }
    }
    assert forall|i: int, j: int| 0 <= i < j < c.len() implies c[i] < c[j] by {
        if j >= a.len() {
            assert(c[j] == b[j - a.len()] + n);
            if i >= a.len() {
                assert(c[i] == b[i - a.len()] + n);
            }
        }
    }
    if c.len() > 0 {
        if b.len() > 0 {
            assert(c[c.len() - 1] == b[b.len() - 1] + n);
        } else {
            assert(c[c.len() - 1] == a[a.len() - 1]);
        }
    }
}

/// One cell per byte looks the same from wherever it is seen.
pub proof fn lemma_byte_breaks_shift(from: int, to: int)
    requires
        0 <= from <= to,
    ensures
        byte_breaks(from, to) == shifted(byte_breaks(0, to - from), from),
{
    assert(byte_breaks(from, to) =~= shifted(byte_breaks(0, to - from), from));
}

/// Valid spans and invalid bytes in turn cut a line into cells.
pub proof fn lemma_span_breaks_partition(cur: Seq<u8>)
    ensures
        breaks_partition(span_breaks(cur), cur.len() as int),
    decreases cur.len(),
{
    if valid_utf8(cur) {
        lemma_text_breaks_partition(cur);
    } else {
        let n = valid_prefix_len(cur);
        let step = n + invalid_run_len(cur);
        let len = cur.len() as int;
        if 0 <= n <= step && 0 < step <= len {
            let head = cur.subrange(0, n);
            let rest = cur.subrange(step, len);
            lemma_text_breaks_partition(head);
            lemma_byte_breaks_partition(step - n);
            lemma_byte_breaks_shift(n, step);
            lemma_partition_concat(text_breaks(head), n, byte_breaks(0, step - n), step - n);
            lemma_span_breaks_partition(rest);
            lemma_partition_concat(
                text_breaks(head) + byte_breaks(n, step),
                step,
                span_breaks(rest),
                len - step,
            );
        } else {
            lemma_byte_breaks_partition(len);
        }
    }
}

/// Whatever the line, its cells are consecutive, none is empty, and together
/// they are the whole line.
pub proof fn lemma_line_breaks_partition(line: Seq<u8>)
    ensures
        breaks_partition(line_breaks(line), line.len() as int),
{
    if all_ascii(line) {
        lemma_byte_breaks_partition(line.len() as int);
    } else {
        lemma_span_breaks_partition(line);
    }
}

/// There is one longest valid prefix.
pub proof fn lemma_valid_prefix_len_unique(bytes: Seq<u8>, n: int)
    requires
        is_valid_prefix_len(bytes, n),
    ensures
        valid_prefix_len(bytes) == n,
{
    let m = valid_prefix_len(bytes);
    assert(is_valid_prefix_len(bytes, m));
    if m < n {
        assert(!valid_utf8(bytes.subrange(0, n)));
    }
    if n < m {
        assert(!valid_utf8(bytes.subrange(0, m)));
    }
}

/// Validates `bytes` as UTF-8 with `core::str::from_utf8`. The input is
/// accepted exactly when it is valid UTF-8, and the text handed back has
/// these bytes. Otherwise the fault holds what the error's `valid_up_to` and
/// `error_len` return: the length of the longest valid prefix, and the length
/// of the invalid sequence behind it, which is at least one byte and lies
/// within the input.
#[verifier::external_body]
pub(crate) fn check_utf8<'a>(bytes: &'a [u8]) -> (r: Result<&'a str, Utf8Fault>)
    ensures
        r is Ok <==> valid_utf8(bytes@),
        r matches Ok(text) ==> text.spec_bytes() == bytes@,
        r matches Err(fault) ==> {
            &&& is_valid_prefix_len(bytes@, fault.valid_up_to as int)
            &&& fault.error_len == utf8_error_len(bytes@)
            &&& fault.error_len matches Some(k) ==> 1 <= k && fault.valid_up_to + k <= bytes@.len()
        },
{
    match core::str::from_utf8(bytes) {
        Ok(text) => Ok(text),
        Err(e) => Err(Utf8Fault { valid_up_to: e.valid_up_to(), error_len: e.error_len() }),
    }
}

/// The start offsets of the extended grapheme clusters of `text`, from
/// `unicode_segmentation::UnicodeSegmentation::grapheme_indices`. The
/// clusters follow one another from offset 0 to the end of the text and none
/// is empty, so the offsets rise strictly from 0 and stay below the length.
#[verifier::external_body]
fn grapheme_offsets(text: &str) -> (starts: Vec<usize>)
    ensures
        starts@ == grapheme_starts(text@),
        starts_partition(starts@, text.spec_bytes().len()),
{
    unicode_segmentation::UnicodeSegmentation::grapheme_indices(text, true).map(|(i, _)| i).collect()
}

fn is_ascii_bytes(line: &[u8]) -> (r: bool)
    ensures
        r == all_ascii(line@),
{
    let mut i: usize = 0;
    while i < line.len()
        invariant
            i <= line.len(),
            forall|j: int| 0 <= j < i ==> line@[j] < 0x80,
        decreases line.len() - i,
    {
        if line[i] >= 0x80 {
            return false;
        }
        i += 1;
    }
    true
}

/// Appends one cell per byte for the bytes from `from` up to `to`.
fn push_byte_breaks(breaks: &mut Vec<usize>, from: usize, to: usize)
    requires
        from <= to,
    ensures
        ints(final(breaks)@) == ints(old(breaks)@) + byte_breaks(from as int, to as int),
{
    let mut i: usize = from;
    while i < to
        invariant
            from <= i <= to,
            ints(breaks@) == ints(old(breaks)@) + byte_breaks(from as int, i as int),
        decreases to - i,
    {
        let ghost prev = breaks@;
        i += 1;
        breaks.push(i);
        proof {
            lemma_ints_push(prev, i);
            assert(byte_breaks(from as int, i as int) =~= byte_breaks(from as int, i - 1).push(
                i as int,
            ));
            assert(ints(breaks@) =~= ints(old(breaks)@) + byte_breaks(from as int, i as int));
        }
    }
}

/// Appends the cells of a valid text that starts `base` bytes into the line.
fn push_text_breaks(breaks: &mut Vec<usize>, text: &str, base: usize)
    requires
        base + text.spec_bytes().len() <= usize::MAX,
    ensures
        ints(final(breaks)@) == ints(old(breaks)@) + shifted(
            text_breaks(text.spec_bytes()),
            base as int,
        ),
{
    let starts = grapheme_offsets(text);
    proof {
        vstd::utf8::encode_utf8_decode_utf8(text@);
    }
    let len = text.len();
    let ghost bytes = text.spec_bytes();
    let ghost cells = text_breaks(bytes);
    let mut i: usize = 0;
    while i < starts.len()
        invariant
            i <= starts.len(),
            len == bytes.len(),
            base + len <= usize::MAX,
            starts@ == grapheme_starts(decode_utf8(bytes)),
            starts_partition(starts@, bytes.len()),
            cells == text_breaks(bytes),
            ints(breaks@) == ints(old(breaks)@) + shifted(cells, base as int).subrange(0, i as int),
        decreases starts.len() - i,
    {
        let end = if i + 1 < starts.len() {
            starts[i + 1]
        } else {
            len
        };
        let ghost prev = breaks@;
        breaks.push(base + end);
        i += 1;
        proof {
            lemma_ints_push(prev, (base + end) as usize);
            let all = shifted(cells, base as int);
            assert(all.subrange(0, i as int) =~= all.subrange(0, i - 1).push(base + end));
            assert(ints(breaks@) =~= ints(old(breaks)@) + all.subrange(0, i as int));
        }
    }
    assert(shifted(cells, base as int).subrange(0, i as int) =~= shifted(cells, base as int));
}

/// The end offset of each cell of `line`, in order.
pub fn grapheme_breaks(line: &[u8]) -> (breaks: Vec<usize>)
    ensures
        ints(breaks@) == line_breaks(line@),
        breaks_partition(line_breaks(line@), line@.len() as int),
{
    proof {
        lemma_line_breaks_partition(line@);
    }
    let mut breaks: Vec<usize> = Vec::new();
    let len = line.len();
    if is_ascii_bytes(line) {
        push_byte_breaks(&mut breaks, 0, len);
        assert(ints(breaks@) =~= byte_breaks(0, len as int));
        return breaks;
    }
    let mut pos: usize = 0;
    let mut done = false;
    proof {
        assert(line@.subrange(0, len as int) =~= line@);
        assert(ints(breaks@) + shifted(span_breaks(line@), 0) =~= span_breaks(line@));
    }
    while !done
        invariant
            pos <= len,
            len == line@.len(),
            done ==> ints(breaks@) == span_breaks(line@),
            !done ==> ints(breaks@) + shifted(
                span_breaks(line@.subrange(pos as int, len as int)),
                pos as int,
            ) == span_breaks(line@),
        decreases len - pos, if done { 0int } else { 1int },
    {
        let cur = slice_subrange(line, pos, len);
        let ghost rest = line@.subrange(pos as int, len as int);
        let ghost before = ints(breaks@);
        match check_utf8(cur) {
            Ok(text) => {
                push_text_breaks(&mut breaks, text, pos);
                done = true;
            },
            Err(fault) => {
                let n = fault.valid_up_to;
                proof {
                    lemma_valid_prefix_len_unique(rest, n as int);
                }
                let run = match fault.error_len {
                    Some(k) => k,
                    None => cur.len() - n,
                };
                let step = n + run;
                assert(step == n + invalid_run_len(rest));
                assert(0 < step) by {
                    if step == 0 {
                        assert(rest.subrange(0, 0) =~= rest);
                    }
                }
                let valid = slice_subrange(cur, 0, n);
                match check_utf8(valid) {
                    Ok(text) => {
                        push_text_breaks(&mut breaks, text, pos);
                    },
                    Err(_) => {
                        // The prefix is the one that was found valid.
                        assert(false);
                    },
                }
                push_byte_breaks(&mut breaks, pos + n, pos + step);
                proof {
                    let tail = rest.subrange(step as int, rest.len() as int);
                    assert(tail =~= line@.subrange(pos + step, len as int));
                    let tail_cells = span_breaks(tail);
                    assert(span_breaks(rest) == text_breaks(rest.subrange(0, n as int))
                        + byte_breaks(n as int, step as int) + shifted(tail_cells, step as int));
                    assert(ints(breaks@) + shifted(tail_cells, pos + step) =~= before + shifted(
                        span_breaks(rest),
                        pos as int,
                    ));
                }
                pos = pos + step;
            },
        }
    }
    breaks
}

/// The width of a byte that is a cell by itself: one for a printable ASCII
/// character, and none for any other byte.
pub open spec fn ascii_width(b: u8) -> nat {
    if 0x20 <= b && b <= 0x7e {
        1
    } else {
        0
    }
}

/// The width of a cell that is no expanded tab: one for a cluster of several
/// bytes, and that of the byte for a single one.
pub open spec fn cluster_width(cell: Seq<u8>) -> nat {
    if cell.len() > 1 {
        1
    } else {
        ascii_width(cell[0])
    }
}

/// Where cell `k` starts: where the cell before it ends.
pub open spec fn cell_start(breaks: Seq<int>, k: int) -> int {
    if k == 0 {
        0
    } else {
        breaks[k - 1]
    }
}

/// The bytes of cell `k`.
pub open spec fn cell_bytes(line: Seq<u8>, breaks: Seq<int>, k: int) -> Seq<u8> {
    line.subrange(cell_start(breaks, k), breaks[k])
}

/// Cell `k` is a tab that is to be expanded.
pub open spec fn is_expanded_tab(line: Seq<u8>, breaks: Seq<int>, k: int, tab: UnweaveTab) -> bool {
    tab is Expand && cell_bytes(line, breaks, k) == seq![0x09u8]
}

/// A run of `n` space bytes.
pub open spec fn spaces(n: nat) -> Seq<u8> {
    Seq::new(n, |i: int| 0x20u8)
}

/// The cells from `at` to the next tab stop.
pub open spec fn tab_advance(tab: UnweaveTab, at: nat) -> nat {
    (tab.stop() - at % tab.stop()) as nat
}

/// The width of cell `k`, where `at` cells stand before it.
pub open spec fn cell_width(
    line: Seq<u8>,
    breaks: Seq<int>,
    k: int,
    tab: UnweaveTab,
    at: nat,
) -> nat {
    if is_expanded_tab(line, breaks, k, tab) {
        tab_advance(tab, at)
    } else {
        cluster_width(cell_bytes(line, breaks, k))
    }
}

/// What cell `k` puts into the expanded line, where `at` cells stand before it.
pub open spec fn cell_text(
    line: Seq<u8>,
    breaks: Seq<int>,
    k: int,
    tab: UnweaveTab,
    at: nat,
) -> Seq<u8> {
    if is_expanded_tab(line, breaks, k, tab) {
        spaces(tab_advance(tab, at))
    } else {
        cell_bytes(line, breaks, k)
    }
}

/// The width of the first `k` cells.
pub open spec fn cells_width(line: Seq<u8>, breaks: Seq<int>, tab: UnweaveTab, k: nat) -> nat
    decreases k,
{
    if k == 0 {
        0
    } else {
        let before = cells_width(line, breaks, tab, (k - 1) as nat);
        before + cell_width(line, breaks, k - 1, tab, before)
    }
}

/// The first `k` cells with their tabs expanded.
pub open spec fn cells_text(line: Seq<u8>, breaks: Seq<int>, tab: UnweaveTab, k: nat) -> Seq<u8>
    decreases k,
{
    if k == 0 {
        Seq::empty()
    } else {
        cells_text(line, breaks, tab, (k - 1) as nat) + cell_text(
            line,
            breaks,
            k - 1,
            tab,
            cells_width(line, breaks, tab, (k - 1) as nat),
        )
    }
}

/// The number of cells that `line` takes up on screen.
pub open spec fn line_width(line: Seq<u8>, tab: UnweaveTab) -> nat {
    cells_width(line, line_breaks(line), tab, line_breaks(line).len())
}

/// `line` with each tab replaced by the spaces that lead to the next stop.
pub open spec fn expand_tabs(line: Seq<u8>, tab: UnweaveTab) -> Seq<u8> {
    cells_text(line, line_breaks(line), tab, line_breaks(line).len())
}

/// The width of a byte that is a cell by itself: one for a printable ASCII
/// character, and none for any other byte.
pub fn ascii_grapheme_count(b: u8) -> (n: u32)
    ensures
        n == ascii_width(b),
{
    if 0x20 <= b && b <= 0x7e {
        1
    } else {
        0
    }
}

/// The width of a grapheme cluster where no tab is expanded.
pub fn str_grapheme_count(grapheme: &str) -> (n: u32)
    requires
        grapheme.spec_bytes().len() > 0,
    ensures
        n == cluster_width(grapheme.spec_bytes()),
{
    if grapheme.len() > 1 {
        1
    } else {
        ascii_grapheme_count(grapheme.as_bytes()[0])
    }
}

/// The width of a cell that is no expanded tab.
pub fn cell_grapheme_count(cell: &[u8]) -> (n: u32)
    requires
        cell@.len() > 0,
    ensures
        n == cluster_width(cell@),
{
    if cell.len() > 1 {
        1
    } else {
        ascii_grapheme_count(cell[0])
    }
}

/// Where a line stands after a cell, counted from the last tab stop: after
/// `width` cells more than `at`, which is where it stood before.
pub proof fn lemma_tab_position(before: int, stop: int, at: int, width: int)
    requires
        stop >= 1,
        before >= 0,
        at == before % stop,
        0 <= width,
        at + width <= stop,
    ensures
        (before + width) % stop == if at + width == stop {
            0
        } else {
            at + width
        },
{
    let q = before / stop;
    vstd::arithmetic::div_mod::lemma_fundamental_div_mod(before, stop);
    assert(before == q * stop + at) by (nonlinear_arith)
        requires
            before == stop * q + at,
    ;
    if at + width == stop {
        assert(before + width == (q + 1) * stop + 0) by (nonlinear_arith)
            requires
                before == q * stop + at,
                at + width == stop,
        ;
        vstd::arithmetic::div_mod::lemma_fundamental_div_mod_converse(
            before + width,
            stop,
            q + 1,
            0,
        );
    } else {
        vstd::arithmetic::div_mod::lemma_fundamental_div_mod_converse(
            before + width,
            stop,
            q,
            at + width,
        );
    }
}

/// Measures `line`, and appends its expansion to `out` where `emit` is set.
/// The width comes back unless 32 bits cannot hold it.
fn measure_cells(line: &[u8], tab: UnweaveTab, emit: bool, out: &mut Vec<u8>) -> (count: Option<
    u32,
>)
    requires
        tab.well_formed(),
    ensures
        match count {
            Some(width) => width == line_width(line@, tab),
            None => line_width(line@, tab) > u32::MAX,
        },
        final(out)@ == if emit {
            old(out)@ + expand_tabs(line@, tab)
        } else {
            old(out)@
        },
{
    let breaks = grapheme_breaks(line);
    let ghost cells = line_breaks(line@);
    let stop: u32 = match tab {
        UnweaveTab::Expand(tw) => tw,
        UnweaveTab::NoExpand => 1,
    };
    // The width as far as 32 bits hold it, and the place behind the last
    // tab stop, which is known however wide the line gets.
    let mut count: u32 = 0;
    let mut fits = true;
    let mut at: u32 = 0;
    let mut start: usize = 0;
    let mut k: usize = 0;
    proof {
        vstd::arithmetic::div_mod::lemma_small_mod(0, stop as nat);
    }
    while k < breaks.len()
        invariant
            k <= breaks.len(),
            tab.well_formed(),
            stop == tab.stop(),
            stop >= 1,
            cells == line_breaks(line@),
            ints(breaks@) == cells,
            breaks_partition(cells, line@.len() as int),
            start == cell_start(cells, k as int),
            at == cells_width(line@, cells, tab, k as nat) % (stop as nat),
            fits ==> count == cells_width(line@, cells, tab, k as nat),
            !fits ==> cells_width(line@, cells, tab, k as nat) > u32::MAX,
            out@ == if emit {
                old(out)@ + cells_text(line@, cells, tab, k as nat)
            } else {
                old(out)@
            },
        decreases breaks.len() - k,
    {
        let end = breaks[k];
        let ghost before = cells_width(line@, cells, tab, k as nat);
        proof {
            assert(cells[k as int] == end);
            assert(start < end) by {
                if k > 0 {
                    assert(cells[k - 1] < cells[k as int]);
                }
            }
            assert(at < stop) by (nonlinear_arith)
                requires
                    at == before % (stop as nat),
                    stop >= 1,
            ;
        }
        let cell = slice_subrange(line, start, end);
        assert(cell@ == cell_bytes(line@, cells, k as int));
        let expand = tab.is_expand() && end - start == 1 && cell[0] == 0x09;
        assert(expand <==> is_expanded_tab(line@, cells, k as int, tab)) by {
            if end - start == 1 && cell@[0] == 0x09 {
                assert(cell@ =~= seq![0x09u8]);
            }
        }
        let width = if expand {
            stop - at
        } else {
            cell_grapheme_count(cell)
        };
        assert(width == cell_width(line@, cells, k as int, tab, before));
        proof {
            lemma_tab_position(before as int, stop as int, at as int, width as int);
        }
        if emit {
            if expand {
                push_spaces(out, width);
            } else {
                out.extend_from_slice(cell);
            }
        }
        if fits {
            if width > u32::MAX - count {
                fits = false;
            } else {
                count = count + width;
            }
        }
        at = if at + width == stop {
            0
        } else {
            at + width
        };
        start = end;
        k += 1;
    }
    if fits {
        Some(count)
    } else {
        None
    }
}

/// Appends `n` space bytes.
pub fn push_spaces(out: &mut Vec<u8>, n: u32)
    ensures
        final(out)@ == old(out)@ + spaces(n as nat),
{
    let mut i: u32 = 0;
    while i < n
        invariant
            i <= n,
            out@ == old(out)@ + spaces(i as nat),
        decreases n - i,
    {
        out.push(0x20u8);
        i += 1;
        assert(out@ =~= old(out)@ + spaces(i as nat));
    }
}

/// The width of `line` in cells. Where `out` is given, the line is appended
/// to it with each tab expanded.
pub fn grapheme_count_tab_expanded(line: &[u8], tab: UnweaveTab, out: Option<&mut Vec<u8>>) -> (count:
    u32)
    requires
        tab.well_formed(),
        line_width(line@, tab) <= u32::MAX,
    ensures
        count == line_width(line@, tab),
        match out {
            Some(o) => final(o)@ == o@ + expand_tabs(line@, tab),
            None => true,
        },
{
    let measured = match out {
        Some(o) => measure_cells(line, tab, true, o),
        None => {
            let mut unused: Vec<u8> = Vec::new();
            measure_cells(line, tab, false, &mut unused)
        },
    };
    match measured {
        Some(width) => width,
        None => {
            // The width is one that 32 bits hold.
            assert(false);
            0
        },
    }
}

/// The width of `line` in cells, or `None` for a line that is wider than
/// can be counted in 32 bits.
pub fn checked_grapheme_count(line: &[u8], tab: UnweaveTab) -> (count: Option<u32>)
    requires
        tab.well_formed(),
    ensures
        match count {
            Some(width) => width == line_width(line@, tab),
            None => line_width(line@, tab) > u32::MAX,
        },
{
    let mut unused: Vec<u8> = Vec::new();
    measure_cells(line, tab, false, &mut unused)
}

/// Appends `line` to `out` with each tab expanded. The width of the line
/// comes back, or `None` for a line that is wider than can be counted in 32
/// bits.
pub fn expand_tabs_into(line: &[u8], tab: UnweaveTab, out: &mut Vec<u8>) -> (count: Option<u32>)
    requires
        tab.well_formed(),
    ensures
        final(out)@ == old(out)@ + expand_tabs(line@, tab),
        match count {
            Some(width) => width == line_width(line@, tab),
            None => line_width(line@, tab) > u32::MAX,
        },
{
    measure_cells(line, tab, true, out)
}

} // verus!
