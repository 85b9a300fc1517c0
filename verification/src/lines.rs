//! Splitting the bytes of an input into lines.

use vstd::prelude::*;
use vstd::slice::slice_subrange;

verus! {

/// `memchr::memchr` returns the index of the first occurrence of the needle
/// in the haystack, or `None` where the haystack does not hold it.
pub assume_specification[ memchr::memchr ](needle: u8, haystack: &[u8]) -> (r: Option<usize>)
    ensures
        match r {
            Some(i) => {
                &&& i < haystack@.len()
                &&& haystack@[i as int] == needle
                &&& forall|j: int| 0 <= j < i ==> haystack@[j] != needle
            },
            None => forall|j: int| 0 <= j < haystack@.len() ==> haystack@[j] != needle,
        },
;

/// The length of the first line of `s` with its newline, where it has one.
pub open spec fn full_line_len(s: Seq<u8>) -> nat
    decreases s.len(),
{
    if s.len() == 0 {
        0
    } else if s[0] == 0x0a {
        1
    } else {
        1 + full_line_len(s.drop_first())
    }
}

/// The lines of `s`, each with the newline that ends it. What follows the
/// last newline is a line too, unless it is empty.
pub open spec fn full_lines(s: Seq<u8>) -> Seq<Seq<u8>>
    decreases s.len(),
{
    if s.len() == 0 {
        Seq::empty()
    } else {
        let n = full_line_len(s);
        if 0 < n <= s.len() {
            seq![s.take(n as int)] + full_lines(s.skip(n as int))
        } else {
            seq![s]
        }
    }
}

/// `v` without the newline at its end, and without one carriage return
/// before that.
pub open spec fn trimmed(v: Seq<u8>) -> Seq<u8> {
    let t = if v.len() > 0 && v.last() == 0x0a {
        v.drop_last()
    } else {
        v
    };
    if t.len() > 0 && t.last() == 0x0d {
        t.drop_last()
    } else {
        t
    }
}

/// The lines of an input, as they are classified and rendered.
pub open spec fn lines_of(content: Seq<u8>) -> Seq<Seq<u8>> {
    full_lines(content).map_values(|line: Seq<u8>| trimmed(line))
}

/// The first line ends with the first newline.
pub proof fn lemma_full_line_len_found(s: Seq<u8>, i: int)
    requires
        0 <= i < s.len(),
        s[i] == 0x0a,
        forall|j: int| 0 <= j < i ==> s[j] != 0x0a,
    ensures
        full_line_len(s) == i + 1,
    decreases i,
{
    if i > 0 {
        let rest = s.drop_first();
        assert(rest[i - 1] == s[i]);
        assert forall|j: int| 0 <= j < i - 1 implies rest[j] != 0x0a by {
            assert(rest[j] == s[j + 1]);
        }
        lemma_full_line_len_found(rest, i - 1);
    }
}

/// Without a newline the rest is one line.
pub proof fn lemma_full_line_len_absent(s: Seq<u8>)
    requires
        forall|j: int| 0 <= j < s.len() ==> s[j] != 0x0a,
    ensures
        full_line_len(s) == s.len(),
    decreases s.len(),
{
    if s.len() > 0 {
        let rest = s.drop_first();
        assert forall|j: int| 0 <= j < rest.len() implies rest[j] != 0x0a by {
            assert(rest[j] == s[j + 1]);
        }
        lemma_full_line_len_absent(rest);
    }
}

/// The first line is part of what is there, and is not empty unless nothing
/// is there.
pub proof fn lemma_full_line_len_bounds(s: Seq<u8>)
    ensures
        full_line_len(s) <= s.len(),
        s.len() > 0 ==> full_line_len(s) > 0,
    decreases s.len(),
{
    if s.len() > 0 && s[0] != 0x0a {
        lemma_full_line_len_bounds(s.drop_first());
    }
}

/// Walks the lines of a byte slice, each with the newline that ends it.
pub struct SliceFullLines<'a> {
    buf: &'a [u8],
    last: usize,
}

impl<'a> SliceFullLines<'a> {
    #[verifier::type_invariant]
    spec fn inv(self) -> bool {
        self.last <= self.buf@.len()
    }

    /// The bytes that no line has been taken from yet.
    pub closed spec fn remaining(self) -> Seq<u8> {
        self.buf@.skip(self.last as int)
    }

    /// A walk that has all of `buf` before it.
    pub fn new(buf: &'a [u8]) -> (lines: Self)
        ensures
            lines.remaining() == buf@,
    {
        assert(buf@.skip(0) =~= buf@);
        SliceFullLines { buf, last: 0 }
    }

    /// Takes the next line, or `None` where no byte is left.
    pub fn next(&mut self) -> (line: Option<&'a [u8]>)
        ensures
            match line {
                Some(l) => {
                    &&& old(self).remaining().len() > 0
                    &&& l@ == old(self).remaining().take(full_line_len(old(self).remaining()) as int)
                    &&& final(self).remaining() == old(self).remaining().skip(
                        full_line_len(old(self).remaining()) as int,
                    )
                    &&& 0 < l@.len() <= old(self).remaining().len()
                },
                None => old(self).remaining().len() == 0 && final(self).remaining().len() == 0,
            },
    {
        proof {
            use_type_invariant(&*self);
        }
        let len = self.buf.len();
        let rest = slice_subrange(self.buf, self.last, len);
        let ghost before = self.remaining();
        assert(rest@ =~= before);
        proof {
            lemma_full_line_len_bounds(before);
        }
        match memchr::memchr(0x0a, rest) {
            Some(m) => {
                proof {
                    lemma_full_line_len_found(before, m as int);
                }
                let line = slice_subrange(self.buf, self.last, self.last + m + 1);
                assert(line@ =~= before.take(m + 1));
                self.last = self.last + m + 1;
                assert(self.remaining() =~= before.skip(m + 1));
                Some(line)
            },
            None => {
                if rest.len() == 0 {
                    None
                } else {
                    proof {
                        lemma_full_line_len_absent(before);
                    }
                    assert(rest@ =~= before.take(before.len() as int));
                    self.last = len;
                    assert(self.remaining() =~= before.skip(before.len() as int));
                    Some(rest)
                }
            },
        }
    }
}

/// `v` without the newline at its end, and without one carriage return
/// before that.
pub fn trim_newline(v: &[u8]) -> (t: &[u8])
    ensures
        t@ == trimmed(v@),
{
    let mut end = v.len();
    if end > 0 && v[end - 1] == 0x0a {
        end = end - 1;
    }
    let ghost mid = v@.take(end as int);
    assert(mid =~= if v@.len() > 0 && v@.last() == 0x0a {
        v@.drop_last()
    } else {
        v@
    });
    if end > 0 && v[end - 1] == 0x0d {
        end = end - 1;
    }
    let t = slice_subrange(v, 0, end);
    assert(t@ =~= if mid.len() > 0 && mid.last() == 0x0d {
        mid.drop_last()
    } else {
        mid
    });
    t
}

/// Trimming takes bytes off the end only.
pub proof fn lemma_trimmed_is_prefix(v: Seq<u8>)
    ensures
        trimmed(v).len() <= v.len(),
        trimmed(v) == v.take(trimmed(v).len() as int),
{
    assert(trimmed(v) =~= v.take(trimmed(v).len() as int));
}

/// The content of each input, as plain bytes.
pub open spec fn contents_of(inputs: Seq<&[u8]>) -> Seq<Seq<u8>> {
    Seq::new(inputs.len(), |i: int| inputs[i]@)
}

/// The lines of all inputs, input after input.
pub open spec fn all_lines(contents: Seq<Seq<u8>>) -> Seq<Seq<u8>>
    decreases contents.len(),
{
    if contents.len() == 0 {
        Seq::empty()
    } else {
        all_lines(contents.drop_last()) + lines_of(contents.last())
    }
}

/// Where a line lies: in which input, and from which byte up to which.
#[derive(Clone, Copy, Debug)]
pub struct LineSpan {
    pub input: usize,
    pub start: usize,
    pub end: usize,
}

impl LineSpan {
    /// The span lies within one of the inputs.
    pub open spec fn valid(self, contents: Seq<Seq<u8>>) -> bool {
        self.input < contents.len() && self.start <= self.end <= contents[self.input as int].len()
    }

    /// The bytes of the line.
    pub open spec fn line(self, contents: Seq<Seq<u8>>) -> Seq<u8> {
        contents[self.input as int].subrange(self.start as int, self.end as int)
    }

    /// The line as a slice of its input.
    pub fn slice<'a>(&self, inputs: &[&'a [u8]]) -> (line: &'a [u8])
        requires
            self.valid(contents_of(inputs@)),
        ensures
            line@ == self.line(contents_of(inputs@)),
    {
        slice_subrange(inputs[self.input], self.start, self.end)
    }
}

/// The lines at `spans`.
pub open spec fn span_lines(contents: Seq<Seq<u8>>, spans: Seq<LineSpan>) -> Seq<Seq<u8>> {
    Seq::new(spans.len(), |i: int| spans[i].line(contents))
}

/// The lines of what is there are its first line, trimmed, and the lines of
/// the rest.
pub proof fn lemma_lines_of_step(rest: Seq<u8>)
    requires
        rest.len() > 0,
    ensures
        lines_of(rest) == seq![trimmed(rest.take(full_line_len(rest) as int))] + lines_of(
            rest.skip(full_line_len(rest) as int),
        ),
{
    lemma_full_line_len_bounds(rest);
    let n = full_line_len(rest) as int;
    let f = |line: Seq<u8>| trimmed(line);
    assert((seq![rest.take(n)] + full_lines(rest.skip(n))).map_values(f) =~= seq![
        trimmed(rest.take(n)),
    ] + full_lines(rest.skip(n)).map_values(f));
}

/// The lines of one more input follow those of the inputs before it.
pub proof fn lemma_all_lines_step(contents: Seq<Seq<u8>>, i: int)
    requires
        0 <= i < contents.len(),
    ensures
        all_lines(contents.take(i + 1)) == all_lines(contents.take(i)) + lines_of(contents[i]),
{
    assert(contents.take(i + 1).drop_last() =~= contents.take(i));
}

/// Finds the lines of all inputs, in order.
pub fn line_spans(inputs: &[&[u8]]) -> (spans: Vec<LineSpan>)
    ensures
        span_lines(contents_of(inputs@), spans@) == all_lines(contents_of(inputs@)),
        forall|i: int| 0 <= i < spans@.len() ==> (#[trigger] spans@[i]).valid(contents_of(inputs@)),
{
    let ghost contents = contents_of(inputs@);
    let mut spans: Vec<LineSpan> = Vec::new();
    let mut i: usize = 0;
    assert(span_lines(contents, spans@) =~= all_lines(contents.take(0)));
    while i < inputs.len()
        invariant
            i <= inputs.len(),
            contents == contents_of(inputs@),
            span_lines(contents, spans@) == all_lines(contents.take(i as int)),
            forall|k: int| 0 <= k < spans@.len() ==> (#[trigger] spans@[k]).valid(contents),
        decreases inputs.len() - i,
    {
        let content = inputs[i];
        assert(content@ == contents[i as int]);
        let mut lines = SliceFullLines::new(content);
        let len = content.len();
        let mut cur: usize = 0;
        let ghost done: Seq<Seq<u8>> = Seq::empty();
        proof {
            assert(content@.skip(0) =~= content@);
            assert(done + lines_of(content@) =~= lines_of(content@));
            assert(all_lines(contents.take(i as int)) + done =~= all_lines(
                contents.take(i as int),
            ));
        }
        loop
            invariant
                i < inputs.len(),
                contents == contents_of(inputs@),
                content@ == contents[i as int],
                len == content@.len(),
                cur <= len,
                lines.remaining() == content@.skip(cur as int),
                done + lines_of(lines.remaining()) == lines_of(content@),
                span_lines(contents, spans@) == all_lines(contents.take(i as int)) + done,
                forall|k: int| 0 <= k < spans@.len() ==> (#[trigger] spans@[k]).valid(contents),
            ensures
                span_lines(contents, spans@) == all_lines(contents.take(i as int)) + lines_of(
                    content@,
                ),
            decreases lines.remaining().len(),
        {
            let ghost rest = lines.remaining();
            let ghost before = spans@;
            match lines.next() {
                Some(full) => {
                    let line = trim_newline(full);
                    proof {
                        lemma_lines_of_step(rest);
                        lemma_trimmed_is_prefix(full@);
                        lemma_full_line_len_bounds(rest);
                        let n = full_line_len(rest) as int;
                        assert(rest.len() == content@.len() - cur);
                        assert(full@ == rest.take(n));
                        assert(full@.len() == n);
                        assert(rest.take(n) =~= content@.subrange(cur as int, cur + n));
                        assert(rest.skip(n) =~= content@.skip(cur + n));
                        assert(full@ =~= content@.subrange(cur as int, cur + full@.len()));
                        assert(line@ =~= content@.subrange(cur as int, cur + line@.len()));
                        assert(lines.remaining() =~= content@.skip(cur + full@.len()));
                    }
                    let span = LineSpan { input: i, start: cur, end: cur + line.len() };
                    spans.push(span);
                    proof {
                        assert(span.line(contents) == line@);
                        assert(span_lines(contents, spans@) =~= span_lines(contents, before).push(
                            line@,
                        ));
                        assert(done.push(line@) + lines_of(lines.remaining()) =~= done + (seq![
                            line@,
                        ] + lines_of(lines.remaining())));
                        assert(all_lines(contents.take(i as int)) + done.push(line@) =~= (
                        all_lines(contents.take(i as int)) + done).push(line@));
                        done = done.push(line@);
                    }
                    cur = cur + full.len();
                },
                None => {
                    proof {
                        assert(lines_of(rest) =~= Seq::<Seq<u8>>::empty());
                        assert(done + lines_of(rest) =~= done);
                    }
                    break ;
                },
            }
        }
        proof {
            lemma_all_lines_step(contents, i as int);
        }
        i += 1;
    }
    assert(contents.take(i as int) =~= contents);
    spans
}

} // verus!
