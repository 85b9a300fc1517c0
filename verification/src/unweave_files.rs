//! Unweaving into files: every stream gets a file of its own, named after a
//! template, and each line goes to the file of its stream.

use vstd::prelude::*;
use vstd::string::{StrSliceExecFns, StringExecFns, StringSliceAdditionalSpecFns};
use vstd::utf8::{decode_utf8, encode_utf8, valid_utf8};
use ahash::AHashMap;
use crate::errors::push_char;
use crate::graphemes::check_utf8;
use crate::lines::{all_lines, contents_of, line_spans, span_lines, LineSpan};
use crate::tag_finder::{refuses, regex_refusal, tag_of, TagFinder};
use crate::tag_map::{tag_indices, tag_map_get, tag_map_insert, tag_map_new};
use crate::{UnweaveError, UnweaveOptionsFiles};

verus! {

/// One of the digits `0` to `9`.
pub open spec fn is_digit(c: char) -> bool {
    '0' <= c <= '9'
}

/// The number that a digit stands for.
pub open spec fn digit_value(c: char) -> nat {
    (c as u32 - '0' as u32) as nat
}

/// The character of a digit.
pub open spec fn digit_char(d: nat) -> char {
    if d == 0 {
        '0'
    } else if d == 1 {
        '1'
    } else if d == 2 {
        '2'
    } else if d == 3 {
        '3'
    } else if d == 4 {
        '4'
    } else if d == 5 {
        '5'
    } else if d == 6 {
        '6'
    } else if d == 7 {
        '7'
    } else if d == 8 {
        '8'
    } else {
        '9'
    }
}

/// `n` written in decimal digits.
pub open spec fn decimal(n: nat) -> Seq<char>
    decreases n,
{
    if n < 10 {
        seq![digit_char(n)]
    } else {
        decimal(n / 10).push(digit_char(n % 10))
    }
}

/// A run of `n` zero digits.
pub open spec fn zeros(n: nat) -> Seq<char> {
    Seq::new(n, |i: int| '0')
}

/// `n` in decimal digits, with zeros before it to fill `width` characters.
pub open spec fn padded_number(n: nat, width: nat) -> Seq<char> {
    if decimal(n).len() < width {
        zeros((width - decimal(n).len()) as nat) + decimal(n)
    } else {
        decimal(n)
    }
}

/// The name that the rest of `template`, from character `i` on, makes of
/// `name`. A `%` starts a directive: `%%` stands for a `%`, `%t` for the
/// tag, and `%d`, with digits before the `d` for a width, for `count` padded
/// with zeros to that width. Any other character in a directive is refused,
/// and so is a width too large to count in; a template that ends within a
/// directive is incomplete.
pub open spec fn expand_from(
    template: Seq<char>,
    i: int,
    special: bool,
    width: nat,
    name: Seq<char>,
    tag: Seq<char>,
    count: nat,
) -> Result<Seq<char>, UnweaveError>
    decreases template.len() - i,
{
    if i < 0 || i >= template.len() {
        if special {
            Err(UnweaveError::IncompleteOutputFilePattern)
        } else {
            Ok(name)
        }
    } else {
        let c = template[i];
        if !special {
            if c == '%' {
                expand_from(template, i + 1, true, 0, name, tag, count)
            } else {
                expand_from(template, i + 1, false, width, name.push(c), tag, count)
            }
        } else if c == '%' {
            expand_from(template, i + 1, false, width, name.push(c), tag, count)
        } else if c == 't' {
            expand_from(template, i + 1, false, width, name + tag, tag, count)
        } else if c == 'd' {
            expand_from(
                template,
                i + 1,
                false,
                width,
                name + padded_number(count, width),
                tag,
                count,
            )
        } else if is_digit(c) && width * 10 + digit_value(c) <= usize::MAX {
            expand_from(template, i + 1, true, width * 10 + digit_value(c), name, tag, count)
        } else {
            Err(UnweaveError::InvalidOutputFilePattern(c))
        }
    }
}

/// The name of the file for `tag` where `count` files exist already. A tag
/// that is not valid UTF-8 cannot name a file.
pub open spec fn filename_for(template: Seq<char>, tag: Seq<u8>, count: nat) -> Result<
    Seq<char>,
    UnweaveError,
> {
    if valid_utf8(tag) {
        expand_from(template, 0, false, 0, Seq::empty(), decode_utf8(tag), count)
    } else {
        Err(UnweaveError::InvalidTagEncoding)
    }
}

fn digit_of(d: usize) -> (c: char)
    requires
        d < 10,
    ensures
        c == digit_char(d as nat),
{
    if d == 0 {
        '0'
    } else if d == 1 {
        '1'
    } else if d == 2 {
        '2'
    } else if d == 3 {
        '3'
    } else if d == 4 {
        '4'
    } else if d == 5 {
        '5'
    } else if d == 6 {
        '6'
    } else if d == 7 {
        '7'
    } else if d == 8 {
        '8'
    } else {
        '9'
    }
}

fn decimal_len(n: usize) -> (len: usize)
    ensures
        len == decimal(n as nat).len(),
        1 <= len <= 20,
    decreases n,
{
    if n < 10 {
        1
    } else {
        let rest = decimal_len(n / 10);
        assert(rest <= 19) by {
            lemma_decimal_len(n as nat / 10);
            lemma_decimal_len(n as nat);
        }
        rest + 1
    }
}

/// A number below ten to the `k` has no more than `k` digits; one that fits
/// the machine's word has no more than twenty.
pub proof fn lemma_decimal_len(n: nat)
    ensures
        1 <= decimal(n).len(),
        n <= 0xffff_ffff_ffff_ffff ==> decimal(n).len() <= 20,
{
    lemma_decimal_bound(n, 20);
    assert(pow10(20) == 100000000000000000000nat) by {
        reveal_with_fuel(pow10, 21);
    }
}

/// Ten to the `k`.
pub open spec fn pow10(k: nat) -> nat
    decreases k,
{
    if k == 0 {
        1
    } else {
        10 * pow10((k - 1) as nat)
    }
}

/// A number below ten to the `k` has no more than `k` digits.
pub proof fn lemma_decimal_bound(n: nat, k: nat)
    requires
        k >= 1,
    ensures
        1 <= decimal(n).len(),
        n < pow10(k) ==> decimal(n).len() <= k,
    decreases n,
{
    if n >= 10 {
        if k >= 2 {
            lemma_decimal_bound(n / 10, (k - 1) as nat);
            assert(n < pow10(k) ==> n / 10 < pow10((k - 1) as nat));
        } else {
            lemma_decimal_bound(n / 10, 1);
            assert(pow10(1) == 10) by {
                reveal_with_fuel(pow10, 2);
            }
        }
    }
}

/// Appends `n` in decimal digits.
fn push_decimal(s: &mut String, n: usize)
    ensures
        final(s)@ == old(s)@ + decimal(n as nat),
    decreases n,
{
    if n < 10 {
        push_char(s, digit_of(n));
        assert(s@ =~= old(s)@ + decimal(n as nat));
    } else {
        push_decimal(s, n / 10);
        push_char(s, digit_of(n % 10));
        assert(s@ =~= old(s)@ + decimal(n as nat));
    }
}

/// Appends `n` in decimal digits, padded with zeros to `width` characters.
fn push_padded_number(s: &mut String, n: usize, width: usize)
    ensures
        final(s)@ == old(s)@ + padded_number(n as nat, width as nat),
{
    let len = decimal_len(n);
    let pad = if len < width {
        width - len
    } else {
        0
    };
    let mut i: usize = 0;
    while i < pad
        invariant
            i <= pad,
            s@ == old(s)@ + zeros(i as nat),
        decreases pad - i,
    {
        push_char(s, '0');
        i += 1;
        assert(s@ =~= old(s)@ + zeros(i as nat));
    }
    push_decimal(s, n);
    assert(s@ =~= old(s)@ + padded_number(n as nat, width as nat));
}

/// The name that `template` gives the file for `tag` where `count` files
/// exist already.
pub fn filename_for_tag(template: &str, tag: &[u8], count: usize) -> (r: Result<
    String,
    UnweaveError,
>)
    ensures
        match (r, filename_for(template@, tag@, count as nat)) {
            (Ok(name), Ok(expected)) => name@ == expected,
            (Err(e), Err(expected)) => e == expected,
            _ => false,
        },
{
    let tag_text = match check_utf8(tag) {
        Ok(text) => text,
        Err(_) => {
            return Err(UnweaveError::InvalidTagEncoding);
        },
    };
    proof {
        vstd::utf8::encode_utf8_decode_utf8(tag_text@);
    }
    let n = template.unicode_len();
    let mut fname = String::new();
    let mut inspecial = false;
    let mut width: usize = 0;
    let mut i: usize = 0;
    while i < n
        invariant
            i <= n,
            n == template@.len(),
            tag_text@ == decode_utf8(tag@),
            valid_utf8(tag@),
            expand_from(
                template@,
                i as int,
                inspecial,
                width as nat,
                fname@,
                tag_text@,
                count as nat,
            ) == filename_for(template@, tag@, count as nat),
        decreases n - i,
    {
        let c = template.get_char(i);
        if !inspecial {
            if c == '%' {
                inspecial = true;
                width = 0;
            } else {
                push_char(&mut fname, c);
            }
        } else if c == '%' {
            push_char(&mut fname, c);
            inspecial = false;
        } else if c == 't' {
            fname.append(tag_text);
            inspecial = false;
        } else if c == 'd' {
            push_padded_number(&mut fname, count, width);
            inspecial = false;
        } else if c >= '0' && c <= '9' {
            let digit = (c as u32 - '0' as u32) as usize;
            if width > (usize::MAX - digit) / 10 {
                return Err(UnweaveError::InvalidOutputFilePattern(c));
            }
            width = width * 10 + digit;
        } else {
            return Err(UnweaveError::InvalidOutputFilePattern(c));
        }
        i += 1;
    }
    if inspecial {
        return Err(UnweaveError::IncompleteOutputFilePattern);
    }
    Ok(fname)
}

/// A file that a run has written: its name and what it holds.
pub struct OutputFile {
    pub name: String,
    pub content: Vec<u8>,
}

/// The files of a run: the name and the content of each, in the order in
/// which they were made, and for each tag seen the file of its stream.
pub struct FileSet {
    pub names: Seq<Seq<char>>,
    pub contents: Seq<Seq<u8>>,
    pub tags: Map<Seq<u8>, usize>,
}

impl FileSet {
    /// No files.
    pub open spec fn empty() -> FileSet {
        FileSet { names: Seq::empty(), contents: Seq::empty(), tags: Map::empty() }
    }

    /// Every file has one name and one content, no two files have the same
    /// name, and every tag has one of the files.
    pub open spec fn wf(self) -> bool {
        &&& self.names.len() == self.contents.len()
        &&& self.names.no_duplicates()
        &&& forall|tag: Seq<u8>| #[trigger]
            self.tags.contains_key(tag) ==> self.tags[tag] < self.names.len()
    }

    /// The files once `tag` has one, and which it is. A tag that is new gets
    /// the file that the template names for it: one that exists already
    /// under that name, or else a new, empty one.
    pub open spec fn assign(self, template: Seq<char>, tag: Seq<u8>) -> Result<
        (FileSet, int),
        UnweaveError,
    > {
        if self.tags.contains_key(tag) {
            Ok((self, self.tags[tag] as int))
        } else {
            match filename_for(template, tag, self.names.len()) {
                Err(e) => Err(e),
                Ok(name) => {
                    if self.names.contains(name) {
                        let i = self.names.index_of(name);
                        Ok(
                            (
                                FileSet {
                                    names: self.names,
                                    contents: self.contents,
                                    tags: self.tags.insert(tag, i as usize),
                                },
                                i,
                            ),
                        )
                    } else {
                        let i = self.names.len() as int;
                        Ok(
                            (
                                FileSet {
                                    names: self.names.push(name),
                                    contents: self.contents.push(Seq::empty()),
                                    tags: self.tags.insert(tag, i as usize),
                                },
                                i,
                            ),
                        )
                    }
                },
            }
        }
    }

    /// The files after `line` and a newline have gone to file `i`.
    pub open spec fn append(self, i: int, line: Seq<u8>) -> FileSet {
        FileSet {
            names: self.names,
            contents: self.contents.update(i, self.contents[i] + line.push(0x0au8)),
            tags: self.tags,
        }
    }
}

/// The files after `line`. A line without a tag leaves them as they are.
pub open spec fn write_line(
    template: Seq<char>,
    pattern: Seq<char>,
    set: FileSet,
    line: Seq<u8>,
) -> Result<FileSet, UnweaveError> {
    match tag_of(pattern, line) {
        None => Ok(set),
        Some(tag) => match set.assign(template, tag) {
            Err(e) => Err(e),
            Ok((next, i)) => Ok(next.append(i, line)),
        },
    }
}

/// The files after `lines`, one after the other, or what stopped the run.
pub open spec fn write_lines(
    template: Seq<char>,
    pattern: Seq<char>,
    set: FileSet,
    lines: Seq<Seq<u8>>,
) -> Result<FileSet, UnweaveError>
    decreases lines.len(),
{
    if lines.len() == 0 {
        Ok(set)
    } else {
        match write_lines(template, pattern, set, lines.drop_last()) {
            Err(e) => Err(e),
            Ok(before) => write_line(template, pattern, before, lines.last()),
        }
    }
}

/// A run that has failed stays failed.
pub proof fn lemma_write_lines_failed(
    template: Seq<char>,
    pattern: Seq<char>,
    set: FileSet,
    lines: Seq<Seq<u8>>,
    i: int,
)
    requires
        0 <= i <= lines.len(),
        write_lines(template, pattern, set, lines.take(i)) is Err,
    ensures
        write_lines(template, pattern, set, lines) == write_lines(
            template,
            pattern,
            set,
            lines.take(i),
        ),
    decreases lines.len() - i,
{
    if i < lines.len() {
        assert(lines.take(i + 1).drop_last() =~= lines.take(i));
        lemma_write_lines_failed(template, pattern, set, lines, i + 1);
    } else {
        assert(lines.take(i) =~= lines);
    }
}

/// The names of the files, in order.
pub open spec fn file_names(files: Seq<OutputFile>) -> Seq<Seq<char>> {
    Seq::new(files.len(), |i: int| files[i].name@)
}

/// The contents of the files, in order.
pub open spec fn file_contents(files: Seq<OutputFile>) -> Seq<Seq<u8>> {
    Seq::new(files.len(), |i: int| files[i].content@)
}

/// Makes the files of a run and finds for each tag the file of its stream.
///
/// The files are named after a template, in which `%t` stands for the tag
/// and `%Nd` for the number of the stream, counted from 0 and padded with
/// zeros to N digits.
pub struct OutputFiles {
    template: String,
    files: Vec<OutputFile>,
    write_for_tag_map: AHashMap<Vec<u8>, usize>,
    write_for_filename_map: AHashMap<Vec<u8>, usize>,
}

impl View for OutputFiles {
    type V = FileSet;

    closed spec fn view(&self) -> FileSet {
        FileSet {
            names: file_names(self.files@),
            contents: file_contents(self.files@),
            tags: tag_indices(self.write_for_tag_map),
        }
    }
}

impl OutputFiles {
    /// The template that the files are named after.
    pub closed spec fn template(&self) -> Seq<char> {
        self.template@
    }

    /// The map from name to file holds each file under the bytes of its
    /// name, and every tag has one of the files.
    pub closed spec fn wf(&self) -> bool {
        let names = tag_indices(self.write_for_filename_map);
        &&& self@.wf()
        &&& forall|i: int|
            0 <= i < self.files@.len() ==> names.contains_key(
                #[trigger] encode_utf8(self.files@[i].name@),
            ) && names[encode_utf8(self.files@[i].name@)] == i
        &&& forall|key: Seq<u8>| #[trigger]
            names.contains_key(key) ==> names[key] < self.files@.len() && encode_utf8(
                self.files@[names[key] as int].name@,
            ) == key
    }

    /// What well-formed output files hold is a well-formed set of files.
    pub proof fn lemma_wf(&self)
        requires
            self.wf(),
        ensures
            self@.wf(),
    {
    }

    /// No files yet, to be named after `template`. A template that cannot
    /// name a file is refused at once.
    pub fn new_for_template(template: &str) -> (r: Result<OutputFiles, UnweaveError>)
        ensures
            match (r, filename_for(template@, Seq::empty(), 0)) {
                (Ok(files), Ok(_)) => {
                    &&& files.wf()
                    &&& files@ == FileSet::empty()
                    &&& files.template() == template@
                },
                (Err(e), Err(expected)) => e == expected,
                _ => false,
            },
    {
        let output_files = OutputFiles {
            template: template.to_owned(),
            files: Vec::new(),
            write_for_tag_map: tag_map_new(),
            write_for_filename_map: tag_map_new(),
        };
        // A name is made for no tag, to find a template that is wrong early.
        let no_tag: [u8; 0] = [];
        assert(no_tag@ =~= Seq::<u8>::empty());
        match filename_for_tag(template, no_tag.as_slice(), 0) {
            Ok(_) => {
                assert(output_files@.names =~= Seq::<Seq<char>>::empty());
                assert(output_files@.contents =~= Seq::<Seq<u8>>::empty());
                Ok(output_files)
            },
            Err(e) => Err(e),
        }
    }

    /// The file for `tag`, by its place among the files. A tag that is new
    /// gets the file that the template names for it, which is made where no
    /// file has that name yet.
    pub fn write_for_tag(&mut self, tag: &[u8]) -> (r: Result<usize, UnweaveError>)
        requires
            old(self).wf(),
        ensures
            final(self).wf(),
            final(self).template() == old(self).template(),
            match (r, old(self)@.assign(old(self).template(), tag@)) {
                (Ok(i), Ok((set, expected))) => {
                    &&& i == expected
                    &&& final(self)@ == set
                    &&& i < set.names.len()
                },
                (Err(e), Err(expected)) => e == expected && final(self)@ == old(self)@,
                _ => false,
            },
    {
        if let Some(w) = tag_map_get(&self.write_for_tag_map, tag) {
            return Ok(w);
        }
        let filename = match filename_for_tag(self.template.as_str(), tag, self.files.len()) {
            Ok(name) => name,
            Err(e) => {
                return Err(e);
            },
        };
        let ghost before = *self;
        let ghost names = file_names(self.files@);
        let key = filename.as_str().as_bytes();
        proof {
            vstd::utf8::encode_utf8_decode_utf8(filename@);
            assert forall|i: int| 0 <= i < names.len() implies (names[i] == filename@
                <==> encode_utf8(self.files@[i].name@) == key@) by {
                vstd::utf8::encode_utf8_decode_utf8(self.files@[i].name@);
            }
        }
        let w = match tag_map_get(&self.write_for_filename_map, key) {
            Some(w) => {
                proof {
                    assert(names[w as int] == filename@);
                    names.index_of_first_ensures(filename@);
                    assert(names[names.index_of(filename@)] == filename@);
                }
                w
            },
            None => {
                proof {
                    if names.contains(filename@) {
                        let i = names.index_of(filename@);
                        names.index_of_first_ensures(filename@);
                        assert(names[i] == filename@);
                        assert(encode_utf8(self.files@[i].name@) == key@);
                    }
                }
                let w = self.files.len();
                tag_map_insert(&mut self.write_for_filename_map, key, w);
                self.files.push(OutputFile { name: filename, content: Vec::new() });
                proof {
                    assert(file_names(self.files@) =~= names.push(filename@));
                    assert(file_contents(self.files@) =~= file_contents(before.files@).push(
                        Seq::empty(),
                    ));
                    assert forall|i: int, j: int|
                        0 <= i < names.len() + 1 && 0 <= j < names.len() + 1 && i != j implies names.push(
                        filename@,
                    )[i] != names.push(filename@)[j] by {
                        if i < names.len() && j < names.len() {
                        } else if i < names.len() {
                            assert(names.contains(names[i]));
                        } else {
                            assert(names.contains(names[j]));
                        }
                    }
                    assert forall|i: int| 0 <= i < self.files@.len() implies tag_indices(
                        self.write_for_filename_map,
                    ).contains_key(#[trigger] encode_utf8(self.files@[i].name@)) && tag_indices(
                        self.write_for_filename_map,
                    )[encode_utf8(self.files@[i].name@)] == i by {
                        if i < w {
                            assert(self.files@[i] == before.files@[i]);
                            assert(names[i] != filename@) by {
                                assert(names.contains(names[i]));
                            }
                        }
                    }
                    assert forall|k: Seq<u8>| #[trigger]
                        tag_indices(self.write_for_filename_map).contains_key(k) implies tag_indices(
                        self.write_for_filename_map,
                    )[k] < self.files@.len() && encode_utf8(
                        self.files@[tag_indices(self.write_for_filename_map)[k] as int].name@,
                    ) == k by {
                        if k != key@ {
                            let i = tag_indices(before.write_for_filename_map)[k];
                            assert(self.files@[i as int] == before.files@[i as int]);
                        }
                    }
                }
                w
            },
        };
        tag_map_insert(&mut self.write_for_tag_map, tag, w);
        Ok(w)
    }

    /// Puts `line` and a newline at the end of file `index`.
    pub fn append_line(&mut self, index: usize, line: &[u8])
        requires
            old(self).wf(),
            index < old(self)@.names.len(),
        ensures
            final(self).wf(),
            final(self).template() == old(self).template(),
            final(self)@ == old(self)@.append(index as int, line@),
    {
        let ghost before = *self;
        self.files[index].content.extend_from_slice(line);
        let ghost middle = *self;
        assert(forall|i: int|
            0 <= i < self.files@.len() && i != index ==> self.files@[i] == before.files@[i]);
        assert(self.files@[index as int].name == before.files@[index as int].name);
        self.files[index].content.push(0x0au8);
        proof {
            assert(forall|i: int|
                0 <= i < self.files@.len() && i != index ==> self.files@[i] == middle.files@[i]);
            assert(self.files@[index as int].name == middle.files@[index as int].name);
            assert(self.files@[index as int].content@ == before.files@[index as int].content@
                + line@.push(0x0au8)) by {
                assert(self.files@[index as int].content@ =~= before.files@[index as int].content@
                    + line@.push(0x0au8));
            }
            assert forall|i: int| 0 <= i < self.files@.len() implies #[trigger] self.files@[i].name
                == before.files@[i].name by {
                if i != index {
                    assert(self.files@[i] == middle.files@[i]);
                }
            }
            assert(file_names(self.files@) =~= file_names(before.files@));
            assert(file_contents(self.files@) =~= file_contents(before.files@).update(
                index as int,
                file_contents(before.files@)[index as int] + line@.push(0x0au8),
            ));
            assert(self.write_for_filename_map == before.write_for_filename_map);
            assert(self.write_for_tag_map == before.write_for_tag_map);
            let names = tag_indices(self.write_for_filename_map);
            assert(self@.names == before@.names);
            assert(self@.tags == before@.tags);
            assert(self@.contents.len() == before@.contents.len());
            assert(self@.wf());
            assert forall|i: int| 0 <= i < self.files@.len() implies names.contains_key(
                #[trigger] encode_utf8(self.files@[i].name@),
            ) && names[encode_utf8(self.files@[i].name@)] == i by {
                assert(self.files@[i].name == before.files@[i].name);
            }
            assert forall|key: Seq<u8>| #[trigger] names.contains_key(key) implies names[key]
                < self.files@.len() && encode_utf8(self.files@[names[key] as int].name@) == key by {
                assert(self.files@[names[key] as int].name == before.files@[names[key] as int].name);
            }
        }
    }

    /// The number of files made so far.
    pub fn count(&self) -> (n: usize)
        ensures
            n == self@.names.len(),
    {
        self.files.len()
    }

    /// The name of file `index`.
    pub fn name(&self, index: usize) -> (name: &str)
        requires
            index < self@.names.len(),
        ensures
            name@ == self@.names[index as int],
    {
        self.files[index].name.as_str()
    }

    /// The files, in the order in which they were made.
    pub fn into_files(self) -> (files: Vec<OutputFile>)
        ensures
            file_names(files@) == self@.names,
            file_contents(files@) == self@.contents,
    {
        self.files
    }
}

/// Sends the lines at `spans` to the files of their streams.
pub fn write_streams(
    finder: &TagFinder,
    files: OutputFiles,
    inputs: &[&[u8]],
    spans: &Vec<LineSpan>,
) -> (r: Result<Vec<OutputFile>, UnweaveError>)
    requires
        files.wf(),
        forall|i: int| 0 <= i < spans@.len() ==> (#[trigger] spans@[i]).valid(contents_of(inputs@)),
    ensures
        match (
            r,
            write_lines(
                files.template(),
                finder.pattern(),
                files@,
                span_lines(contents_of(inputs@), spans@),
            ),
        ) {
            (Ok(written), Ok(set)) => file_names(written@) == set.names && file_contents(written@)
                == set.contents,
            (Err(e), Err(expected)) => e == expected,
            _ => false,
        },
{
    let mut output_files = files;
    let ghost lines = span_lines(contents_of(inputs@), spans@);
    let ghost template = files.template();
    let ghost pattern = finder.pattern();
    let ghost start = files@;
    let mut i: usize = 0;
    assert(lines.take(0) =~= Seq::<Seq<u8>>::empty());
    while i < spans.len()
        invariant
            i <= spans.len(),
            lines == span_lines(contents_of(inputs@), spans@),
            forall|k: int|
                0 <= k < spans@.len() ==> (#[trigger] spans@[k]).valid(contents_of(inputs@)),
            pattern == finder.pattern(),
            template == files.template(),
            start == files@,
            output_files.wf(),
            output_files.template() == template,
            write_lines(template, pattern, start, lines.take(i as int)) == Ok::<
                FileSet,
                UnweaveError,
            >(output_files@),
        decreases spans.len() - i,
    {
        let line = spans[i].slice(inputs);
        assert(line@ == lines[i as int]);
        assert(lines.take(i + 1).drop_last() =~= lines.take(i as int));
        match finder.find_in(line) {
            Some(range) => {
                let tag = vstd::slice::slice_subrange(line, range.start, range.end);
                assert(tag_of(pattern, line@) == Some(tag@));
                match output_files.write_for_tag(tag) {
                    Ok(index) => {
                        output_files.append_line(index, line);
                    },
                    Err(e) => {
                        proof {
                            lemma_write_lines_failed(template, pattern, start, lines, i + 1);
                        }
                        return Err(e);
                    },
                }
            },
            None => {},
        }
        i += 1;
    }
    assert(lines.take(i as int) =~= lines);
    Ok(output_files.into_files())
}

/// Unweaves `inputs` into files, one file for each stream, named after the
/// template that the options give as output.
///
/// Without a template there is nothing to name the files after. A template
/// that names no file stops the run before anything else, and then a pattern
/// that the regular expression engine refuses. Else the lines are sent to
/// their files, up to a tag that names no file.
pub fn unweave_into_files(opts: &UnweaveOptionsFiles, inputs: &[&[u8]]) -> (r: Result<
    Vec<OutputFile>,
    UnweaveError,
>)
    ensures
        match opts.output {
            None => r matches Err(e) && e is MissingOption,
            Some(template) => match filename_for(template@, Seq::empty(), 0) {
                Err(expected) => r matches Err(e) && e == expected,
                Ok(_) => if regex_refusal(opts.pattern@) is Some {
                    r matches Err(e) && refuses(opts.pattern@, e)
                } else {
                    match (
                        r,
                        write_lines(
                            template@,
                            opts.pattern@,
                            FileSet::empty(),
                            all_lines(contents_of(inputs@)),
                        ),
                    ) {
                        (Ok(written), Ok(set)) => file_names(written@) == set.names
                            && file_contents(written@) == set.contents,
                        (Err(e), Err(expected)) => e == expected,
                        _ => false,
                    }
                },
            },
        },
{
    let template = match &opts.output {
        Some(t) => t,
        None => {
            return Err(UnweaveError::MissingOption("output"));
        },
    };
    let output_files = match OutputFiles::new_for_template(template.as_str()) {
        Ok(files) => files,
        Err(e) => {
            return Err(e);
        },
    };
    let tag_finder = match TagFinder::new(opts.pattern.as_str()) {
        Ok(finder) => finder,
        Err(e) => {
            return Err(e);
        },
    };
    let spans = line_spans(inputs);
    write_streams(&tag_finder, output_files, inputs, &spans)
}

} // verus!
