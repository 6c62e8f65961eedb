//! Diagnostics: a place in the source, a message, and the five-line report
//! that shows both.
use crate::span::{Offset, SourceFiles, Span};
use crate::text::{
    byte_len, decimal, index_at, len_utf8, lemma_byte_len_take, lemma_index_at, push_char,
    push_decimal, split_first, utf8_width,
};
use vstd::prelude::*;
use vstd::string::{StrSliceExecFns, StringExecFns};

verus! {

/// The place that a diagnostic points at: one byte, or a span.
pub enum Highlight {
    Point(Offset),
    Span(Span),
}

impl Highlight {
    /// The address of the first byte.
    pub open spec fn spec_start(&self) -> int {
        match self {
            Highlight::Point(start) => start.0 as int,
            Highlight::Span(span) => span.start.0 as int,
        }
    }

    /// The number of bytes: one for a point.
    pub open spec fn spec_len(&self) -> int {
        match self {
            Highlight::Point(_) => 1,
            Highlight::Span(span) => span.length.0 as int,
        }
    }

    /// The address of the first byte.
    #[inline]
    pub fn start(&self) -> (r: Offset)
        ensures
            r.0 == self.spec_start(),
    {
        match self {
            Highlight::Point(start) => *start,
            Highlight::Span(span) => span.start,
        }
    }

    /// One for a point, the span's length otherwise.
    #[inline]
    pub fn len(&self) -> (r: Offset)
        ensures
            r.0 == self.spec_len(),
    {
        match self {
            Highlight::Point(_) => Offset(1),
            Highlight::Span(span) => span.length,
        }
    }

    /// The address after the last byte.
    #[inline]
    pub fn end(&self) -> (r: Offset)
        requires
            self.spec_start() + self.spec_len() <= u32::MAX,
        ensures
            r.0 == self.spec_start() + self.spec_len(),
    {
        self.start().add(self.len().to_u32())
    }
}

/// A diagnostic: what to point at, and what to say.
pub struct Error {
    pub highlight: Highlight,
    pub message: String,
}

/// `n` times the character `c`.
pub open spec fn repeat(c: char, n: int) -> Seq<char> {
    Seq::new(n as nat, |i: int| c)
}

/// The marker line under a source line: a space for each character that
/// starts before byte `from` of the line, then a caret for each character
/// that starts before byte `to`. Nothing is written for the characters from
/// `to` on, nor past the end of the line.
pub open spec fn highlight_text(line: Seq<char>, from: int, to: int) -> Seq<char> {
    let blank = index_at(line, from);
    let shown = index_at(line, to);
    repeat(' ', blank) + repeat('^', shown - blank)
}

/// More characters start before a later byte.
pub proof fn lemma_index_at_monotonic(chars: Seq<char>, from: int, to: int)
    requires
        from <= to,
    ensures
        index_at(chars, from) <= index_at(chars, to),
    decreases chars.len(),
{
    if chars.len() > 0 && from > 0 {
        let width = utf8_width(chars[0]);
        lemma_index_at_monotonic(chars.drop_first(), from - width, to - width);
    } else {
        lemma_index_at(chars, to);
    }
}

/// The marker line for `region` under `line`, which starts at `line_offset`.
/// A point is marked as a span of one byte.
pub fn highlight<'src>(line: &'src str, line_offset: Offset, region: Highlight) -> (text: String)
    requires
        line_offset.0 <= region.spec_start(),
        region.spec_start() + region.spec_len() <= u32::MAX,
    ensures
        text@ == highlight_text(
            line@,
            region.spec_start() - line_offset.0,
            region.spec_start() + region.spec_len() - line_offset.0,
        ),
{
    let from: u64 = (region.start().to_u32() - line_offset.to_u32()) as u64;
    let to: u64 = (region.end().to_u32() - line_offset.to_u32()) as u64;
    let ghost chars = line@;
    let ghost blank = index_at(chars, from as int);
    let ghost shown = index_at(chars, to as int);
    let mut string = String::new();
    let mut rest = line;
    let mut pos: u64 = 0;
    let ghost mut idx: int = 0;
    proof {
        lemma_index_at(chars, from as int);
        lemma_index_at(chars, to as int);
        lemma_index_at_monotonic(chars, from as int, to as int);
        assert(chars.take(0) =~= Seq::<char>::empty());
        assert(chars.skip(0) =~= chars);
        assert(string@ =~= repeat(' ', 0) + repeat('^', 0));
    }
    loop
        invariant
            chars == line@,
            from <= to <= u32::MAX,
            blank == index_at(chars, from as int),
            shown == index_at(chars, to as int),
            0 <= blank <= shown <= chars.len(),
            0 <= idx <= shown,
            rest@ == chars.skip(idx),
            pos == byte_len(chars.take(idx)),
            idx < shown ==> pos < to,
            string@ == repeat(' ', if idx < blank { idx } else { blank }) + repeat(
                '^',
                if idx < blank { 0 } else { idx - blank },
            ),
        ensures
            idx == shown,
        decreases chars.len() - idx,
    {
        proof {
            lemma_index_at(chars, from as int);
            lemma_index_at(chars, to as int);
            if idx < chars.len() {
                lemma_byte_len_take(chars, idx, idx);
                if idx < shown {
                    lemma_byte_len_take(chars, idx + 1, idx + 1);
                    if idx + 1 < shown {
                        assert(byte_len(chars.take(idx + 1)) < to);
                    }
                }
                if idx < blank {
                    assert(byte_len(chars.take(idx)) < from);
                } else if blank < chars.len() {
                    lemma_byte_len_take(chars, blank, idx);
                }
            }
        }
        match split_first(rest) {
            None => {
                break ;
            },
            Some((c, tail)) => {
                if pos >= to {
                    proof {
                        if idx < shown {
                            assert(byte_len(chars.take(idx)) < to);
                        }
                    }
                    break ;
                }
                proof {
                    if idx >= shown {
                        lemma_byte_len_take(chars, shown, idx);
                    }
                    assert(idx < shown);
                }
                let ghost before = string@;
                if pos < from {
                    assert(idx < blank);
                    push_char(&mut string, ' ');
                    assert(string@ =~= repeat(' ', idx + 1) + repeat('^', 0));
                } else {
                    assert(idx >= blank);
                    push_char(&mut string, '^');
                    assert(string@ =~= repeat(' ', blank) + repeat('^', idx + 1 - blank));
                }
                pos = pos + len_utf8(c) as u64;
                rest = tail;
                proof {
                    assert(chars.skip(idx).drop_first() =~= chars.skip(idx + 1));
                    idx = idx + 1;
                }
            },
        }
    }
    string
}

/// An error whose report can be built: it starts inside a registered file
/// on a character other than a newline, and ends inside the address space.
pub open spec fn can_report(src_files: SourceFiles, highlight: Highlight) -> bool {
    let start = Offset(highlight.spec_start() as u32);
    let file = src_files.file_at(start);
    &&& src_files.wf()
    &&& 0 <= highlight.spec_start() < src_files.next()
    &&& highlight.spec_start() + highlight.spec_len() <= u32::MAX
    &&& file.has_line(start)
    &&& !file.at_newline(start)
}

/// Decides `can_report`.
pub fn can_build_report(src_files: &SourceFiles, highlight: &Highlight) -> (ok: bool)
    requires
        src_files.wf(),
    ensures
        ok == can_report(*src_files, *highlight),
{
    let start = highlight.start();
    if start.to_u32() >= src_files.next_addr().to_u32() {
        return false;
    }
    if highlight.len().to_u32() > u32::MAX - start.to_u32() {
        return false;
    }
    let file = src_files.get_by_offset(start);
    match file.char_from(start) {
        None => false,
        Some(c) => c != '\n',
    }
}

/// The five lines of a report: the file's name; an empty gutter; the line's
/// number and text; the gutter and the markers; the message. Each ends in a
/// newline, and the gutter is as wide as the line's number.
pub open spec fn report_lines(src_files: SourceFiles, error: Error) -> Seq<Seq<char>> {
    let start = Offset(error.highlight.spec_start() as u32);
    let file = src_files.file_at(start);
    let line = file.line_at(start);
    let number = decimal(line.number as nat);
    let padding = repeat(' ', number.len() as int);
    let marks = highlight_text(
        line.content,
        error.highlight.spec_start() - line.offset,
        error.highlight.spec_start() + error.highlight.spec_len() - line.offset,
    );
    seq![
        file.name@ + seq!['\n'],
        padding + seq![' ', '|', '\n'],
        number + seq![' ', '|', ' '] + line.content + seq!['\n'],
        padding + seq![' ', '|', ' '] + marks + seq!['\n'],
        error.message@ + seq!['\n'],
    ]
}

/// Builds the five lines of the report for `error`: see `report_lines`.
pub fn __build_report(src_files: &SourceFiles, error: Error) -> (lines: [String; 5])
    requires
        can_report(*src_files, error.highlight),
    ensures
        lines@.len() == 5,
        forall|i: int| 0 <= i < 5 ==> (#[trigger] lines@[i])@ == report_lines(*src_files, error)[i],
{
    let error_start = error.highlight.start();
    let src_file = src_files.get_by_offset(error_start);
    let line = src_file.get_line(error_start);
    proof {
        src_file.lemma_line_starts_before(error_start);
    }
    let ghost expected = report_lines(*src_files, error);
    let ghost message = error.message@;
    let marks = highlight(line.content, line.offset, error.highlight);

    let mut line_number_string = String::new();
    push_decimal(&mut line_number_string, line.number as u64);
    assert(line_number_string@ =~= decimal(line.number as nat));
    let width = line_number_string.as_str().unicode_len();
    let mut line_number_padding = String::new();
    let mut i: usize = 0;
    assert(line_number_padding@ =~= repeat(' ', 0));
    while i < width
        invariant
            i <= width,
            line_number_padding@ == repeat(' ', i as int),
        decreases width - i,
    {
        push_char(&mut line_number_padding, ' ');
        i += 1;
        assert(line_number_padding@ =~= repeat(' ', i as int));
    }

    let mut line0 = src_file.name.clone();
    push_char(&mut line0, '\n');

    let mut line1 = line_number_padding.clone();
    push_char(&mut line1, ' ');
    push_char(&mut line1, '|');
    push_char(&mut line1, '\n');

    let mut line2 = line_number_string;
    push_char(&mut line2, ' ');
    push_char(&mut line2, '|');
    push_char(&mut line2, ' ');
    line2.append(line.content);
    push_char(&mut line2, '\n');

    let mut line3 = line_number_padding;
    push_char(&mut line3, ' ');
    push_char(&mut line3, '|');
    push_char(&mut line3, ' ');
    line3.append(marks.as_str());
    push_char(&mut line3, '\n');

    let mut line4 = error.message;
    push_char(&mut line4, '\n');

    proof {
        assert(line0@ =~= expected[0]);
        assert(line1@ =~= expected[1]);
        assert(line2@ =~= expected[2]);
        assert(line3@ =~= expected[3]);
        assert(line4@ =~= expected[4]);
    }
    [line0, line1, line2, line3, line4]
}

} // verus!
