//! Byte offsets into registered source text, spans, files and lines.
use crate::text::{first_char, 
    byte_len, byte_length, index_at, len_utf8, lemma_byte_len_nonnegative, lemma_byte_len_take,
    lemma_index_at, split_at_chars, split_first, str_eq, utf8_width,
};
use vstd::prelude::*;

verus! {

/// An address into the text of `SourceFiles`, in bytes.
#[derive(Clone, PartialOrd, Ord, Copy, Debug, PartialEq, Eq, Structural)]
pub struct Offset(pub u32);

impl Offset {
    /// Moves the address `n` bytes on.
    #[inline]
    pub fn add_mut(&mut self, n: u32)
        requires
            old(self).0 + n <= u32::MAX,
        ensures
            final(self).0 == old(self).0 + n,
    {
        self.0 = self.0 + n;
    }

    /// The address `n` bytes further on.
    #[inline]
    pub fn add(self, n: u32) -> (r: Self)
        requires
            self.0 + n <= u32::MAX,
        ensures
            r.0 == self.0 + n,
    {
        Offset(self.0 + n)
    }

    /// The address `n` bytes before.
    #[inline]
    pub fn subtract(self, n: u32) -> (r: Self)
        requires
            n <= self.0,
        ensures
            r.0 == self.0 - n,
    {
        Offset(self.0 - n)
    }

    /// The address as a `usize`.
    #[inline]
    pub fn to_usize(self) -> (r: usize)
        ensures
            r == self.0,
    {
        self.0 as usize
    }

    /// The address as a `u32`.
    #[inline]
    pub fn to_u32(self) -> (r: u32)
        ensures
            r == self.0,
    {
        self.0
    }
}

/// The bytes from `start` up to, not including, `start + length`.
#[derive(Clone, Copy, Debug, PartialEq, Eq, Structural)]
pub struct Span {
    pub start: Offset,
    pub length: Offset,
}

impl Span {
    /// The address after the last byte of the span.
    #[inline]
    pub fn end(&self) -> (r: Offset)
        requires
            self.start.0 + self.length.0 <= u32::MAX,
        ensures
            r.0 == self.start.0 + self.length.0,
    {
        self.start.add(self.length.to_u32())
    }
}

/// A named text that occupies the addresses from `start` up to, not
/// including, `start` plus the number of bytes of `content`.
#[derive(Debug)]
pub struct SourceFile {
    pub name: String,
    pub start: Offset,
    pub content: String,
}

/// A line of a file, without the newline that ends it.
#[derive(PartialEq, Eq, Debug)]
pub struct Line<'src> {
    /// Address of the line's first byte.
    pub offset: Offset,
    /// Number of the line in its file; the first line is 1.
    pub number: u32,
    pub content: &'src str,
}

/// What a `Line` denotes.
pub struct LineView {
    pub offset: int,
    pub number: int,
    pub content: Seq<char>,
}

impl<'src> View for Line<'src> {
    type V = LineView;

    open spec fn view(&self) -> LineView {
        LineView {
            offset: self.offset.0 as int,
            number: self.number as int,
            content: self.content@,
        }
    }
}

/// Lines end in `\n`.
pub open spec fn newline_char(c: char) -> bool {
    c == '\n'
}

/// The number of newlines in `chars`.
pub open spec fn count_newlines(chars: Seq<char>) -> int
    decreases chars.len(),
{
    if chars.len() == 0 {
        0
    } else {
        count_newlines(chars.drop_last()) + if newline_char(chars.last()) {
            1int
        } else {
            0int
        }
    }
}

/// The index at which the line begins that holds position `i`: the position
/// after the last newline before `i`, or 0.
pub open spec fn start_of_line(chars: Seq<char>, i: int) -> int
    decreases i,
{
    if i <= 0 {
        0
    } else if newline_char(chars[i - 1]) {
        i
    } else {
        start_of_line(chars, i - 1)
    }
}

/// The number of characters of `chars` before its first newline.
pub open spec fn line_len(chars: Seq<char>) -> int
    decreases chars.len(),
{
    if chars.len() == 0 || newline_char(chars[0]) {
        0
    } else {
        1 + line_len(chars.drop_first())
    }
}

/// There are no more newlines than characters.
pub proof fn lemma_count_newlines_bound(chars: Seq<char>)
    ensures
        0 <= count_newlines(chars) <= chars.len(),
    decreases chars.len(),
{
    if chars.len() > 0 {
        lemma_count_newlines_bound(chars.drop_last());
    }
}

/// A line begins at or before any position in it.
pub proof fn lemma_start_of_line_bound(chars: Seq<char>, i: int)
    requires
        0 <= i,
    ensures
        0 <= start_of_line(chars, i) <= i,
    decreases i,
{
    if i > 0 && !newline_char(chars[i - 1]) {
        lemma_start_of_line_bound(chars, i - 1);
    }
}

/// A line is no longer than the text.
pub proof fn lemma_line_len_bound(chars: Seq<char>)
    ensures
        0 <= line_len(chars) <= chars.len(),
    decreases chars.len(),
{
    if chars.len() > 0 && !newline_char(chars[0]) {
        lemma_line_len_bound(chars.drop_first());
    }
}

fn is_newline(c: &char) -> (r: bool)
    ensures
        r == newline_char(*c),
{
    *c == '\n'
}

impl SourceFile {
    /// The file and the one-byte end marker that follows it fit in the
    /// 32-bit address space.
    pub open spec fn wf(&self) -> bool {
        self.start.0 + byte_len(self.content@) < u32::MAX
    }

    /// The address after the file's last byte.
    pub open spec fn end(&self) -> int {
        self.start.0 + byte_len(self.content@)
    }

    /// Some character of the file starts at `offset` or after it.
    pub open spec fn has_line(&self, offset: Offset) -> bool {
        &&& self.start.0 <= offset.0
        &&& index_at(self.content@, offset.0 - self.start.0) < self.content@.len()
    }

    /// The line that `get_line` finds for `offset`. Let `c` be the first
    /// character that starts at `offset` or after it. The line is the one that
    /// holds `c`; where `c` is a newline, the line that follows it.
    pub open spec fn line_at(&self, offset: Offset) -> LineView {
        let chars = self.content@;
        let after = index_at(chars, offset.0 - self.start.0) + 1;
        let first = start_of_line(chars, after);
        LineView {
            offset: self.start.0 + byte_len(chars.take(first)),
            number: 1 + count_newlines(chars.take(after)),
            content: chars.subrange(first, after + line_len(chars.skip(after))),
        }
    }

    /// The character that `get_line` goes by for `offset` is a newline.
    pub open spec fn at_newline(&self, offset: Offset) -> bool {
        newline_char(self.content@[index_at(self.content@, offset.0 - self.start.0)])
    }

    /// The line for an address that is not at a newline starts at or before
    /// the address.
    pub proof fn lemma_line_starts_before(&self, offset: Offset)
        requires
            self.has_line(offset),
            !self.at_newline(offset),
        ensures
            self.line_at(offset).offset <= offset.0,
    {
        let chars = self.content@;
        let rel = offset.0 - self.start.0;
        let target = index_at(chars, rel);
        let first = start_of_line(chars, target + 1);
        lemma_index_at(chars, rel);
        lemma_start_of_line_bound(chars, target);
        assert(first == start_of_line(chars, target));
        if first == target {
            if target > 0 {
                lemma_start_of_line_bound(chars, target - 1);
                assert(newline_char(chars[target - 1]));
                lemma_byte_len_take(chars, target - 1, target - 1);
                assert(byte_len(chars.take(target - 1)) < rel);
            } else {
                assert(chars.take(0) =~= Seq::<char>::empty());
            }
        } else {
            assert(byte_len(chars.take(first)) < rel);
        }
    }

    /// Decides `wf`.
    pub fn fits(&self) -> (r: bool)
        ensures
            r == self.wf(),
    {
        let size = byte_length(self.content.as_str());
        size < (u32::MAX - self.start.to_u32()) as usize
    }

    /// The first character that starts at `offset` or after it, if the file
    /// holds `offset` or a later address and has such a character.
    pub fn char_from(&self, offset: Offset) -> (found: Option<char>)
        ensures
            found == if self.has_line(offset) {
                Some(self.content@[index_at(self.content@, offset.0 - self.start.0)])
            } else {
                None::<char>
            },
    {
        if offset.to_u32() < self.start.to_u32() {
            return None;
        }
        let rel: u64 = (offset.to_u32() - self.start.to_u32()) as u64;
        let ghost chars = self.content@;
        let mut rest = self.content.as_str();
        let mut pos: u64 = 0;
        let ghost mut idx: int = 0;
        proof {
            assert(chars.skip(0) =~= chars);
            assert(chars.take(0) =~= Seq::<char>::empty());
        }
        loop
            invariant
                chars == self.content@,
                self.start.0 <= offset.0,
                rel == offset.0 - self.start.0,
                0 <= idx <= chars.len(),
                rest@ == chars.skip(idx),
                pos == byte_len(chars.take(idx)),
                pos <= rel + 4 * idx,
                index_at(chars, rel as int) == idx + index_at(rest@, rel - pos),
            decreases chars.len() - idx,
        {
            match split_first(rest) {
                None => {
                    assert(index_at(rest@, rel - pos) == 0);
                    return None;
                },
                Some((c, tail)) => {
                    assert(chars[idx] == c);
                    if pos >= rel {
                        assert(index_at(rest@, rel - pos) == 0);
                        return Some(c);
                    }
                    proof {
                        assert(chars.skip(idx).drop_first() =~= chars.skip(idx + 1));
                        lemma_byte_len_take(chars, idx, idx);
                        assert(index_at(rest@, rel - pos) == 1 + index_at(
                            tail@,
                            rel - pos - utf8_width(c),
                        ));
                        idx = idx + 1;
                    }
                    pos = pos + len_utf8(c) as u64;
                    rest = tail;
                },
            }
        }
    }

    /// The address of the file's first byte.
    #[inline]
    pub fn get_start(&self) -> (r: Offset)
        ensures
            r == self.start,
    {
        self.start
    }

    /// The line for `offset`: see `line_at`. Positions count bytes, so a
    /// character of several bytes takes several addresses.
    pub fn get_line(&self, offset: Offset) -> (line: Line<'_>)
        requires
            self.wf(),
            self.has_line(offset),
        ensures
            line@ == self.line_at(offset),
    {
        let rel: usize = offset.subtract(self.start.to_u32()).to_usize();
        let content = self.content.as_str();
        let ghost chars = content@;
        let ghost target = index_at(chars, rel as int);

        let mut rest = content;
        let mut pos: usize = 0;
        let mut line_start: usize = 0;
        let mut number: u32 = 1;
        let ghost mut idx: int = 0;
        let ghost mut first: int = 0;
        proof {
            lemma_index_at(chars, rel as int);
            lemma_byte_len_nonnegative(chars);
            assert(chars.take(0) =~= Seq::<char>::empty());
            assert(chars.skip(0) =~= chars);
        }
        // Up to and including the first character at or after the offset.
        let mut found = false;
        while !found
            invariant
                chars == self.content@,
                self.wf(),
                target == index_at(chars, rel as int),
                target < chars.len(),
                0 <= idx <= chars.len(),
                rest@ == chars.skip(idx),
                pos == byte_len(chars.take(idx)),
                !found ==> idx <= target && target == idx + index_at(rest@, rel - pos),
                found ==> idx == target + 1,
                first == start_of_line(chars, idx),
                0 <= first <= idx,
                line_start == byte_len(chars.take(first)),
                number == 1 + count_newlines(chars.take(idx)),
            decreases chars.len() - idx + if found { 0int } else { 1int },
        {
            match split_first(rest) {
                None => {
                    proof {
                        assert(rest@.len() == 0);
                        assert(idx == chars.len());
                    }
                    found = true;
                },
                Some((c, tail)) => {
                    proof {
                        assert(chars[idx] == c);
                        assert(chars.skip(idx).drop_first() =~= chars.skip(idx + 1));
                        lemma_byte_len_take(chars, idx, idx);
                        lemma_byte_len_take(chars, idx + 1, chars.len() as int);
                        lemma_byte_len_take(chars, first, idx);
                        assert(chars.take(idx + 1).drop_last() =~= chars.take(idx));
                        lemma_count_newlines_bound(chars.take(idx));
                        lemma_byte_len_nonnegative(chars.take(idx));
                        lemma_index_at(tail@, rel - pos - utf8_width(c));
                        assert(index_at(rest@, rel - pos) == if rel - pos <= 0 {
                            0
                        } else {
                            1 + index_at(tail@, rel - pos - utf8_width(c))
                        });
                    }
                    if pos >= rel {
                        found = true;
                    }
                    pos = pos + len_utf8(c);
                    if is_newline(&c) {
                        number = number + 1;
                        line_start = pos;
                        proof {
                            first = idx + 1;
                        }
                    }
                    proof {
                        idx = idx + 1;
                    }
                    rest = tail;
                },
            }
        }
        // On to the end of that line.
        let ghost after = idx;
        let mut line_end: usize = pos;
        proof {
            lemma_line_len_bound(rest@);
            assert(after == target + 1);
            assert(first == start_of_line(chars, after));
            assert(number == 1 + count_newlines(chars.take(after)));
        }
        loop
            invariant
                chars == self.content@,
                self.wf(),
                0 <= after <= idx <= chars.len(),
                rest@ == chars.skip(idx),
                pos == byte_len(chars.take(idx)),
                line_end == pos,
                after + line_len(chars.skip(after)) == idx + line_len(rest@),
            ensures
                line_len(rest@) == 0,
            decreases chars.len() - idx,
        {
            match split_first(rest) {
                None => {
                    break ;
                },
                Some((c, tail)) => {
                    if is_newline(&c) {
                        break ;
                    }
                    proof {
                        assert(chars.skip(idx).drop_first() =~= chars.skip(idx + 1));
                        lemma_byte_len_take(chars, idx, idx);
                        lemma_byte_len_take(chars, idx + 1, chars.len() as int);
                        lemma_byte_len_nonnegative(chars.take(idx));
                        idx = idx + 1;
                    }
                    pos = pos + len_utf8(c);
                    line_end = pos;
                    rest = tail;
                },
            }
        }
        proof {
            lemma_byte_len_take(chars, first, idx);
            assert(chars.take(idx).take(first) =~= chars.take(first));
        }
        let (through, _) = split_at_chars(content, line_end, Ghost(idx));
        let (_, text) = split_at_chars(through, line_start, Ghost(first));
        proof {
            assert(text@ =~= chars.subrange(first, idx));
            lemma_byte_len_take(chars, first, chars.len() as int);
        }
        Line { offset: self.start.add(line_start as u32), number, content: text }
    }

    /// The text of the file.
    pub fn data<'src>(&'src self) -> (r: &'src str)
        ensures
            r@ == self.content@,
    {
        self.content.as_str()
    }
}

/// The registry of source files: an ordered collection that only grows. The
/// files' ranges follow one another without gap from address 0.
#[derive(Debug)]
pub struct SourceFiles {
    next_addr: Offset,
    files: Vec<SourceFile>,
}

impl SourceFiles {
    /// The registered files, in the order in which they came.
    pub closed spec fn files(&self) -> Seq<SourceFile> {
        self.files@
    }

    /// The address that the next file will start at.
    pub closed spec fn next(&self) -> int {
        self.next_addr.0 as int
    }

    /// Each file fits the address space, the first starts at address 0,
    /// each next one starts where the one before it ends, and the last ends
    /// at the next free address.
    pub open spec fn wf(&self) -> bool {
        let files = self.files();
        &&& forall|i: int| 0 <= i < files.len() ==> (#[trigger] files[i]).wf()
        &&& files.len() == 0 ==> self.next() == 0
        &&& files.len() > 0 ==> files[0].start.0 == 0 && files.last().end() == self.next()
        &&& forall|i: int|
            0 <= i < files.len() - 1 ==> (#[trigger] files[i]).end() == files[i + 1].start.0
    }

    /// The file whose range holds `offset`, where there is one.
    pub open spec fn file_at(&self, offset: Offset) -> SourceFile {
        let i = choose|i: int|
            0 <= i < self.files().len() && (#[trigger] self.files()[i]).start.0 <= offset.0
                < self.files()[i].end();
        self.files()[i]
    }

    /// Some registered file has the name `name`.
    pub open spec fn has_name(&self, name: Seq<char>) -> bool {
        exists|i: int| 0 <= i < self.files().len() && (#[trigger] self.files()[i]).name@ == name
    }

    /// Files come in the order of their addresses: an earlier file ends where
    /// a later one starts, or before.
    pub proof fn lemma_ordered(&self, i: int, j: int)
        requires
            self.wf(),
            0 <= i < j < self.files().len(),
        ensures
            self.files()[i].end() <= self.files()[j].start.0,
        decreases j - i,
    {
        let files = self.files();
        lemma_byte_len_nonnegative(files[j - 1].content@);
        if i + 1 < j {
            self.lemma_ordered(i, j - 1);
        }
        assert(files[j - 1].end() == files[j].start.0);
    }

    /// At most one file's range holds a given address.
    pub proof fn lemma_file_unique(&self, offset: Offset, i: int, j: int)
        requires
            self.wf(),
            0 <= i < self.files().len(),
            0 <= j < self.files().len(),
            self.files()[i].start.0 <= offset.0 < self.files()[i].end(),
            self.files()[j].start.0 <= offset.0 < self.files()[j].end(),
        ensures
            i == j,
    {
        if i < j {
            self.lemma_ordered(i, j);
        } else if j < i {
            self.lemma_ordered(j, i);
        }
    }

    /// A registry without files.
    #[inline]
    pub fn new() -> (r: Self)
        ensures
            r.wf(),
            r.files().len() == 0,
            r.next() == 0,
    {
        SourceFiles { next_addr: Offset(0), files: Vec::new() }
    }

    /// The address that the next file will start at.
    pub fn next_addr(&self) -> (r: Offset)
        ensures
            r.0 == self.next(),
    {
        self.next_addr
    }

    #[inline]
    fn __new_source_file(&mut self, name: String, size: usize, content: String) -> (r: (
        Offset,
        String,
    ))
        requires
            old(self).wf(),
            size == byte_len(content@),
            old(self).next() + size < u32::MAX,
        ensures
            final(self).wf(),
            final(self).files() == old(self).files().push(
                (SourceFile { name, start: Offset(old(self).next() as u32), content }),
            ),
            final(self).next() == old(self).next() + size,
            r.0.0 == old(self).next(),
            r.1@ == name@,
    {
        let start = self.next_addr;
        let ghost before = self.files@;
        proof {
            lemma_byte_len_nonnegative(content@);
        }
        self.next_addr = start.add(size as u32);
        let name_copy = name.clone();
        let src_file = SourceFile { name, start, content };
        self.files.push(src_file);
        proof {
            let files = self.files@;
            assert(files.drop_last() =~= before);
            assert forall|i: int| 0 <= i < files.len() implies (#[trigger] files[i]).wf() by {
                if i < before.len() {
                    assert(files[i] == before[i]);
                }
            }
            assert forall|i: int| 0 <= i < files.len() - 1 implies (#[trigger] files[i]).end()
                == files[i + 1].start.0 by {
                assert(files[i] == before[i]);
                if i + 1 < before.len() {
                    assert(files[i + 1] == before[i + 1]);
                }
            }
            if before.len() > 0 {
                assert(files[0] == before[0]);
            }
        }
        (start, name_copy)
    }

    /// Registers `content` under `name` at the next free address and returns
    /// that address. Names need not differ.
    pub fn new_source_file(&mut self, name: String, content: String) -> (start: Offset)
        requires
            old(self).wf(),
            old(self).next() + byte_len(content@) < u32::MAX,
        ensures
            final(self).wf(),
            final(self).files() == old(self).files().push(
                (SourceFile { name, start: Offset(old(self).next() as u32), content }),
            ),
            final(self).next() == old(self).next() + byte_len(content@),
            start.0 == old(self).next(),
    {
        let size = byte_length(content.as_str());
        self.__new_source_file(name, size, content).0
    }

    /// The file whose range holds `offset`.
    pub fn get_by_offset<'src>(&'src self, offset: Offset) -> (file: &'src SourceFile)
        requires
            self.wf(),
            offset.0 < self.next(),
        ensures
            file.start.0 <= offset.0 < file.end(),
            exists|i: int| 0 <= i < self.files().len() && (#[trigger] self.files()[i]) == *file,
            *file == self.file_at(offset),
    {
        let mut lo: usize = 0;
        let mut hi: usize = self.files.len();
        while hi - lo > 1
            invariant
                self.wf(),
                0 <= lo < hi <= self.files.len(),
                self.files@[lo as int].start.0 <= offset.0,
                hi < self.files.len() ==> offset.0 < self.files@[hi as int].start.0,
            decreases hi - lo,
        {
            let mid = lo + (hi - lo) / 2;
            if self.files[mid].start.0 <= offset.0 {
                lo = mid;
            } else {
                hi = mid;
            }
        }
        let file = &self.files[lo];
        proof {
            let files = self.files();
            assert(files[lo as int] == *file);
            if lo + 1 < files.len() {
                assert(files[lo as int].end() == files[lo + 1].start.0);
            }
            let i = choose|i: int|
                0 <= i < files.len() && (#[trigger] files[i]).start.0 <= offset.0 < files[i].end();
            self.lemma_file_unique(offset, i, lo as int);
        }
        file
    }

    /// Decides `has_name`.
    pub fn contains_name(&self, name: &str) -> (r: bool)
        ensures
            r == self.has_name(name@),
    {
        let mut i: usize = 0;
        while i < self.files.len()
            invariant
                0 <= i <= self.files.len(),
                forall|j: int| 0 <= j < i ==> (#[trigger] self.files()[j]).name@ != name@,
            decreases self.files.len() - i,
        {
            if str_eq(self.files[i].name.as_str(), name) {
                assert(self.files()[i as int].name@ == name@);
                return true;
            }
            i += 1;
        }
        false
    }

    /// The first file registered under `name`.
    pub fn get_by_name<'src>(&'src self, name: &str) -> (file: &'src SourceFile)
        requires
            self.has_name(name@),
        ensures
            file.name@ == name@,
            exists|i: int|
                0 <= i < self.files().len() && (#[trigger] self.files()[i]) == *file && forall|
                    j: int,
                |
                    0 <= j < i ==> (#[trigger] self.files()[j]).name@ != name@,
    {
        let mut i: usize = 0;
        loop
            invariant
                exists|k: int|
                    i <= k < self.files().len() && (#[trigger] self.files()[k]).name@ == name@,
                forall|j: int| 0 <= j < i ==> (#[trigger] self.files()[j]).name@ != name@,
            decreases self.files.len() - i,
        {
            let ghost k = choose|k: int|
                i <= k < self.files().len() && (#[trigger] self.files()[k]).name@ == name@;
            let file = &self.files[i];
            if str_eq(file.name.as_str(), name) {
                assert(self.files()[i as int] == *file);
                return file;
            }
            assert(k != i);
            assert(i + 1 <= k < self.files().len() && self.files()[k].name@ == name@);
            i += 1;
        }
    }
}

} // verus!
