//! The lexer: source text to tokens with byte-accurate spans. Whitespace is
//! kept, as `Space` and `Newline` tokens.
use crate::errors;
use crate::errors::Highlight;
use crate::span::{Offset, SourceFile, Span};
use crate::text::{
    first_char, is_ascii_char, lemma_byte_len_ascii, lemma_byte_len_take, push_char, split_at_chars,
    split_first,
};
use vstd::prelude::*;
use vstd::string::StringExecFns;

verus! {

/// The kinds of token.
#[derive(Debug, PartialEq, Eq, Clone, Copy, Structural)]
pub enum TokenType {
    Space,
    Newline,
    Backslash,
    Ident,
    RArrow,
    LParen,
    RParen,
    Equals,
    Eof,
}

impl TokenType {
    /// The small integer that stands for the kind in a bit set.
    pub open spec fn index(self) -> nat {
        match self {
            TokenType::Space => 0,
            TokenType::Newline => 1,
            TokenType::Backslash => 2,
            TokenType::Ident => 3,
            TokenType::RArrow => 4,
            TokenType::LParen => 5,
            TokenType::RParen => 6,
            TokenType::Equals => 7,
            TokenType::Eof => 8,
        }
    }

    /// How a message names the kind.
    pub open spec fn description(self) -> Seq<char> {
        match self {
            TokenType::Space => "' '"@,
            TokenType::Newline => "newline"@,
            TokenType::Backslash => "'\\'"@,
            TokenType::Ident => "identifier"@,
            TokenType::RArrow => "'->'"@,
            TokenType::LParen => "'('"@,
            TokenType::RParen => "')'"@,
            TokenType::Equals => "'='"@,
            TokenType::Eof => "end of input"@,
        }
    }

    /// The small integer that stands for the kind in a bit set.
    pub fn to_usize(&self) -> (i: usize)
        ensures
            i == self.index(),
            i < 9,
    {
        match self {
            TokenType::Space => 0,
            TokenType::Newline => 1,
            TokenType::Backslash => 2,
            TokenType::Ident => 3,
            TokenType::RArrow => 4,
            TokenType::LParen => 5,
            TokenType::RParen => 6,
            TokenType::Equals => 7,
            TokenType::Eof => 8,
        }
    }

    /// The kind that `i` stands for.
    pub fn unsafe_from_usize(i: usize) -> (kind: Self)
        requires
            i < 9,
        ensures
            kind.index() == i,
    {
        match i {
            0 => TokenType::Space,
            1 => TokenType::Newline,
            2 => TokenType::Backslash,
            3 => TokenType::Ident,
            4 => TokenType::RArrow,
            5 => TokenType::LParen,
            6 => TokenType::RParen,
            7 => TokenType::Equals,
            _ => TokenType::Eof,
        }
    }

    /// How a message names the kind.
    pub fn to_string(&self) -> (text: String)
        ensures
            text@ == self.description(),
    {
        String::from_str(
            match self {
                TokenType::Space => "' '",
                TokenType::Newline => "newline",
                TokenType::Backslash => "'\\'",
                TokenType::Ident => "identifier",
                TokenType::RArrow => "'->'",
                TokenType::LParen => "'('",
                TokenType::RParen => "')'",
                TokenType::Equals => "'='",
                TokenType::Eof => "end of input",
            },
        )
    }
}

/// Two kinds with the same index are the same kind.
pub proof fn lemma_index_injective(a: TokenType, b: TokenType)
    requires
        a.index() == b.index(),
    ensures
        a == b,
{
}

/// What a token holds: its kind and, for an identifier, its text, a slice
/// of the source.
#[derive(Debug, PartialEq, Eq)]
pub enum TokenData<'src> {
    Space,
    Newline,
    Backslash,
    Ident(&'src str),
    RArrow,
    LParen,
    RParen,
    Equals,
    Eof,
}

impl<'src> TokenData<'src> {
    /// The kind of the token.
    pub open spec fn kind(self) -> TokenType {
        match self {
            TokenData::Space => TokenType::Space,
            TokenData::Newline => TokenType::Newline,
            TokenData::Backslash => TokenType::Backslash,
            TokenData::Ident(_) => TokenType::Ident,
            TokenData::RArrow => TokenType::RArrow,
            TokenData::LParen => TokenType::LParen,
            TokenData::RParen => TokenType::RParen,
            TokenData::Equals => TokenType::Equals,
            TokenData::Eof => TokenType::Eof,
        }
    }

    /// The characters of an identifier; nothing for another token.
    pub open spec fn text(self) -> Seq<char> {
        match self {
            TokenData::Ident(name) => name@,
            _ => Seq::empty(),
        }
    }
}

/// A token and the bytes of the source that it covers.
#[derive(Debug, PartialEq, Eq)]
pub struct Token<'src> {
    pub data: TokenData<'src>,
    pub span: Span,
}

/// What a token denotes: its kind, the text of an identifier, its span.
pub struct TokenView {
    pub kind: TokenType,
    pub text: Seq<char>,
    pub span: Span,
}

impl<'src> View for Token<'src> {
    type V = TokenView;

    open spec fn view(&self) -> TokenView {
        TokenView { kind: self.data.kind(), text: self.data.text(), span: self.span }
    }
}

/// What a sequence of tokens denotes.
pub open spec fn token_views<'src>(tokens: Seq<Token<'src>>) -> Seq<TokenView> {
    Seq::new(tokens.len(), |i: int| tokens[i]@)
}

impl<'src> Token<'src> {
    /// The kind of the token.
    #[inline]
    pub fn token_type(&self) -> (kind: TokenType)
        ensures
            kind == self@.kind,
    {
        match self.data {
            TokenData::Space => TokenType::Space,
            TokenData::Newline => TokenType::Newline,
            TokenData::Backslash => TokenType::Backslash,
            TokenData::Ident(_) => TokenType::Ident,
            TokenData::RArrow => TokenType::RArrow,
            TokenData::LParen => TokenType::LParen,
            TokenData::RParen => TokenType::RParen,
            TokenData::Equals => TokenType::Equals,
            TokenData::Eof => TokenType::Eof,
        }
    }
}

/// An identifier starts with a lower-case ASCII letter.
pub open spec fn is_ident_start_char(c: char) -> bool {
    'a' <= c <= 'z'
}

/// An identifier goes on with ASCII letters and digits.
pub open spec fn is_ident_body_char(c: char) -> bool {
    'a' <= c <= 'z' || 'A' <= c <= 'Z' || '0' <= c <= '9'
}

#[inline]
fn is_ident_start(c: &char) -> (r: bool)
    ensures
        r == is_ident_start_char(*c),
{
    'a' <= *c && *c <= 'z'
}

#[inline]
fn is_ident_body(c: &char) -> (r: bool)
    ensures
        r == is_ident_body_char(*c),
{
    ('a' <= *c && *c <= 'z') || ('A' <= *c && *c <= 'Z') || ('0' <= *c && *c <= '9')
}

/// Why lexing stopped.
#[derive(Debug, PartialEq, Eq, Clone, Copy, Structural)]
pub enum Error {
    /// No token starts with this character, found at this address.
    Unexpected(char, Offset),
    /// The text ended at this address, inside `->`.
    UnexpectedEof(Offset),
}

impl Error {
    /// What the diagnostic says.
    pub open spec fn spec_message(self) -> Seq<char> {
        match self {
            Error::Unexpected(c, _) => "Unexpected symbol '"@.push(c).push('\''),
            Error::UnexpectedEof(_) => "Unexpected end of input"@,
        }
    }

    /// The address that the error names.
    pub open spec fn spec_offset(self) -> Offset {
        match self {
            Error::Unexpected(_, offset) => offset,
            Error::UnexpectedEof(offset) => offset,
        }
    }

    /// The diagnostic for the error: a point at its address.
    pub fn reportable(&self) -> (r: errors::Error)
        ensures
            r.highlight == Highlight::Point(self.spec_offset()),
            r.message@ == self.spec_message(),
    {
        match self {
            Error::Unexpected(c, offset) => {
                let mut message = String::from_str("Unexpected symbol '");
                push_char(&mut message, *c);
                push_char(&mut message, '\'');
                errors::Error { highlight: Highlight::Point(*offset), message }
            },
            Error::UnexpectedEof(offset) => errors::Error {
                highlight: Highlight::Point(*offset),
                message: String::from_str("Unexpected end of input"),
            },
        }
    }
}

pub type LexerResult<T> = Result<T, Error>;

/// What one step of the lexer gives: the end of the text, a token, or an
/// error.
#[derive(Debug, PartialEq, Eq)]
pub enum NextToken<'src> {
    Done,
    Token(Token<'src>),
    Error(Error),
}

/// The number of characters at the head of `chars` that may continue an
/// identifier.
pub open spec fn ident_body_len(chars: Seq<char>) -> int
    decreases chars.len(),
{
    if chars.len() == 0 || !is_ident_body_char(chars[0]) {
        0
    } else {
        1 + ident_body_len(chars.drop_first())
    }
}

/// `ident_body_len` counts exactly the characters that go on an identifier:
/// each of them does, and the one after them does not.
pub proof fn lemma_ident_body_len(chars: Seq<char>)
    ensures
        0 <= ident_body_len(chars) <= chars.len(),
        forall|i: int| 0 <= i < ident_body_len(chars) ==> is_ident_body_char(#[trigger] chars[i]),
        ident_body_len(chars) < chars.len() ==> !is_ident_body_char(chars[ident_body_len(chars)]),
    decreases chars.len(),
{
    if chars.len() > 0 && is_ident_body_char(chars[0]) {
        let rest = chars.drop_first();
        lemma_ident_body_len(rest);
        assert forall|i: int| 0 <= i < ident_body_len(chars) implies is_ident_body_char(
            #[trigger] chars[i],
        ) by {
            if i > 0 {
                assert(chars[i] == rest[i - 1]);
            }
        }
    }
}

/// What the lexer finds at one position of the text. Positions count
/// characters from the start of the text.
pub enum Lexeme {
    /// The text has ended.
    Done,
    /// A token of this kind, `len` characters long.
    Token { kind: TokenType, len: int },
    /// No token starts with the character at `at`.
    Unexpected { c: char, at: int },
    /// The text ends at `at`, after a `-`.
    UnexpectedEof { at: int },
}

/// The lexeme at position `pos` of `chars`: one character for each of
/// `' '`, newline, `\`, `(`, `)` and `=`; `->`; and a lower-case letter
/// followed by as many letters and digits as there are.
pub open spec fn scan(chars: Seq<char>, pos: int) -> Lexeme {
    if pos >= chars.len() {
        Lexeme::Done
    } else {
        let c = chars[pos];
        if c == '\n' {
            Lexeme::Token { kind: TokenType::Newline, len: 1 }
        } else if c == ' ' {
            Lexeme::Token { kind: TokenType::Space, len: 1 }
        } else if c == '\\' {
            Lexeme::Token { kind: TokenType::Backslash, len: 1 }
        } else if c == '-' {
            if pos + 1 >= chars.len() {
                Lexeme::UnexpectedEof { at: pos + 1 }
            } else if chars[pos + 1] == '>' {
                Lexeme::Token { kind: TokenType::RArrow, len: 2 }
            } else {
                Lexeme::Unexpected { c: chars[pos + 1], at: pos + 1 }
            }
        } else if c == '(' {
            Lexeme::Token { kind: TokenType::LParen, len: 1 }
        } else if c == ')' {
            Lexeme::Token { kind: TokenType::RParen, len: 1 }
        } else if c == '=' {
            Lexeme::Token { kind: TokenType::Equals, len: 1 }
        } else if is_ident_start_char(c) {
            Lexeme::Token { kind: TokenType::Ident, len: 1 + ident_body_len(chars.skip(pos + 1)) }
        } else {
            Lexeme::Unexpected { c, at: pos }
        }
    }
}

/// A lexeme is at least one character long, lies inside the text, and is
/// made of ASCII characters.
pub proof fn lemma_scan_token(chars: Seq<char>, pos: int)
    requires
        0 <= pos,
    ensures
        scan(chars, pos) matches Lexeme::Token { kind, len } ==> {
            &&& 1 <= len
            &&& pos + len <= chars.len()
            &&& kind != TokenType::Eof
            &&& forall|i: int| pos <= i < pos + len ==> is_ascii_char(#[trigger] chars[i])
        },
{
    if pos < chars.len() && is_ident_start_char(chars[pos]) {
        let tail = chars.skip(pos + 1);
        lemma_ident_body_len(tail);
        assert forall|i: int| pos <= i < pos + 1 + ident_body_len(tail) implies is_ascii_char(
            #[trigger] chars[i],
        ) by {
            if i > pos {
                assert(chars[i] == tail[i - pos - 1]);
            }
        }
    }
}

/// The token that a lexeme of `kind` and `len` characters denotes at
/// position `pos` of a text that starts at address `base`.
pub open spec fn token_at(
    chars: Seq<char>,
    base: int,
    pos: int,
    kind: TokenType,
    len: int,
) -> TokenView {
    TokenView {
        kind,
        text: if kind == TokenType::Ident {
            chars.subrange(pos, pos + len)
        } else {
            Seq::empty()
        },
        span: Span { start: Offset((base + pos) as u32), length: Offset(len as u32) },
    }
}

/// The end marker for a text of `len` characters at `base`: one byte wide.
pub open spec fn eof_at(base: int, len: int) -> TokenView {
    TokenView {
        kind: TokenType::Eof,
        text: Seq::empty(),
        span: Span { start: Offset((base + len) as u32), length: Offset(1) },
    }
}

/// The tokens of `chars` from position `pos` on, with the end marker; or the
/// first error.
pub open spec fn lex(chars: Seq<char>, base: int, pos: int) -> Result<Seq<TokenView>, Error>
    decreases chars.len() - pos,
{
    if pos < 0 {
        Ok(Seq::empty())
    } else {
        match scan(chars, pos) {
            Lexeme::Done => Ok(seq![eof_at(base, pos)]),
            Lexeme::Token { kind, len } => {
                if 1 <= len <= chars.len() - pos {
                    match lex(chars, base, pos + len) {
                        Ok(rest) => Ok(seq![token_at(chars, base, pos, kind, len)] + rest),
                        Err(err) => Err(err),
                    }
                } else {
                    Ok(Seq::empty())
                }
            },
            Lexeme::Unexpected { c, at } => Err(Error::Unexpected(c, Offset((base + at) as u32))),
            Lexeme::UnexpectedEof { at } => Err(Error::UnexpectedEof(Offset((base + at) as u32))),
        }
    }
}

/// Whether `tokens` end in the end marker, as the parser asks.
pub fn ends_in_eof<'src>(tokens: &Vec<Token<'src>>) -> (r: bool)
    ensures
        r == (tokens@.len() > 0 && tokens@.last()@.kind == TokenType::Eof),
{
    let len = tokens.len();
    len > 0 && tokens[len - 1].token_type() == TokenType::Eof
}

/// The spans of `tokens` lie end to end from `from` to `to`: the first
/// starts at `from`, each starts where the one before it ends, none is
/// empty, and the last is the end marker, one byte wide at `to`. No other
/// token is an end marker.
pub open spec fn tiles(tokens: Seq<TokenView>, from: int, to: int) -> bool {
    &&& tokens.len() >= 1
    &&& tokens[0].span.start.0 == from
    &&& forall|i: int|
        0 <= i < tokens.len() - 1 ==> (#[trigger] tokens[i]).kind != TokenType::Eof
            && tokens[i].span.length.0 >= 1
    &&& forall|i: int, j: int|
        0 <= i && j == i + 1 && j < tokens.len() ==> (#[trigger] tokens[i]).span.start.0
            + tokens[i].span.length.0 == (#[trigger] tokens[j]).span.start.0
    &&& tokens.last().kind == TokenType::Eof
    &&& tokens.last().span.start.0 == to
    &&& tokens.last().span.length.0 == 1
}

/// Where no token starts, the error names a position from `pos` on, inside
/// the text or at its end.
pub proof fn lemma_scan_error(chars: Seq<char>, pos: int)
    requires
        0 <= pos <= chars.len(),
    ensures
        scan(chars, pos) matches Lexeme::Unexpected { c, at } ==> pos <= at < chars.len() && c
            == chars[at],
        scan(chars, pos) matches Lexeme::UnexpectedEof { at } ==> pos < at == chars.len(),
        scan(chars, pos) is Done <==> pos == chars.len(),
{
}

/// Where lexing gives tokens, the text from `pos` on is ASCII.
pub proof fn lemma_lex_ascii(chars: Seq<char>, base: int, pos: int)
    requires
        0 <= pos <= chars.len(),
        lex(chars, base, pos) is Ok,
    ensures
        forall|i: int| pos <= i < chars.len() ==> is_ascii_char(#[trigger] chars[i]),
    decreases chars.len() - pos,
{
    lemma_scan_token(chars, pos);
    lemma_scan_error(chars, pos);
    match scan(chars, pos) {
        Lexeme::Token { kind, len } => {
            lemma_lex_ascii(chars, base, pos + len);
        },
        _ => {},
    }
}

/// Lexing is total. From any position of any text it gives either tokens
/// whose spans lie end to end from that position to the end of the text,
/// the end marker last, or one error whose address lies between that
/// position and the end of the text.
pub proof fn lemma_lex_total(chars: Seq<char>, base: int, pos: int)
    requires
        0 <= base,
        0 <= pos <= chars.len(),
        base + chars.len() < u32::MAX,
    ensures
        match lex(chars, base, pos) {
            Ok(tokens) => tiles(tokens, base + pos, base + chars.len()),
            Err(err) => base + pos <= err.spec_offset().0 <= base + chars.len(),
        },
    decreases chars.len() - pos,
{
    lemma_scan_token(chars, pos);
    lemma_scan_error(chars, pos);
    let found = scan(chars, pos);
    match found {
        Lexeme::Token { kind, len } => {
            lemma_lex_total(chars, base, pos + len);
            let tail = lex(chars, base, pos + len);
            match tail {
                Ok(rest) => {
                    let head = token_at(chars, base, pos, kind, len);
                    let tokens = seq![head] + rest;
                    assert(lex(chars, base, pos) == Ok::<Seq<TokenView>, Error>(tokens));
                    assert(head.span.start.0 == base + pos);
                    assert(head.span.length.0 == len);
                    assert(head.kind == kind);
                    lemma_tiles_cons(head, rest, base + pos, base + pos + len, base + chars.len());
                },
                Err(err) => {
                    assert(lex(chars, base, pos) == Err::<Seq<TokenView>, Error>(err));
                },
            }
        },
        Lexeme::Done => {
            let tokens = seq![eof_at(base, pos)];
            assert(lex(chars, base, pos) == Ok::<Seq<TokenView>, Error>(tokens));
            assert(tokens.last() == eof_at(base, pos));
        },
        Lexeme::Unexpected { c, at } => {},
        Lexeme::UnexpectedEof { at } => {},
    }
}

/// A token that ends where a tiling starts extends the tiling.
proof fn lemma_tiles_cons(head: TokenView, rest: Seq<TokenView>, from: int, mid: int, to: int)
    requires
        tiles(rest, mid, to),
        head.kind != TokenType::Eof,
        head.span.start.0 == from,
        head.span.length.0 >= 1,
        from + head.span.length.0 == mid,
    ensures
        tiles(seq![head] + rest, from, to),
{
    let tokens = seq![head] + rest;
    assert(tokens[0] == head);
    assert(tokens.last() == rest.last());
    assert forall|i: int| 0 <= i < tokens.len() - 1 implies (#[trigger] tokens[i]).kind
        != TokenType::Eof && tokens[i].span.length.0 >= 1 by {
        if i > 0 {
            assert(tokens[i] == rest[i - 1]);
        }
    }
    assert forall|i: int, j: int| 0 <= i && j == i + 1 && j < tokens.len() implies (
    #[trigger] tokens[i]).span.start.0 + tokens[i].span.length.0 == (
    #[trigger] tokens[j]).span.start.0 by {
        assert(tokens[j] == rest[i]);
        if i > 0 {
            assert(tokens[i] == rest[i - 1]);
        }
    }
}

/// The tokens of a whole file cover it exactly: their spans lie end to end
/// from the file's first address to the address after its last byte, where
/// the end marker stands. An error lies at an address of the file or at the
/// one after its last byte.
pub proof fn lemma_lex_covers_file(file: SourceFile)
    requires
        file.wf(),
    ensures
        match lex(file.content@, file.start.0 as int, 0) {
            Ok(tokens) => tiles(tokens, file.start.0 as int, file.end()),
            Err(err) => file.start.0 <= err.spec_offset().0 <= file.end(),
        },
{
    let chars = file.content@;
    crate::text::lemma_byte_len_nonnegative(chars);
    lemma_lex_total(chars, file.start.0 as int, 0);
    if lex(chars, file.start.0 as int, 0) is Ok {
        lemma_lex_ascii(chars, file.start.0 as int, 0);
        lemma_byte_len_ascii(chars);
    }
}

/// A lexer at some position of a source file.
pub struct Lexer<'src> {
    src_file: &'src SourceFile,
    /// What is left to read.
    rest: &'src str,
    /// Address of the next byte to read.
    offset: Offset,
}

impl<'src> Lexer<'src> {
    /// The file that is being read.
    pub closed spec fn source(&self) -> &'src SourceFile {
        self.src_file
    }

    /// The number of characters read so far.
    pub closed spec fn pos(&self) -> int {
        self.offset.0 - self.src_file.start.0
    }

    /// What has been read is ASCII, so that bytes and characters count alike,
    /// and `rest` is what follows it.
    pub closed spec fn wf(&self) -> bool {
        let chars = self.src_file.content@;
        &&& self.src_file.wf()
        &&& 0 <= self.pos() <= chars.len()
        &&& self.rest@ == chars.skip(self.pos())
        &&& forall|i: int| 0 <= i < self.pos() ==> is_ascii_char(#[trigger] chars[i])
    }

    /// A lexer at the start of `src_file`.
    pub fn from_source_file(src_file: &'src SourceFile) -> (lexer: Self)
        requires
            src_file.wf(),
        ensures
            lexer.wf(),
            lexer.source() == src_file,
            lexer.pos() == 0,
    {
        let rest = src_file.data();
        assert(src_file.content@.skip(0) =~= src_file.content@);
        Lexer { src_file, rest, offset: src_file.get_start() }
    }

    #[inline]
    fn lookahead(&self) -> (c: Option<char>)
        requires
            self.wf(),
        ensures
            c == if self.pos() < self.source().content@.len() {
                Some(self.source().content@[self.pos()])
            } else {
                None::<char>
            },
    {
        first_char(self.rest)
    }

    /// Steps over the next character, which is ASCII; at the end of the text
    /// nothing changes.
    fn consume(&mut self)
        requires
            old(self).wf(),
            old(self).pos() < old(self).source().content@.len() ==> is_ascii_char(
                old(self).source().content@[old(self).pos()],
            ),
        ensures
            final(self).wf(),
            final(self).source() == old(self).source(),
            final(self).pos() == if old(self).pos() < old(self).source().content@.len() {
                old(self).pos() + 1
            } else {
                old(self).pos()
            },
    {
        let ghost chars = self.src_file.content@;
        let ghost pos = self.pos();
        match split_first(self.rest) {
            None => {},
            Some((c, tail)) => {
                proof {
                    assert(chars.skip(pos).drop_first() =~= chars.skip(pos + 1));
                    assert forall|i: int| 0 <= i < pos + 1 implies is_ascii_char(
                        #[trigger] chars.take(pos + 1)[i],
                    ) by {}
                    lemma_byte_len_ascii(chars.take(pos + 1));
                    lemma_byte_len_take(chars, pos + 1, chars.len() as int);
                }
                self.offset.add_mut(1);
                self.rest = tail;
            },
        }
    }

    /// Reads the rest of an identifier whose first character was the first
    /// of `begin`, at `start_offset`.
    fn consume_ident_body(&mut self, start_offset: Offset, begin: &'src str) -> (token: Token<
        'src,
    >)
        requires
            old(self).wf(),
            old(self).pos() >= 1,
            start_offset.0 == old(self).source().start.0 + old(self).pos() - 1,
            begin@ == old(self).source().content@.skip(old(self).pos() - 1),
            is_ident_start_char(old(self).source().content@[old(self).pos() - 1]),
        ensures
            final(self).wf(),
            final(self).source() == old(self).source(),
            final(self).pos() == old(self).pos() + ident_body_len(
                old(self).source().content@.skip(old(self).pos()),
            ),
            token@ == token_at(
                old(self).source().content@,
                old(self).source().start.0 as int,
                old(self).pos() - 1,
                TokenType::Ident,
                1 + ident_body_len(old(self).source().content@.skip(old(self).pos())),
            ),
    {
        let ghost chars = self.src_file.content@;
        let ghost first = self.pos() - 1;
        let ghost total = ident_body_len(chars.skip(self.pos()));
        loop
            invariant
                self.wf(),
                self.source() == old(self).source(),
                chars == self.source().content@,
                first + 1 <= self.pos() <= chars.len(),
                self.pos() + ident_body_len(chars.skip(self.pos())) == first + 1 + total,
                forall|i: int| first <= i < self.pos() ==> is_ascii_char(#[trigger] chars[i]),
            ensures
                ident_body_len(chars.skip(self.pos())) == 0,
            decreases chars.len() - self.pos(),
        {
            match self.lookahead() {
                None => {
                    break ;
                },
                Some(c) => {
                    if !is_ident_body(&c) {
                        assert(chars.skip(self.pos())[0] == c);
                        break ;
                    }
                    proof {
                        assert(chars.skip(self.pos())[0] == c);
                        assert(chars.skip(self.pos()).drop_first() =~= chars.skip(self.pos() + 1));
                    }
                    self.consume();
                },
            }
        }
        let end_offset = self.offset;
        let length = end_offset.subtract(start_offset.to_u32());
        proof {
            let len = 1 + total;
            assert(begin@.take(len) =~= chars.subrange(first, first + len));
            assert forall|i: int| 0 <= i < len implies is_ascii_char(
                #[trigger] begin@.take(len)[i],
            ) by {
                assert(begin@.take(len)[i] == chars[first + i]);
            }
            lemma_byte_len_ascii(begin@.take(len));
        }
        let (name, _) = split_at_chars(begin, length.to_usize(), Ghost(1 + total));
        let data = TokenData::Ident(name);
        let span = Span { start: start_offset, length };
        Token { data, span }
    }

    fn unexpected(&self, c: char) -> (err: Error)
        ensures
            err == Error::Unexpected(c, Offset((self.source().start.0 + self.pos()) as u32)),
    {
        Error::Unexpected(c, self.offset)
    }

    fn unexpected_eof(&self) -> (err: Error)
        ensures
            err == Error::UnexpectedEof(Offset((self.source().start.0 + self.pos()) as u32)),
    {
        Error::UnexpectedEof(self.offset)
    }

    /// Steps over the last character of a token that began at
    /// `start_offset` and hands the token out.
    fn emit(&mut self, start_offset: Offset, data: TokenData<'src>) -> (next: NextToken<'src>)
        requires
            old(self).wf(),
            old(self).pos() < old(self).source().content@.len(),
            is_ascii_char(old(self).source().content@[old(self).pos()]),
            old(self).source().start.0 <= start_offset.0 <= old(self).source().start.0 + old(
                self,
            ).pos(),
        ensures
            final(self).wf(),
            final(self).source() == old(self).source(),
            final(self).pos() == old(self).pos() + 1,
            next matches NextToken::Token(token) && token.data == data && token.span == (Span {
                start: start_offset,
                length: Offset(
                    (old(self).source().start.0 + old(self).pos() + 1 - start_offset.0) as u32,
                ),
            }),
    {
        self.consume();
        let end_offset = self.offset;
        let span = Span { start: start_offset, length: end_offset.subtract(start_offset.to_u32()) };
        NextToken::Token(Token { data, span })
    }

    /// Reads one token. After an error the lexer stands at the character that
    /// the error names.
    pub fn next_token(&mut self) -> (next: NextToken<'src>)
        requires
            old(self).wf(),
        ensures
            final(self).wf(),
            final(self).source() == old(self).source(),
            match scan(old(self).source().content@, old(self).pos()) {
                Lexeme::Done => next is Done && final(self).pos() == old(self).pos(),
                Lexeme::Token { kind, len } => next matches NextToken::Token(token) && token@
                    == token_at(
                    old(self).source().content@,
                    old(self).source().start.0 as int,
                    old(self).pos(),
                    kind,
                    len,
                ) && final(self).pos() == old(self).pos() + len,
                Lexeme::Unexpected { c, at } => next matches NextToken::Error(err) && err
                    == Error::Unexpected(c, Offset((old(self).source().start.0 + at) as u32))
                    && final(self).pos() == at,
                Lexeme::UnexpectedEof { at } => next matches NextToken::Error(err) && err
                    == Error::UnexpectedEof(Offset((old(self).source().start.0 + at) as u32))
                    && final(self).pos() == at,
            },
    {
        let start_offset = self.offset;
        let begin = self.rest;
        match self.lookahead() {
            Option::None => NextToken::Done,
            Option::Some(c) => {
                if c == '\n' {
                    self.emit(start_offset, TokenData::Newline)
                } else if c == ' ' {
                    self.emit(start_offset, TokenData::Space)
                } else if c == '\\' {
                    self.emit(start_offset, TokenData::Backslash)
                } else if c == '-' {
                    self.consume();
                    match self.lookahead() {
                        Option::Some(d) => {
                            if d == '>' {
                                self.emit(start_offset, TokenData::RArrow)
                            } else {
                                NextToken::Error(self.unexpected(d))
                            }
                        },
                        Option::None => NextToken::Error(self.unexpected_eof()),
                    }
                } else if c == '(' {
                    self.emit(start_offset, TokenData::LParen)
                } else if c == ')' {
                    self.emit(start_offset, TokenData::RParen)
                } else if c == '=' {
                    self.emit(start_offset, TokenData::Equals)
                } else if is_ident_start(&c) {
                    self.consume();
                    NextToken::Token(self.consume_ident_body(start_offset, begin))
                } else {
                    NextToken::Error(self.unexpected(c))
                }
            },
        }
    }

    /// Reads all that is left and ends the tokens with the end marker, one
    /// byte wide at the end of the text; or returns the first error.
    pub fn tokenize(self) -> (r: LexerResult<Vec<Token<'src>>>)
        requires
            self.wf(),
        ensures
            match lex(self.source().content@, self.source().start.0 as int, self.pos()) {
                Ok(tokens) => r matches Ok(v) && token_views(v@) == tokens,
                Err(err) => r matches Err(e) && e == err,
            },
    {
        let mut lexer = self;
        let ghost chars = lexer.src_file.content@;
        let ghost base = lexer.src_file.start.0 as int;
        let ghost goal = lex(chars, base, lexer.pos());
        let mut tokens: Vec<Token<'src>> = Vec::new();
        assert(token_views(tokens@) =~= Seq::<TokenView>::empty());
        loop
            invariant
                lexer.wf(),
                chars == lexer.source().content@,
                base == lexer.source().start.0,
                0 <= lexer.pos(),
                goal == lex(self.source().content@, self.source().start.0 as int, self.pos()),
                goal == match lex(chars, base, lexer.pos()) {
                    Ok(rest) => Ok::<Seq<TokenView>, Error>(token_views(tokens@) + rest),
                    Err(err) => Err::<Seq<TokenView>, Error>(err),
                },
            decreases chars.len() - lexer.pos(),
        {
            proof {
                lemma_scan_token(chars, lexer.pos());
            }
            let ghost before = lexer.pos();
            match lexer.next_token() {
                NextToken::Done => {
                    let offset = lexer.offset;
                    let ghost views = token_views(tokens@);
                    tokens.push(
                        Token {
                            data: TokenData::Eof,
                            span: Span { start: offset, length: Offset(1) },
                        },
                    );
                    assert(token_views(tokens@) =~= views + seq![eof_at(base, before)]);
                    return Result::Ok(tokens);
                },
                NextToken::Token(token) => {
                    let ghost views = token_views(tokens@);
                    let ghost view = token@;
                    tokens.push(token);
                    proof {
                        assert(token_views(tokens@) =~= views + seq![view]);
                        match lex(chars, base, lexer.pos()) {
                            Ok(rest) => {
                                assert((views + seq![view]) + rest =~= views + (seq![view] + rest));
                            },
                            Err(_) => {},
                        }
                    }
                },
                NextToken::Error(err) => {
                    return Result::Err(err);
                },
            }
        }
    }
}

} // verus!
