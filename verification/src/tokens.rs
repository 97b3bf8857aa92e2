//! Splitting source text into tokens.

use core::ops::Range;
use vstd::prelude::*;
use vstd::string::StringSliceAdditionalSpecFns;
use vstd::utf8::{
    encode_utf8_valid_utf8, is_char_boundary, is_char_boundary_iff_not_is_continuation_byte,
    is_char_boundary_start_end_of_seq, is_continuation_byte, valid_utf8, valid_utf8_split,
};
use crate::kind::{kind_view, KindView, SyntaxKind, TokenMode};

verus! {

/// A horizontal tab.
pub const TAB: u8 = 0x09;

/// A line feed.
pub const LINE_FEED: u8 = 0x0a;

/// A carriage return.
pub const CARRIAGE_RETURN: u8 = 0x0d;

/// A blank.
pub const BLANK: u8 = 0x20;

/// `$`
pub const DOLLAR: u8 = 0x24;

/// `(`
pub const LEFT_PAREN: u8 = 0x28;

/// `)`
pub const RIGHT_PAREN: u8 = 0x29;

/// `*`
pub const STAR: u8 = 0x2a;

/// `.`
pub const DOT: u8 = 0x2e;

/// `/`
pub const SLASH: u8 = 0x2f;

/// `;`
pub const SEMICOLON: u8 = 0x3b;

/// `[`
pub const LEFT_BRACKET: u8 = 0x5b;

/// `]`
pub const RIGHT_BRACKET: u8 = 0x5d;

/// `_`
pub const UNDERSCORE: u8 = 0x5f;

/// `{`
pub const LEFT_BRACE: u8 = 0x7b;

/// `}`
pub const RIGHT_BRACE: u8 = 0x7d;

/// Whether the byte is whitespace: a blank, a tab, a line feed or a carriage
/// return.
pub open spec fn is_space(b: u8) -> bool {
    b == BLANK || b == TAB || b == LINE_FEED || b == CARRIAGE_RETURN
}

/// Whether the byte is an ASCII digit.
pub open spec fn is_digit(b: u8) -> bool {
    0x30 <= b <= 0x39
}

/// The kind of the token that the byte makes on its own in the given mode,
/// if it makes one.
pub open spec fn punct(mode: TokenMode, b: u8) -> Option<KindView> {
    if b == LEFT_BRACE {
        Some(KindView::LeftBrace)
    } else if b == RIGHT_BRACE {
        Some(KindView::RightBrace)
    } else if b == LEFT_BRACKET {
        Some(KindView::LeftBracket)
    } else if b == RIGHT_BRACKET {
        Some(KindView::RightBracket)
    } else if b == STAR {
        Some(KindView::Star)
    } else if b == DOLLAR {
        Some(KindView::Dollar)
    } else if b == UNDERSCORE && mode != TokenMode::Code {
        Some(KindView::Underscore)
    } else if b == LEFT_PAREN && mode != TokenMode::Markup {
        Some(KindView::LeftParen)
    } else if b == RIGHT_PAREN && mode != TokenMode::Markup {
        Some(KindView::RightParen)
    } else if b == SEMICOLON && mode == TokenMode::Code {
        Some(KindView::Semicolon)
    } else if b == DOT && mode == TokenMode::Code {
        Some(KindView::Dot)
    } else {
        None
    }
}

/// Whether the byte ends a word in the given mode.
pub open spec fn is_delimiter(mode: TokenMode, b: u8) -> bool {
    is_space(b) || b == SLASH || punct(mode, b) is Some
}

/// A class of bytes that a token runs over.
#[derive(Clone, Copy)]
pub enum Run {
    /// Whitespace.
    Space,
    /// Everything up to the end of the line.
    Line,
    /// Everything up to the next delimiter of the mode.
    Word(TokenMode),
}

impl Run {
    /// Whether the byte belongs to the class.
    pub open spec fn holds(self, b: u8) -> bool {
        match self {
            Run::Space => is_space(b),
            Run::Line => b != LINE_FEED,
            Run::Word(mode) => !is_delimiter(mode, b),
        }
    }

    fn test(self, b: u8) -> (holds: bool)
        ensures
            holds == self.holds(b),
    {
        match self {
            Run::Space => test_space(b),
            Run::Line => b != LINE_FEED,
            Run::Word(mode) => !test_space(b) && b != SLASH && punct_of(mode, b).is_none(),
        }
    }
}

/// Where the longest run of bytes of the class that starts at `from` ends.
pub open spec fn run_end(src: Seq<u8>, from: int, run: Run) -> int
    decreases src.len() - from,
{
    if 0 <= from < src.len() && run.holds(src[from]) {
        run_end(src, from + 1, run)
    } else {
        from
    }
}

/// A run ends at the first byte from `from` on that is not of the class, or
/// at the end of the source.
pub proof fn lemma_run_end(src: Seq<u8>, from: int, run: Run)
    requires
        0 <= from <= src.len(),
    ensures
        from <= run_end(src, from, run) <= src.len(),
        forall|i: int| from <= i < run_end(src, from, run) ==> run.holds(#[trigger] src[i]),
        run_end(src, from, run) < src.len() ==> !run.holds(src[run_end(src, from, run)]),
        from < src.len() && run.holds(src[from]) ==> from < run_end(src, from, run),
    decreases src.len() - from,
{
    if from < src.len() && run.holds(src[from]) {
        lemma_run_end(src, from + 1, run);
    }
}

/// Where the block comment ends whose body starts at `from`: behind the
/// first `*/`, if there is one.
pub open spec fn block_close(src: Seq<u8>, from: int) -> Option<int>
    decreases src.len() - from,
{
    if from < 0 || from + 2 > src.len() {
        None
    } else if src[from] == STAR && src[from + 1] == SLASH {
        Some(from + 2)
    } else {
        block_close(src, from + 1)
    }
}

/// A block comment that is closed ends within the source, behind its body's
/// start, with a slash.
pub proof fn lemma_block_close(src: Seq<u8>, from: int)
    requires
        0 <= from,
    ensures
        block_close(src, from) matches Some(end) ==> from + 2 <= end <= src.len() && src[end - 1]
            == SLASH,
    decreases src.len() - from,
{
    if from + 2 <= src.len() && !(src[from] == STAR && src[from + 1] == SLASH) {
        lemma_block_close(src, from + 1);
    }
}

/// The number of line feeds in `src` from `from` up to `to`.
pub open spec fn count_newlines(src: Seq<u8>, from: int, to: int) -> nat
    decreases to - from,
{
    if to <= from {
        0
    } else {
        count_newlines(src, from, to - 1) + if src[to - 1] == LINE_FEED {
            1nat
        } else {
            0nat
        }
    }
}

/// The bytes of the keyword `else`.
pub open spec fn else_word() -> Seq<u8> {
    seq![0x65u8, 0x6cu8, 0x73u8, 0x65u8]
}

/// The bytes of the keyword `from`.
pub open spec fn from_word() -> Seq<u8> {
    seq![0x66u8, 0x72u8, 0x6fu8, 0x6du8]
}

/// The kind of a word in the given mode: text outside code; in code a lone
/// underscore, a keyword, a number if it starts with a digit, and an
/// identifier else.
pub open spec fn word_kind(mode: TokenMode, word: Seq<u8>) -> KindView {
    if mode != TokenMode::Code {
        KindView::Text
    } else if word == seq![UNDERSCORE] {
        KindView::Underscore
    } else if word == else_word() {
        KindView::Else
    } else if word == from_word() {
        KindView::From
    } else if word.len() > 0 && is_digit(word[0]) {
        KindView::Number
    } else {
        KindView::Ident
    }
}

/// A token of the source.
pub struct Token {
    /// The kind of the token.
    pub kind: KindView,
    /// The offset at which the token ends.
    pub end: int,
    /// Whether the token was closed properly. A block comment is not if its
    /// closing `*/` is missing, nor a line comment if no line feed ends it.
    pub terminated: bool,
}

/// The token that starts at `pos` in the given mode, for a `pos` within the
/// source: a run of whitespace, a comment, a byte that is a token of its own
/// in the mode, or a word up to the next delimiter of the mode.
pub open spec fn token_at(src: Seq<u8>, mode: TokenMode, pos: int) -> Token {
    let b = src[pos];
    if is_space(b) {
        let end = run_end(src, pos, Run::Space);
        Token {
            kind: KindView::Space { newlines: count_newlines(src, pos, end) },
            end,
            terminated: true,
        }
    } else if b == SLASH && pos + 1 < src.len() && src[pos + 1] == SLASH {
        let end = run_end(src, pos + 2, Run::Line);
        Token { kind: KindView::LineComment, end, terminated: end < src.len() }
    } else if b == SLASH && pos + 1 < src.len() && src[pos + 1] == STAR {
        match block_close(src, pos + 2) {
            Some(end) => Token { kind: KindView::BlockComment, end, terminated: true },
            None => Token {
                kind: KindView::BlockComment,
                end: src.len() as int,
                terminated: false,
            },
        }
    } else if b == SLASH {
        Token { kind: KindView::Text, end: pos + 1, terminated: true }
    } else if let Some(kind) = punct(mode, b) {
        Token { kind, end: pos + 1, terminated: true }
    } else {
        let end = run_end(src, pos, Run::Word(mode));
        Token { kind: word_kind(mode, src.subrange(pos, end)), end, terminated: true }
    }
}

/// Every token holds at least one byte and ends within the source.
pub proof fn lemma_token_at(src: Seq<u8>, mode: TokenMode, pos: int)
    requires
        0 <= pos < src.len(),
    ensures
        pos < token_at(src, mode, pos).end <= src.len(),
{
    lemma_run_end(src, pos, Run::Space);
    if pos + 1 < src.len() {
        lemma_run_end(src, pos + 2, Run::Line);
    }
    lemma_block_close(src, pos + 2);
    lemma_run_end(src, pos, Run::Word(mode));
}

/// In well-formed text, the offset behind a byte that is a character of its
/// own lies between characters.
pub proof fn lemma_boundary_after_ascii(src: Seq<u8>, at: int)
    requires
        valid_utf8(src),
        0 <= at < src.len(),
        src[at] < 0x80,
    ensures
        is_char_boundary(src, at + 1),
{
    is_char_boundary_iff_not_is_continuation_byte(src, at);
    valid_utf8_split(src, at);
    let tail = src.subrange(at, src.len() as int);
    assert(tail[0] == src[at]);
    let rest = tail.subrange(1, tail.len() as int);
    assert(valid_utf8(rest));
    if at + 1 < src.len() {
        assert(rest[0] == src[at + 1]);
        is_char_boundary_iff_not_is_continuation_byte(src, at + 1);
    } else {
        is_char_boundary_start_end_of_seq(src);
    }
}

/// In well-formed text, a byte that is a character of its own starts
/// between characters.
pub proof fn lemma_boundary_at_ascii(src: Seq<u8>, at: int)
    requires
        valid_utf8(src),
        0 <= at <= src.len(),
        at < src.len() ==> src[at] < 0x80,
    ensures
        is_char_boundary(src, at),
{
    if at < src.len() {
        is_char_boundary_iff_not_is_continuation_byte(src, at);
    } else {
        is_char_boundary_start_end_of_seq(src);
    }
}

/// In well-formed text every token ends between characters.
pub proof fn lemma_token_boundary(src: Seq<u8>, mode: TokenMode, pos: int)
    requires
        valid_utf8(src),
        0 <= pos < src.len(),
    ensures
        is_char_boundary(src, token_at(src, mode, pos).end),
{
    let end = token_at(src, mode, pos).end;
    let b = src[pos];
    lemma_token_at(src, mode, pos);
    if is_space(b) {
        lemma_run_end(src, pos, Run::Space);
        assert(Run::Space.holds(src[end - 1]));
        lemma_boundary_after_ascii(src, end - 1);
    } else if b == SLASH && pos + 1 < src.len() && src[pos + 1] == SLASH {
        lemma_run_end(src, pos + 2, Run::Line);
        lemma_boundary_at_ascii(src, end);
    } else if b == SLASH && pos + 1 < src.len() && src[pos + 1] == STAR {
        lemma_block_close(src, pos + 2);
        if block_close(src, pos + 2) is Some {
            lemma_boundary_after_ascii(src, end - 1);
        } else {
            is_char_boundary_start_end_of_seq(src);
        }
    } else if b == SLASH || punct(mode, b) is Some {
        lemma_boundary_after_ascii(src, pos);
    } else {
        lemma_run_end(src, pos, Run::Word(mode));
        lemma_boundary_at_ascii(src, end);
    }
}

/// The nearest offset at or before `index` that lies within the source and
/// between characters.
pub open spec fn snap(src: Seq<u8>, index: int) -> int
    decreases index,
{
    if index <= 0 {
        0
    } else if index <= src.len() && is_char_boundary(src, index) {
        index
    } else {
        snap(src, index - 1)
    }
}

/// Snapping lands between characters within the source, and leaves an
/// offset alone that lies there already.
pub proof fn lemma_snap(src: Seq<u8>, index: int)
    requires
        valid_utf8(src),
        0 <= index,
    ensures
        0 <= snap(src, index) <= src.len(),
        snap(src, index) <= index,
        is_char_boundary(src, snap(src, index)),
        index <= src.len() && is_char_boundary(src, index) ==> snap(src, index) == index,
    decreases index,
{
    if index > 0 && !(index <= src.len() && is_char_boundary(src, index)) {
        lemma_snap(src, index - 1);
    }
}

/// The column of the byte at `index`: the number of characters between it
/// and the start of its line, plus `offset` where the line is the first.
pub open spec fn column_of(src: Seq<u8>, index: int, offset: nat) -> nat
    decreases index,
{
    if index <= 0 {
        offset
    } else if src[index - 1] == LINE_FEED {
        0
    } else {
        column_of(src, index - 1, offset) + if is_continuation_byte(src[index - 1]) {
            0nat
        } else {
            1nat
        }
    }
}

/// A column is at most the index plus the offset.
pub proof fn lemma_column_of_bound(src: Seq<u8>, index: int, offset: nat)
    requires
        0 <= index,
    ensures
        column_of(src, index, offset) <= index + offset,
    decreases index,
{
    if index > 0 && src[index - 1] != LINE_FEED {
        lemma_column_of_bound(src, index - 1, offset);
    }
}

/// Whether the bytes from `start` up to `end` make a string slice of the
/// source: the range lies within it and both ends lie between characters.
pub open spec fn sliceable(src: Seq<u8>, start: int, end: int) -> bool {
    &&& 0 <= start <= end <= src.len()
    &&& is_char_boundary(src, start)
    &&& is_char_boundary(src, end)
}

/// The string slice of the source that comes nearest to the bytes from
/// `start` up to `end`: both ends are snapped, and an end in front of the
/// start gives way to the start.
pub open spec fn slice_of(src: Seq<u8>, start: int, end: int) -> Seq<u8> {
    src.subrange(
        snap(src, start),
        if snap(src, end) >= snap(src, start) {
            snap(src, end)
        } else {
            snap(src, start)
        },
    )
}

/// Where the bytes from `start` up to `end` make a string slice, they are
/// the string slice that comes nearest to them.
pub proof fn lemma_slice_of(src: Seq<u8>, start: int, end: int)
    requires
        valid_utf8(src),
        sliceable(src, start, end),
    ensures
        slice_of(src, start, end) == src.subrange(start, end),
{
    lemma_snap(src, start);
    lemma_snap(src, end);
}

/// An offset between characters of a text lies between characters of the
/// part of the text up to a later such offset too.
pub proof fn lemma_boundary_in_prefix(src: Seq<u8>, start: int, end: int)
    requires
        valid_utf8(src),
        sliceable(src, start, end),
    ensures
        valid_utf8(src.subrange(0, end)),
        is_char_boundary(src.subrange(0, end), start),
{
    valid_utf8_split(src, end);
    let head = src.subrange(0, end);
    if start < end {
        is_char_boundary_iff_not_is_continuation_byte(src, start);
        is_char_boundary_iff_not_is_continuation_byte(head, start);
    } else {
        is_char_boundary_start_end_of_seq(head);
    }
}


/// The mathematical value of a tokenizer.
pub struct TokensView {
    /// The bytes of the source text.
    pub src: Seq<u8>,
    /// The offset at which the next token starts.
    pub cursor: int,
    /// The mode in which the next token is read.
    pub mode: TokenMode,
    /// Whether the last token was closed properly.
    pub terminated: bool,
    /// The column at which the first line of the source starts.
    pub column_offset: nat,
}

impl TokensView {
    /// The tokenizer at the start of a source.
    pub open spec fn start(src: Seq<u8>, mode: TokenMode, column_offset: nat) -> TokensView {
        TokensView { src, cursor: 0, mode, terminated: true, column_offset }
    }

    /// The source is well-formed text, the cursor lies within it and
    /// between characters, and columns fit the machine.
    pub open spec fn wf(self) -> bool {
        &&& valid_utf8(self.src)
        &&& 0 <= self.cursor <= self.src.len()
        &&& is_char_boundary(self.src, self.cursor)
        &&& self.src.len() + self.column_offset <= usize::MAX
    }

    /// Whether the source is used up.
    pub open spec fn done(self) -> bool {
        self.cursor >= self.src.len()
    }

    /// The kind of the next token, if the source is not used up.
    pub open spec fn peek(self) -> Option<KindView> {
        if self.done() {
            None
        } else {
            Some(token_at(self.src, self.mode, self.cursor).kind)
        }
    }

    /// The tokenizer behind the next token.
    pub open spec fn next(self) -> TokensView {
        if self.done() {
            self
        } else {
            let token = token_at(self.src, self.mode, self.cursor);
            TokensView { cursor: token.end, terminated: token.terminated, ..self }
        }
    }

    /// The tokenizer at another offset, which is held within the source and
    /// between characters.
    pub open spec fn jump(self, index: int) -> TokensView {
        TokensView { cursor: snap(self.src, index), ..self }
    }

    /// The tokenizer in another mode.
    pub open spec fn with_mode(self, mode: TokenMode) -> TokensView {
        TokensView { mode, ..self }
    }

    /// The column of the byte at `index`, which is held within the source.
    pub open spec fn column(self, index: int) -> nat {
        column_of(
            self.src,
            if index <= self.src.len() {
                index
            } else {
                self.src.len() as int
            },
            self.column_offset,
        )
    }
}

/// Reading a token keeps the tokenizer well-formed and moves the cursor
/// forward, unless the source is used up.
pub proof fn lemma_next(tokens: TokensView)
    requires
        tokens.wf(),
    ensures
        tokens.next().wf(),
        tokens.next().src == tokens.src,
        tokens.next().mode == tokens.mode,
        tokens.next().column_offset == tokens.column_offset,
        tokens.done() <==> tokens.peek() is None,
        tokens.done() ==> tokens.next() == tokens,
        !tokens.done() ==> tokens.cursor < tokens.next().cursor,
{
    if !tokens.done() {
        lemma_token_at(tokens.src, tokens.mode, tokens.cursor);
        lemma_token_boundary(tokens.src, tokens.mode, tokens.cursor);
    }
}

/// An offset beyond the source snaps as the end of the source does.
proof fn lemma_snap_beyond(src: Seq<u8>, index: int)
    requires
        index >= src.len(),
    ensures
        snap(src, index) == snap(src, src.len() as int),
    decreases index,
{
    if index > src.len() {
        lemma_snap_beyond(src, index - 1);
    }
}

/// A jump keeps the tokenizer well-formed, and lands where it is sent if
/// that lies within the source and between characters.
pub proof fn lemma_jump(tokens: TokensView, index: int)
    requires
        tokens.wf(),
        0 <= index,
    ensures
        tokens.jump(index).wf(),
        index <= tokens.src.len() && is_char_boundary(tokens.src, index) ==> tokens.jump(
            index,
        ).cursor == index,
{
    lemma_snap(tokens.src, index);
}

fn test_space(b: u8) -> (space: bool)
    ensures
        space == is_space(b),
{
    b == BLANK || b == TAB || b == LINE_FEED || b == CARRIAGE_RETURN
}

fn punct_of(mode: TokenMode, b: u8) -> (kind: Option<SyntaxKind>)
    ensures
        kind_view(kind) == punct(mode, b),
{
    if b == LEFT_BRACE {
        Some(SyntaxKind::LeftBrace)
    } else if b == RIGHT_BRACE {
        Some(SyntaxKind::RightBrace)
    } else if b == LEFT_BRACKET {
        Some(SyntaxKind::LeftBracket)
    } else if b == RIGHT_BRACKET {
        Some(SyntaxKind::RightBracket)
    } else if b == STAR {
        Some(SyntaxKind::Star)
    } else if b == DOLLAR {
        Some(SyntaxKind::Dollar)
    } else if b == UNDERSCORE && mode != TokenMode::Code {
        Some(SyntaxKind::Underscore)
    } else if b == LEFT_PAREN && mode != TokenMode::Markup {
        Some(SyntaxKind::LeftParen)
    } else if b == RIGHT_PAREN && mode != TokenMode::Markup {
        Some(SyntaxKind::RightParen)
    } else if b == SEMICOLON && mode == TokenMode::Code {
        Some(SyntaxKind::Semicolon)
    } else if b == DOT && mode == TokenMode::Code {
        Some(SyntaxKind::Dot)
    } else {
        None
    }
}

fn scan(src: &[u8], from: usize, run: Run) -> (end: usize)
    requires
        from <= src@.len(),
    ensures
        end == run_end(src@, from as int, run),
        from <= end <= src@.len(),
{
    let mut end = from;
    while end < src.len() && run.test(src[end])
        invariant
            from <= end <= src@.len(),
            run_end(src@, from as int, run) == run_end(src@, end as int, run),
        decreases src@.len() - end,
    {
        end += 1;
    }
    end
}

fn scan_block(src: &[u8], from: usize) -> (end: Option<usize>)
    requires
        from <= src@.len(),
    ensures
        end matches Some(e) ==> block_close(src@, from as int) == Some(e as int),
        end is None ==> block_close(src@, from as int) is None,
{
    let mut at = from;
    while at < src.len() && src.len() - at >= 2
        invariant
            from <= at <= src@.len(),
            block_close(src@, from as int) == block_close(src@, at as int),
        decreases src@.len() - at,
    {
        if src[at] == STAR && src[at + 1] == SLASH {
            return Some(at + 2);
        }
        at += 1;
    }
    None
}

fn newlines_in(src: &[u8], from: usize, to: usize) -> (count: usize)
    requires
        from <= to <= src@.len(),
    ensures
        count == count_newlines(src@, from as int, to as int),
        count <= to - from,
{
    let mut count: usize = 0;
    let mut at = from;
    while at < to
        invariant
            from <= at <= to <= src@.len(),
            count == count_newlines(src@, from as int, at as int),
            count <= at - from,
        decreases to - at,
    {
        if src[at] == LINE_FEED {
            count += 1;
        }
        at += 1;
    }
    count
}

fn kind_of_word(mode: TokenMode, src: &[u8], from: usize, to: usize) -> (kind: SyntaxKind)
    requires
        from <= to <= src@.len(),
    ensures
        kind@ == word_kind(mode, src@.subrange(from as int, to as int)),
{
    let ghost word = src@.subrange(from as int, to as int);
    if mode != TokenMode::Code {
        return SyntaxKind::Text;
    }
    let len = to - from;
    if len == 1 && src[from] == UNDERSCORE {
        assert(word =~= seq![UNDERSCORE]);
        return SyntaxKind::Underscore;
    }
    assert(word != seq![UNDERSCORE]) by {
        if word == seq![UNDERSCORE] {
            assert(word.len() == 1);
            assert(word[0] == UNDERSCORE);
        }
    }
    if len == 4 && src[from] == 0x65 && src[from + 1] == 0x6c && src[from + 2] == 0x73 && src[from
        + 3] == 0x65 {
        assert(word =~= else_word());
        return SyntaxKind::Else;
    }
    assert(word != else_word()) by {
        let other = else_word();
        if word == other {
            assert(word.len() == 4);
            assert(word[0] == other[0] && word[1] == other[1] && word[2] == other[2] && word[3]
                == other[3]);
        }
    }
    if len == 4 && src[from] == 0x66 && src[from + 1] == 0x72 && src[from + 2] == 0x6f && src[from
        + 3] == 0x6d {
        assert(word =~= from_word());
        return SyntaxKind::From;
    }
    assert(word != from_word()) by {
        let other = from_word();
        if word == other {
            assert(word.len() == 4);
            assert(word[0] == other[0] && word[1] == other[1] && word[2] == other[2] && word[3]
                == other[3]);
        }
    }
    if len > 0 && 0x30 <= src[from] && src[from] <= 0x39 {
        assert(word[0] == src@[from as int]);
        return SyntaxKind::Number;
    }
    assert(!(word.len() > 0 && is_digit(word[0]))) by {
        if word.len() > 0 {
            assert(word[0] == src@[from as int]);
        }
    }
    SyntaxKind::Ident
}

fn column_in(src: &[u8], index: usize, offset: usize) -> (column: usize)
    requires
        index <= src@.len(),
        src@.len() + offset <= usize::MAX,
    ensures
        column == column_of(src@, index as int, offset as nat),
{
    let mut count: usize = 0;
    let mut at = index;
    while at > 0 && src[at - 1] != LINE_FEED
        invariant
            at <= index <= src@.len(),
            count <= index - at,
            column_of(src@, index as int, offset as nat) == column_of(
                src@,
                at as int,
                offset as nat,
            ) + count,
        decreases at,
    {
        let b = src[at - 1];
        if !(0x80 <= b && b <= 0xbf) {
            count += 1;
        }
        at -= 1;
    }
    if at == 0 {
        count + offset
    } else {
        count
    }
}

/// An iterator over the tokens of a string of source code.
#[derive(Clone, Copy)]
pub struct Tokens<'s> {
    text: &'s str,
    src: &'s [u8],
    cursor: usize,
    mode: TokenMode,
    terminated: bool,
    column_offset: usize,
}

impl<'s> View for Tokens<'s> {
    type V = TokensView;

    closed spec fn view(&self) -> TokensView {
        TokensView {
            src: self.src@,
            cursor: self.cursor as int,
            mode: self.mode,
            terminated: self.terminated,
            column_offset: self.column_offset as nat,
        }
    }
}

impl<'s> Tokens<'s> {
    /// Whether the bytes that the tokenizer reads are those of its text.
    pub closed spec fn linked(&self) -> bool {
        self.src@ == self.text.spec_bytes()
    }

    /// The tokenizer's invariant.
    pub open spec fn wf(&self) -> bool {
        self@.wf() && self.linked()
    }

    /// Create a new token iterator with the given mode.
    pub fn new(text: &'s str, mode: TokenMode) -> (tokens: Tokens<'s>)
        ensures
            tokens.wf(),
            tokens@ == TokensView::start(text.spec_bytes(), mode, 0),
    {
        let src = text.as_bytes();
        let len = src.len();
        proof {
            encode_utf8_valid_utf8(text@);
        }
        Tokens { text, src, cursor: 0, mode, terminated: true, column_offset: 0 }
    }

    /// Create a new token iterator with the given mode and a prefix to
    /// offset column calculations.
    pub fn with_prefix(prefix: &str, text: &'s str, mode: TokenMode) -> (tokens: Tokens<'s>)
        requires
            prefix.spec_bytes().len() + text.spec_bytes().len() <= usize::MAX,
        ensures
            tokens.wf(),
            tokens@ == TokensView::start(
                text.spec_bytes(),
                mode,
                column_of(prefix.spec_bytes(), prefix.spec_bytes().len() as int, 0),
            ),
    {
        let src = text.as_bytes();
        let before = prefix.as_bytes();
        let column_offset = column_in(before, before.len(), 0);
        proof {
            lemma_column_of_bound(before@, before@.len() as int, 0);
            encode_utf8_valid_utf8(text@);
        }
        Tokens { text, src, cursor: 0, mode, terminated: true, column_offset }
    }

    /// Get the current token mode.
    pub fn mode(&self) -> (mode: TokenMode)
        ensures
            mode == self@.mode,
    {
        self.mode
    }

    /// Change the token mode.
    pub fn set_mode(&mut self, mode: TokenMode)
        ensures
            final(self)@ == old(self)@.with_mode(mode),
            final(self).linked() == old(self).linked(),
    {
        self.mode = mode;
    }

    /// The index in the string at which the last token ends and next token
    /// will start.
    pub fn cursor(&self) -> (cursor: usize)
        ensures
            cursor == self@.cursor,
    {
        self.cursor
    }

    /// The nearest offset at or before `index` that lies within the string
    /// and between characters.
    fn snap(&self, index: usize) -> (at: usize)
        requires
            self.wf(),
        ensures
            at == snap(self@.src, index as int),
            at <= self@.src.len(),
            is_char_boundary(self@.src, at as int),
    {
        let len = self.text.len();
        let mut at = if index <= len {
            index
        } else {
            len
        };
        proof {
            if index > len {
                lemma_snap_beyond(self@.src, index as int);
            }
        }
        while !self.text.is_char_boundary(at)
            invariant
                self.linked(),
                valid_utf8(self@.src),
                at <= self@.src.len(),
                snap(self@.src, at as int) == snap(self@.src, index as int),
            decreases at,
        {
            at -= 1;
        }
        proof {
            lemma_snap(self@.src, index as int);
        }
        at
    }

    /// Jump to the given index in the string, or to the nearest offset in
    /// front of it that lies within the string and between characters.
    pub fn jump(&mut self, index: usize)
        requires
            old(self).wf(),
        ensures
            final(self)@ == old(self)@.jump(index as int),
            final(self).wf(),
    {
        self.cursor = self.snap(index);
    }

    /// Whether the last token was terminated.
    pub fn terminated(&self) -> (terminated: bool)
        ensures
            terminated == self@.terminated,
    {
        self.terminated
    }

    /// The column index of a given index in the source string.
    pub fn column(&self, index: usize) -> (column: usize)
        requires
            self.wf(),
        ensures
            column == self@.column(index as int),
    {
        let len = self.src.len();
        column_in(
            self.src,
            if index <= len {
                index
            } else {
                len
            },
            self.column_offset,
        )
    }

    /// The part of the source text in the given range of bytes. An end of
    /// the range that lies beyond the text or inside a character is snapped
    /// to the nearest offset in front of it, and an end in front of the
    /// start gives way to the start.
    pub fn get(&self, range: Range<usize>) -> (text: &'s str)
        requires
            self.wf(),
        ensures
            text.spec_bytes() == slice_of(self@.src, range.start as int, range.end as int),
    {
        let start = self.snap(range.start);
        let snapped = self.snap(range.end);
        let end = if snapped >= start {
            snapped
        } else {
            start
        };
        proof {
            lemma_boundary_in_prefix(self@.src, start as int, end as int);
        }
        let (head, _) = self.text.split_at(end);
        let (_, part) = head.split_at(start);
        proof {
            assert(part.spec_bytes() =~= self@.src.subrange(start as int, end as int));
        }
        part
    }

    /// Read the next token, if the source is not used up.
    pub fn next(&mut self) -> (kind: Option<SyntaxKind>)
        requires
            old(self).wf(),
        ensures
            final(self).wf(),
            final(self)@ == old(self)@.next(),
            kind_view(kind) == old(self)@.peek(),
    {
        let len = self.src.len();
        let start = self.cursor;
        if start >= len {
            return None;
        }
        proof {
            lemma_token_at(self@.src, self@.mode, start as int);
            lemma_token_boundary(self@.src, self@.mode, start as int);
        }
        let b = self.src[start];
        if test_space(b) {
            let end = scan(self.src, start, Run::Space);
            let newlines = newlines_in(self.src, start, end);
            self.cursor = end;
            self.terminated = true;
            return Some(SyntaxKind::Space { newlines });
        }
        if b == SLASH && len - start > 1 {
            let second = self.src[start + 1];
            if second == SLASH {
                let end = scan(self.src, start + 2, Run::Line);
                self.cursor = end;
                self.terminated = end < len;
                return Some(SyntaxKind::LineComment);
            }
            if second == STAR {
                match scan_block(self.src, start + 2) {
                    Some(end) => {
                        self.cursor = end;
                        self.terminated = true;
                    },
                    None => {
                        self.cursor = len;
                        self.terminated = false;
                    },
                }
                return Some(SyntaxKind::BlockComment);
            }
        }
        if b == SLASH {
            self.cursor = start + 1;
            self.terminated = true;
            return Some(SyntaxKind::Text);
        }
        match punct_of(self.mode, b) {
            Some(kind) => {
                self.cursor = start + 1;
                self.terminated = true;
                return Some(kind);
            },
            None => {},
        }
        let end = scan(self.src, start, Run::Word(self.mode));
        let kind = kind_of_word(self.mode, self.src, start, end);
        self.cursor = end;
        self.terminated = true;
        Some(kind)
    }
}

} // verus!
