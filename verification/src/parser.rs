//! A convenient token-based parser.

use core::ops::Range;
use vstd::prelude::*;
use vstd::string::{StringExecFns, StringSliceAdditionalSpecFns};
use crate::group::{inside, lemma_inside_top, Group, GroupEntry};
use crate::kind::{kind_view, ErrorPos, KindView, SyntaxKind, TokenMode};
use crate::laws::{
    lemma_bump, lemma_convert, lemma_eat, lemma_end_group, lemma_enter, lemma_expected,
    lemma_expected_at, lemma_expected_found, lemma_leave, lemma_miss_closer, lemma_replace_child,
    lemma_rescan, lemma_start, lemma_start_group, lemma_token_is_slice, lemma_trivia_start,
    lemma_unexpected, lemma_wrap_from,
};
use crate::model::ParserView;
use crate::node::{
    lemma_sum_len_one, lemma_sum_len_split, lemma_texts_are_source, sum_len, texts, verdict_view,
    views, NodeView, SyntaxNode,
};
use crate::tokens::{column_of, lemma_slice_of, slice_of, Tokens, TokensView};

verus! {

/// A convenient token-based parser.
pub struct Parser<'s> {
    /// An iterator over the source tokens.
    tokens: Tokens<'s>,
    /// Whether we are at the end of the file or of a group.
    eof: bool,
    /// The current token.
    current: Option<SyntaxKind>,
    /// The end byte index of the last non-trivia token.
    prev_end: usize,
    /// The start byte index of the peeked token.
    current_start: usize,
    /// The stack of open groups.
    groups: Vec<GroupEntry>,
    /// The children of the currently built node.
    children: Vec<SyntaxNode>,
    /// Whether the last group was not correctly terminated.
    unterminated_group: bool,
    /// Whether a group terminator was found that did not close a group.
    stray_terminator: bool,
    /// The number of source bytes under the children that were set aside
    /// for a subparse.
    outer_len: Ghost<nat>,
}

impl<'s> View for Parser<'s> {
    type V = ParserView;

    closed spec fn view(&self) -> ParserView {
        ParserView {
            tokens: self.tokens@,
            eof: self.eof,
            current: kind_view(self.current),
            prev_end: self.prev_end as int,
            current_start: self.current_start as int,
            groups: self.groups@,
            children: views(self.children@),
            unterminated_group: self.unterminated_group,
            stray_terminator: self.stray_terminator,
            outer_len: self.outer_len@,
        }
    }
}

impl<'s> Parser<'s> {
    /// Whether the parser's tokenizer reads the bytes of its text.
    pub closed spec fn linked(&self) -> bool {
        self.tokens.linked()
    }

    /// The parser's invariant.
    pub open spec fn wf(&self) -> bool {
        self@.inv() && self.linked()
    }

    /// The part of the invariant that holds within an operation too.
    spec fn sound(&self) -> bool {
        self@.coherent() && self.linked()
    }

    /// Create a new parser for the source string.
    pub fn new(text: &'s str, mode: TokenMode) -> (parser: Parser<'s>)
        ensures
            parser.wf(),
            parser@ == ParserView::start(TokensView::start(text.spec_bytes(), mode, 0)),
    {
        Self::over(Tokens::new(text, mode))
    }

    /// Create a new parser for the source string that is prefixed by some
    /// text that does not need to be parsed but taken into account for
    /// column calculation.
    pub fn with_prefix(prefix: &str, text: &'s str, mode: TokenMode) -> (parser: Parser<'s>)
        requires
            prefix.spec_bytes().len() + text.spec_bytes().len() <= usize::MAX,
        ensures
            parser.wf(),
            parser@ == ParserView::start(
                TokensView::start(
                    text.spec_bytes(),
                    mode,
                    column_of(prefix.spec_bytes(), prefix.spec_bytes().len() as int, 0),
                ),
            ),
    {
        Self::over(Tokens::with_prefix(prefix, text, mode))
    }

    fn over(tokens: Tokens<'s>) -> (parser: Parser<'s>)
        requires
            tokens.wf(),
            tokens@.cursor == 0,
        ensures
            parser.wf(),
            parser@ == ParserView::start(tokens@),
    {
        let ghost first = tokens@;
        let mut tokens = tokens;
        let current = tokens.next();
        proof {
            lemma_start(first);
        }
        let parser = Parser {
            tokens,
            eof: current.is_none(),
            current,
            prev_end: 0,
            current_start: 0,
            groups: Vec::new(),
            children: Vec::new(),
            unterminated_group: false,
            stray_terminator: false,
            outer_len: Ghost(0),
        };
        proof {
            assert(parser@.children =~= Seq::<NodeView>::empty());
            assert(parser@.groups =~= Seq::<GroupEntry>::empty());
        }
        parser
    }

    /// Whether the end of the source string or group is reached.
    pub fn eof(&self) -> (eof: bool)
        ensures
            eof == self@.eof,
    {
        self.eof
    }

    /// Peek at the current token without consuming it.
    pub fn peek(&self) -> (kind: Option<&SyntaxKind>)
        ensures
            kind matches Some(kind) ==> self@.peek() == Some(kind@),
            kind is None ==> self@.peek() is None,
    {
        if self.eof {
            None
        } else {
            self.current.as_ref()
        }
    }

    /// Whether the current token is of the given type.
    pub fn at(&self, kind: SyntaxKind) -> (at: bool)
        ensures
            at == (self@.peek() == Some(kind@)),
    {
        match self.peek() {
            Some(current) => *current == kind,
            None => false,
        }
    }

    /// Peek at the current token, but only if it follows immediately after
    /// the last one without any trivia in between.
    pub fn peek_direct(&self) -> (kind: Option<&SyntaxKind>)
        ensures
            kind matches Some(kind) ==> self@.peek_direct() == Some(kind@),
            kind is None ==> self@.peek_direct() is None,
    {
        if self.prev_end() == self.current_start() {
            self.peek()
        } else {
            None
        }
    }

    /// Peek at the source of the current token.
    pub fn peek_src(&self) -> (text: &'s str)
        requires
            self.wf(),
        ensures
            text.spec_bytes() == self@.tokens.src.subrange(
                self@.current_start,
                self@.tokens.cursor,
            ),
    {
        proof {
            lemma_token_is_slice(self@);
            lemma_slice_of(self@.tokens.src, self@.current_start, self@.tokens.cursor);
        }
        self.get(self.current_start()..self.current_end())
    }

    /// Obtain a range of the source code. An end of the range that lies
    /// beyond the source or inside a character is snapped to the nearest
    /// offset in front of it, and an end in front of the start gives way to
    /// the start.
    pub fn get(&self, range: Range<usize>) -> (text: &'s str)
        requires
            self.wf(),
        ensures
            text.spec_bytes() == slice_of(self@.tokens.src, range.start as int, range.end as int),
    {
        self.tokens.get(range)
    }

    /// The byte index at which the last non-trivia token ended.
    pub fn prev_end(&self) -> (index: usize)
        ensures
            index == self@.prev_end,
    {
        self.prev_end
    }

    /// The byte index at which the current token starts.
    pub fn current_start(&self) -> (index: usize)
        ensures
            index == self@.current_start,
    {
        self.current_start
    }

    /// The byte index at which the current token ends.
    pub fn current_end(&self) -> (index: usize)
        ensures
            index == self@.tokens.cursor,
    {
        self.tokens.cursor()
    }

    /// Determine the column index for the given byte index.
    pub fn column(&self, index: usize) -> (column: usize)
        requires
            self.wf(),
        ensures
            column == self@.tokens.column(index as int),
    {
        self.tokens.column(index)
    }

    /// Checks if all groups were correctly terminated.
    pub fn terminated(&self) -> (terminated: bool)
        ensures
            terminated == self@.terminated(),
    {
        self.groups.len() == 0 && !self.unterminated_group && !self.stray_terminator
    }

    /// Whether we are inside the given group (can be nested).
    pub fn inside(&self, kind: Group) -> (found: bool)
        ensures
            found == inside(self@.groups, kind),
    {
        let mut at = self.groups.len();
        proof {
            assert(self.groups@.take(at as int) =~= self.groups@);
        }
        while at > 0
            invariant
                at <= self.groups@.len(),
                inside(self.groups@, kind) == inside(self.groups@.take(at as int), kind),
            decreases at,
        {
            let top = self.groups[at - 1].kind;
            proof {
                lemma_inside_top(self.groups@.take(at as int), kind);
                assert(self.groups@.take(at as int).drop_last() =~= self.groups@.take(at - 1));
            }
            if kind.is_weak() && !top.is_weak() {
                return false;
            }
            if top == kind {
                return true;
            }
            at -= 1;
        }
        proof {
            assert(self.groups@.take(0) =~= Seq::<GroupEntry>::empty());
        }
        false
    }

    /// Whether a space with the given number of newlines ends the current
    /// group.
    fn space_ends_group(&self, n: usize) -> (ends: bool)
        requires
            self.sound(),
        ensures
            ends == self@.space_ends_group(n as nat),
    {
        let depth = self.groups.len();
        if n == 0 || depth == 0 {
            return false;
        }
        match self.groups[depth - 1].kind {
            Group::Strong | Group::Emph => n >= 2,
            Group::Imports => true,
            Group::Expr => {
                if depth >= 2 && self.groups[depth - 2].kind == Group::Brace {
                    let mut ahead = self.tokens;
                    match ahead.next() {
                        Some(SyntaxKind::Else) | Some(SyntaxKind::Dot) => false,
                        _ => true,
                    }
                } else {
                    true
                }
            },
            _ => false,
        }
    }

    /// Returns whether the given type can be skipped over.
    fn is_trivia(&self, token: &SyntaxKind) -> (trivia: bool)
        requires
            self.sound(),
        ensures
            trivia == self@.is_trivia(token@),
    {
        match token {
            SyntaxKind::Space { newlines } => !self.space_ends_group(*newlines),
            SyntaxKind::LineComment => true,
            SyntaxKind::BlockComment => true,
            _ => false,
        }
    }

    /// Take another look at the current token to recheck whether it ends a
    /// group.
    fn repeek(&mut self)
        requires
            old(self).sound(),
        ensures
            final(self)@ == old(self)@.repeek(),
            final(self).linked(),
    {
        let eof = match &self.current {
            Some(SyntaxKind::RightBrace) => self.inside(Group::Brace),
            Some(SyntaxKind::RightBracket) => self.inside(Group::Bracket),
            Some(SyntaxKind::RightParen) => self.inside(Group::Paren),
            Some(SyntaxKind::Star) => self.inside(Group::Strong),
            Some(SyntaxKind::Underscore) => self.inside(Group::Emph),
            Some(SyntaxKind::Dollar) => self.inside(Group::Math),
            Some(SyntaxKind::Semicolon) => self.inside(Group::Expr),
            Some(SyntaxKind::From) => self.inside(Group::Imports),
            Some(SyntaxKind::Space { newlines }) => self.space_ends_group(*newlines),
            Some(_) => false,
            None => true,
        };
        self.eof = eof;
    }

    /// Low-level bump that consumes exactly one token without special trivia
    /// handling.
    fn bump(&mut self)
        requires
            old(self).sound(),
            old(self)@.current is Some,
        ensures
            final(self)@ == old(self)@.bump(),
            final(self).sound(),
    {
        proof {
            lemma_bump(self@);
        }
        let kind = self.current.take().unwrap();
        let len = self.tokens.cursor() - self.current_start;
        self.children.push(SyntaxNode::leaf(kind, len));
        self.current_start = self.tokens.cursor();
        self.current = self.tokens.next();
        proof {
            assert(self@.children =~= old(self)@.bump().children);
        }
    }

    /// Consume the current token and the trivia behind it, from a state
    /// within an operation.
    fn advance(&mut self)
        requires
            old(self).sound(),
            old(self)@.current is Some,
        ensures
            final(self)@ == old(self)@.eat(),
            final(self).wf(),
    {
        proof {
            lemma_eat(self@);
        }
        let stray = match &self.current {
            Some(SyntaxKind::RightParen) => !self.inside(Group::Paren),
            Some(SyntaxKind::RightBracket) => !self.inside(Group::Bracket),
            Some(SyntaxKind::RightBrace) => !self.inside(Group::Brace),
            _ => false,
        };
        self.stray_terminator = self.stray_terminator || stray;
        self.prev_end = self.tokens.cursor();
        self.bump();
        let ghost bumped = self@;
        if self.tokens.mode() != TokenMode::Markup {
            while self.at_trivia()
                invariant
                    self.sound(),
                    self@.skip_trivia() == bumped.skip_trivia(),
                decreases self@.remaining(),
            {
                proof {
                    lemma_bump(self@);
                }
                self.bump();
            }
        }
        self.repeek();
    }

    /// Whether the current token can be skipped over.
    fn at_trivia(&self) -> (trivia: bool)
        requires
            self.sound(),
        ensures
            trivia == (self@.current is Some && self@.is_trivia(self@.current->0)),
    {
        match &self.current {
            Some(kind) => self.is_trivia(kind),
            None => false,
        }
    }

    /// Consume the current token and also trailing trivia.
    pub fn eat(&mut self)
        requires
            old(self).wf(),
            old(self)@.current is Some,
        ensures
            final(self)@ == old(self)@.eat(),
            final(self)@.follows(old(self)@),
            final(self)@.within(old(self)@),
            final(self)@.remaining() < old(self)@.remaining(),
            final(self).wf(),
    {
        proof {
            lemma_eat(self@);
        }
        self.advance();
    }

    /// Consume the current token if it is the given one.
    pub fn eat_if(&mut self, kind: SyntaxKind) -> (at: bool)
        requires
            old(self).wf(),
        ensures
            at == (old(self)@.peek() == Some(kind@)),
            final(self)@ == if at {
                old(self)@.eat()
            } else {
                old(self)@
            },
            final(self)@.follows(old(self)@),
            final(self)@.within(old(self)@),
            at ==> final(self)@.remaining() < old(self)@.remaining(),
            final(self).wf(),
    {
        let at = self.at(kind);
        if at {
            self.eat();
        }
        at
    }

    /// Consume the current token, which the caller knows to be the given
    /// one.
    pub fn eat_assert(&mut self, kind: SyntaxKind)
        requires
            old(self).wf(),
            old(self)@.peek() == Some(kind@),
        ensures
            final(self)@ == old(self)@.eat(),
            final(self)@.follows(old(self)@),
            final(self)@.within(old(self)@),
            final(self)@.remaining() < old(self)@.remaining(),
            final(self).wf(),
    {
        self.eat();
    }

    /// The number of trivia nodes at the end of the children.
    fn trivia_count(&self) -> (count: usize)
        requires
            self.sound(),
        ensures
            count == self@.trailing_trivia(self@.children),
            count <= self@.children.len(),
    {
        let len = self.children.len();
        let mut count: usize = 0;
        proof {
            assert(self@.children.take(len as int) =~= self@.children);
        }
        while count < len && self.is_trivia(self.children[len - 1 - count].kind())
            invariant
                self.sound(),
                len == self.children@.len(),
                count <= len,
                self@.trailing_trivia(self@.children) == count + self@.trailing_trivia(
                    self@.children.take(len - count),
                ),
            decreases len - count,
        {
            proof {
                assert(self@.children.take(len - count).drop_last() =~= self@.children.take(
                    len - count - 1,
                ));
            }
            count += 1;
        }
        count
    }

    /// Create a new marker.
    pub fn marker(&mut self) -> (marker: Marker)
        ensures
            marker.index() == old(self)@.children.len(),
            *final(self) == *old(self),
    {
        Marker(self.children.len())
    }

    /// Create a marker right before the trailing trivia.
    pub fn trivia_start(&self) -> (marker: Marker)
        requires
            self.wf(),
        ensures
            marker.index() == self@.trivia_start(),
    {
        Marker(self.children.len() - self.trivia_count())
    }

    /// Insert the error that `what` was expected at the given index among
    /// the children, from a state within an operation.
    fn insert_expected(&mut self, at: usize, what: &str)
        requires
            old(self).sound(),
            at <= old(self)@.children.len(),
        ensures
            final(self)@ == old(self)@.expected_at(at as int, what@),
            final(self).sound(),
    {
        proof {
            lemma_expected_at(self@, at as int, what@);
        }
        let error = SyntaxKind::error("expected ", what);
        self.children.insert(at, SyntaxNode::leaf(error, 0));
        proof {
            assert(self@.children =~= old(self)@.expected_at(at as int, what@).children);
        }
    }

    /// Add an error that the `thing` was expected at the end of the last
    /// non-trivia token.
    pub fn expected(&mut self, thing: &str)
        requires
            old(self).wf(),
        ensures
            final(self)@ == old(self)@.expected(thing@),
            final(self)@.follows(old(self)@),
            final(self)@.within(old(self)@),
            final(self).wf(),
    {
        proof {
            lemma_expected(self@, thing@);
        }
        let at = self.children.len() - self.trivia_count();
        self.insert_expected(at, thing);
    }

    /// Insert an error message that `what` was expected at the marker
    /// position.
    pub fn expected_at(&mut self, marker: Marker, what: &str)
        requires
            old(self).wf(),
            marker.index() <= old(self)@.children.len(),
        ensures
            final(self)@ == old(self)@.expected_at(marker.index(), what@),
            sum_len(final(self)@.children) == sum_len(old(self)@.children),
            final(self)@.follows(old(self)@),
            final(self)@.within(old(self)@),
            final(self).wf(),
    {
        proof {
            lemma_expected_at(self@, marker.index(), what@);
        }
        self.insert_expected(marker.0, what);
    }

    /// Consume the current token if it is the given one and produce an error
    /// if not.
    pub fn expect(&mut self, kind: SyntaxKind) -> (result: ParseResult)
        requires
            old(self).wf(),
        ensures
            result is Ok == (old(self)@.peek() == Some(kind@)),
            final(self)@ == if result is Ok {
                old(self)@.eat()
            } else {
                old(self)@.expected(kind@.name())
            },
            final(self)@.follows(old(self)@),
            final(self)@.within(old(self)@),
            result is Ok ==> final(self)@.remaining() < old(self)@.remaining(),
            final(self).wf(),
    {
        proof {
            lemma_expected(self@, kind@.name());
        }
        let at = match self.peek() {
            Some(current) => *current == kind,
            None => false,
        };
        if at {
            self.eat();
            Ok(())
        } else {
            self.expected(kind.name());
            Err(ParseError)
        }
    }

    /// Continue parsing in a group.
    ///
    /// When the end delimiter of the group is reached, all subsequent calls
    /// to `peek()` return `None`. Parsing can only continue with a matching
    /// call to `end_group`.
    ///
    /// The current token must start the given group.
    pub fn start_group(&mut self, kind: Group)
        requires
            old(self).wf(),
            kind.opener() is Some ==> old(self)@.peek() == kind.opener(),
        ensures
            final(self)@ == old(self)@.start_group(kind),
            final(self)@.follows(old(self)@),
            final(self)@.groups == old(self)@.groups.push(
                GroupEntry { kind, prev_mode: old(self)@.tokens.mode },
            ),
            final(self)@.tokens.mode == kind.mode_in(old(self)@.tokens.mode),
            final(self)@.remaining() <= old(self)@.remaining(),
            kind.opener() is Some ==> final(self)@.remaining() < old(self)@.remaining(),
            final(self).wf(),
    {
        proof {
            lemma_start_group(self@, kind);
        }
        let mode = self.tokens.mode();
        self.groups.push(GroupEntry { kind, prev_mode: mode });
        self.tokens.set_mode(kind.inner_mode(mode));
        match kind {
            Group::Expr | Group::Imports => self.repeek(),
            _ => self.advance(),
        }
    }

    /// End the parsing of a group.
    ///
    /// A group must have been started.
    pub fn end_group(&mut self)
        requires
            old(self).wf(),
            old(self)@.groups.len() > 0,
        ensures
            final(self)@ == old(self)@.end_group(),
            final(self)@.follows(old(self)@),
            final(self)@.groups == old(self)@.groups.drop_last(),
            final(self)@.tokens.mode == old(self)@.groups.last().prev_mode,
            old(self)@.groups.last().prev_mode == old(self)@.tokens.mode
                ==> final(self)@.remaining() <= old(self)@.remaining(),
            final(self).wf(),
    {
        proof {
            lemma_end_group(self@);
        }
        let group_mode = self.tokens.mode();
        let group = self.groups.pop().unwrap();
        self.tokens.set_mode(group.prev_mode);
        proof {
            assert(self@ == old(self)@.pop_group());
            lemma_miss_closer(self@, group.kind);
        }

        // Eat the end delimiter if there is one. There is no need to rescan
        // in this case.
        let closed = self.close(group.kind);

        // Rescan the peeked token if the mode changed.
        if !closed && self.tokens.mode() != group_mode {
            self.rescan(group_mode);
        }
        self.repeek();
    }

    /// Consume the token that closes a group of the given kind, if it is the
    /// current one, or else mark the group as unterminated where the kind
    /// requires the token.
    fn close(&mut self, kind: Group) -> (closed: bool)
        requires
            old(self).sound(),
        ensures
            closed == old(self)@.at_closer(kind),
            final(self)@ == if closed {
                old(self)@.eat_closer()
            } else {
                old(self)@.miss_closer(kind)
            },
            final(self).sound(),
    {
        proof {
            lemma_miss_closer(self@, kind);
        }
        match kind.end_delimiter() {
            Some((end, required)) => {
                if self.current_is(&end) {
                    // If another group closes after a group with the missing
                    // terminator, its scope of influence ends here and no
                    // longer taints the rest of the reparse.
                    self.unterminated_group = false;

                    // Also, we know that the delimiter is not stray even
                    // though we already removed the group.
                    let stray = self.stray_terminator;
                    self.advance();
                    self.stray_terminator = stray;
                    true
                } else {
                    if required {
                        let at = self.children.len() - self.trivia_count();
                        self.insert_expected(at, end.name());
                        self.unterminated_group = true;
                    }
                    false
                }
            },
            None => false,
        }
    }

    /// Read the current token again, from the end of what was consumed
    /// inside a group of the given mode.
    fn rescan(&mut self, group_mode: TokenMode)
        requires
            old(self).sound(),
            old(self)@.prev_end <= old(self)@.current_start,
            group_mode == TokenMode::Markup ==> old(self)@.prev_end == old(self)@.current_start,
        ensures
            final(self)@ == old(self)@.rescan(group_mode),
            final(self).sound(),
    {
        proof {
            lemma_trivia_start(self@);
            lemma_sum_len_split(self@.children, self@.trivia_start());
            lemma_rescan(self@, group_mode);
        }
        let mut target = self.prev_end;
        if group_mode != TokenMode::Markup {
            let start = self.children.len() - self.trivia_count();
            target = self.current_start - span_from(&self.children, start);
            self.children.truncate(start);
        }
        self.tokens.jump(target);
        self.prev_end = self.tokens.cursor();
        self.current_start = self.tokens.cursor();
        self.current = self.tokens.next();
        proof {
            assert(self@.children =~= old(self)@.rescan(group_mode).children);
        }
    }

    /// Whether the current token is the given one, whether or not it ends a
    /// group.
    fn current_is(&self, kind: &SyntaxKind) -> (same: bool)
        ensures
            same == (self@.current == Some(kind@)),
    {
        match &self.current {
            Some(current) => *current == *kind,
            None => false,
        }
    }

    /// End the parsing process and return the parsed children.
    ///
    /// The children cover the source exactly from the bytes that were set
    /// aside up to the current token, and up to the end of the source once
    /// it is used up: their leaves, taken in order, spell out these bytes.
    pub fn finish(self) -> (children: Vec<SyntaxNode>)
        requires
            self.wf(),
        ensures
            views(children@) == self@.children,
            self@.outer_len + sum_len(views(children@)) == self@.current_start,
            self@.current is None ==> self@.outer_len + sum_len(views(children@))
                == self@.tokens.src.len(),
            texts(views(children@), self@.tokens.src, self@.outer_len as int)
                == self@.tokens.src.subrange(self@.outer_len as int, self@.current_start),
    {
        proof {
            lemma_texts_are_source(
                self@.children,
                self@.tokens.src,
                self@.outer_len as int,
            );
        }
        self.children
    }

    /// End the parsing process and return
    /// - the parsed children and whether the last token was terminated, if
    ///   all groups were terminated correctly, or
    /// - `None` otherwise.
    pub fn consume(self) -> (outcome: Option<(Vec<SyntaxNode>, bool)>)
        requires
            self.wf(),
        ensures
            outcome is Some == self@.terminated(),
            outcome matches Some((children, terminated)) ==> {
                &&& views(children@) == self@.children
                &&& terminated == self@.tokens.terminated
                &&& self@.outer_len + sum_len(views(children@)) == self@.current_start
                &&& texts(views(children@), self@.tokens.src, self@.outer_len as int)
                    == self@.tokens.src.subrange(self@.outer_len as int, self@.current_start)
            },
    {
        proof {
            lemma_texts_are_source(
                self@.children,
                self@.tokens.src,
                self@.outer_len as int,
            );
        }
        if self.terminated() {
            let terminated = self.tokens.terminated();
            Some((self.children, terminated))
        } else {
            None
        }
    }

    /// Set the children aside for a subparse.
    fn set_aside(&mut self) -> (outer: Vec<SyntaxNode>)
        requires
            old(self).wf(),
        ensures
            final(self)@ == old(self)@.enter(),
            final(self).wf(),
            views(outer@) == old(self)@.children,
    {
        proof {
            lemma_enter(self@);
        }
        let mut outer: Vec<SyntaxNode> = Vec::new();
        core::mem::swap(&mut self.children, &mut outer);
        self.outer_len = Ghost(self.outer_len@ + sum_len(views(outer@)));
        proof {
            assert(self@.children =~= Seq::<NodeView>::empty());
        }
        outer
    }

    /// Wrap the children of a subparse in a node of the given kind, behind
    /// the children that were set aside for it.
    fn wrap_up(&mut self, kind: SyntaxKind, outer: Vec<SyntaxNode>, before: Ghost<ParserView>)
        requires
            old(self).wf(),
            before@.coherent(),
            old(self)@.follows(before@.enter()),
            views(outer@) == before@.children,
        ensures
            final(self)@ == old(self)@.leave(kind@, before@),
            final(self).wf(),
    {
        proof {
            lemma_leave(self@, kind@, before@);
            lemma_trivia_start(self@);
        }
        let until = self.children.len() - self.trivia_count();
        let mut inner: Vec<SyntaxNode> = Vec::new();
        core::mem::swap(&mut self.children, &mut inner);
        let mut children = outer;
        if self.tokens.mode() == TokenMode::Markup {
            children.push(SyntaxNode::inner(kind, inner));
            proof {
                assert(old(self)@.children.take(old(self)@.children.len() as int)
                    =~= old(self)@.children);
            }
        } else {
            // Trailing trivia should not be wrapped into the new node.
            proof {
                lemma_sum_len_split(old(self)@.children, until as int);
            }
            let mut trivia = inner.split_off(until);
            proof {
                assert(views(inner@) =~= old(self)@.children.take(until as int));
                assert(views(trivia@) =~= old(self)@.children.skip(until as int));
            }
            children.push(SyntaxNode::inner(kind, inner));
            children.append(&mut trivia);
        }
        self.children = children;
        self.outer_len = Ghost(before@.outer_len);
        proof {
            assert(self@.children =~= old(self)@.leave(kind@, before@).children);
        }
    }

    /// Perform a subparse that wraps its result in a node with the given
    /// kind.
    ///
    /// The subparse starts without children, and what it leaves becomes the
    /// new node; outside markup the trailing trivia stay behind the node. The
    /// subparse must keep the parser well-formed and leave alone what was set
    /// aside, as the operations of the parser do.
    pub fn perform<F, T>(&mut self, kind: SyntaxKind, f: F) -> (output: T) where
        F: FnOnce(&mut Parser<'s>) -> T,

        requires
            old(self).wf(),
            forall|p: &mut Parser<'s>|
                p.wf() && p@ == old(self)@.enter() ==> call_requires(f, (p,)),
            forall|p: &mut Parser<'s>, output: T|
                p.wf() && p@ == old(self)@.enter() && call_ensures(f, (p,), output)
                    ==> final(p).wf() && final(p)@.follows(p@),
        ensures
            final(self).wf(),
            final(self)@.follows(old(self)@),
            exists|p: &mut Parser<'s>|
                p.wf() && p@ == old(self)@.enter() && #[trigger] call_ensures(f, (p,), output)
                    && final(self)@ == final(p)@.leave(kind@, old(self)@),
    {
        let ghost before = self@;
        let outer = self.set_aside();
        let output = f(&mut *self);
        self.wrap_up(kind, outer, Ghost(before));
        output
    }

    /// Eat the current token and add an error that it is unexpected.
    pub fn unexpected(&mut self)
        requires
            old(self).wf(),
        ensures
            final(self)@ == old(self)@.unexpected(),
            final(self)@.follows(old(self)@),
            final(self)@.within(old(self)@),
            old(self)@.peek() is Some ==> final(self)@.remaining() < old(self)@.remaining(),
            final(self).wf(),
    {
        proof {
            lemma_unexpected(self@);
        }
        let error = match self.peek() {
            Some(found) => Some(SyntaxKind::error("unexpected ", found.name())),
            None => None,
        };
        match error {
            Some(error) => self.eat_inside(error),
            None => {},
        }
    }

    /// Eat the current token and add an error that it is not the expected
    /// `thing`.
    pub fn expected_found(&mut self, thing: &str)
        requires
            old(self).wf(),
        ensures
            final(self)@ == old(self)@.expected_found(thing@),
            final(self)@.follows(old(self)@),
            final(self)@.within(old(self)@),
            old(self)@.peek() is Some ==> final(self)@.remaining() < old(self)@.remaining(),
            final(self).wf(),
    {
        proof {
            lemma_expected_found(self@, thing@);
        }
        let error = match self.peek() {
            Some(found) => {
                let mut message = String::from_str("expected ");
                message.append(thing);
                message.append(", found ");
                message.append(found.name());
                Some(SyntaxKind::Error(ErrorPos::Full, message))
            },
            None => None,
        };
        match error {
            Some(error) => self.eat_inside(error),
            None => self.expected(thing),
        }
    }

    /// Eat the current token inside a node of the given kind.
    fn eat_inside(&mut self, kind: SyntaxKind)
        requires
            old(self).wf(),
            old(self)@.current is Some,
        ensures
            final(self)@ == old(self)@.enter().eat().leave(kind@, old(self)@),
            final(self).wf(),
    {
        proof {
            lemma_enter(self@);
            lemma_eat(self@.enter());
            lemma_leave(self@.enter().eat(), kind@, self@);
        }
        self.perform(kind, Self::eat);
    }

    /// Eat tokens while the condition is true.
    ///
    /// The parser stops in front of the first token that cannot be peeked or
    /// that the condition turns down, after it ate each token before that.
    pub fn eat_while<F>(&mut self, mut f: F) where F: FnMut(&SyntaxKind) -> bool
        requires
            old(self).wf(),
            forall|kind: &SyntaxKind| call_requires(f, (kind,)),
        ensures
            final(self).wf(),
            final(self)@.follows(old(self)@),
            final(self)@.within(old(self)@),
            final(self)@.remaining() <= old(self)@.remaining(),
            exists|n: nat|
                {
                    &&& final(self)@ == #[trigger] old(self)@.eat_times(n)
                    &&& forall|i: nat| i < n ==> old(self).passes(f, i, true)
                    &&& final(self)@.peek() is None || old(self).passes(f, n, false)
                },
    {
        let ghost mut n: nat = 0;
        let ghost condition = f;
        loop
            invariant
                f == condition,
                self.wf(),
                self@.follows(old(self)@),
                self@.within(old(self)@),
                self@.remaining() <= old(self)@.remaining(),
                self@ == old(self)@.eat_times(n),
                forall|kind: &SyntaxKind| call_requires(f, (kind,)),
                forall|i: nat| i < n ==> old(self).passes(f, i, true),
            ensures
                self@.peek() is None || old(self).passes(f, n, false),
            decreases self@.remaining(),
        {
            let go = match self.peek() {
                Some(kind) => {
                    let go = f(kind);
                    proof {
                        assert(old(self).passes(f, n, go));
                    }
                    go
                },
                None => false,
            };
            if !go {
                break ;
            }
            proof {
                lemma_eat(self@);
                n = n + 1;
            }
            self.eat();
        }
    }

    /// Whether the condition can give the answer for the token that is
    /// peeked after `n` tokens were eaten.
    pub open spec fn passes<F: FnMut(&SyntaxKind) -> bool>(
        &self,
        f: F,
        n: nat,
        answer: bool,
    ) -> bool {
        exists|kind: &SyntaxKind|
            self@.eat_times(n).peek() == Some(kind@) && #[trigger] call_ensures(
                f,
                (kind,),
                answer,
            )
    }
}

/// The number of source bytes that the nodes from the given index on cover.
fn span_from(nodes: &Vec<SyntaxNode>, from: usize) -> (len: usize)
    requires
        from <= nodes@.len(),
        sum_len(views(nodes@)) <= usize::MAX,
    ensures
        len == sum_len(views(nodes@).skip(from as int)),
{
    let mut len: usize = 0;
    let mut at = from;
    let ghost tail = views(nodes@).skip(from as int);
    proof {
        lemma_sum_len_split(views(nodes@), from as int);
        assert(tail.take(0) =~= Seq::<NodeView>::empty());
    }
    while at < nodes.len()
        invariant
            from <= at <= nodes@.len(),
            tail == views(nodes@).skip(from as int),
            len == sum_len(tail.take(at - from)),
            sum_len(tail) <= usize::MAX,
        decreases nodes@.len() - at,
    {
        proof {
            assert(tail.take(at - from + 1).drop_last() =~= tail.take(at - from));
            lemma_sum_len_split(tail, at - from + 1);
        }
        len = len + nodes[at].len();
        at += 1;
    }
    proof {
        assert(tail.take(at - from) =~= tail);
    }
    len
}

/// Marks a location in a parser's child list.
#[derive(Debug, Copy, Clone, Eq, PartialEq)]
pub struct Marker(usize);

impl Marker {
    /// The index among the parser's children that the marker stands for.
    pub closed spec fn index(self) -> int {
        self.0 as int
    }

    /// Peek at the child directly before the marker.
    pub fn before<'a>(self, p: &'a Parser) -> (child: Option<&'a SyntaxNode>)
        ensures
            child is Some == (0 < self.index() <= p@.children.len()),
            child matches Some(node) ==> node@ == p@.children[self.index() - 1],
    {
        if 0 < self.0 && self.0 <= p.children.len() {
            Some(&p.children[self.0 - 1])
        } else {
            None
        }
    }

    /// Peek at the child directly after the marker.
    pub fn after<'a>(self, p: &'a Parser) -> (child: Option<&'a SyntaxNode>)
        ensures
            child is Some == (self.index() < p@.children.len()),
            child matches Some(node) ==> node@ == p@.children[self.index()],
    {
        if self.0 < p.children.len() {
            Some(&p.children[self.0])
        } else {
            None
        }
    }

    /// Convert the child directly after marker.
    pub fn convert(self, p: &mut Parser, kind: SyntaxKind)
        requires
            old(p).wf(),
        ensures
            final(p)@ == old(p)@.convert(self.index(), kind@),
            final(p)@.follows(old(p)@),
            final(p)@.within(old(p)@),
            final(p).wf(),
    {
        proof {
            lemma_convert(p@, self.index(), kind@);
        }
        if self.0 < p.children.len() {
            p.children[self.0].convert(kind);
            proof {
                assert(p@.children =~= old(p)@.convert(self.index(), kind@).children);
            }
        }
    }

    /// Perform a subparse that wraps all children after the marker in a node
    /// with the given kind.
    ///
    /// The subparse must keep the parser well-formed and the marker within
    /// the children, and leave alone what was set aside.
    pub fn perform<'s, T, F>(self, p: &mut Parser<'s>, kind: SyntaxKind, f: F) -> (output: T) where
        F: FnOnce(&mut Parser<'s>) -> T,

        requires
            old(p).wf(),
            forall|q: &mut Parser<'s>| q@ == old(p)@ && q.wf() ==> call_requires(f, (q,)),
            forall|q: &mut Parser<'s>, output: T|
                q@ == old(p)@ && q.wf() && call_ensures(f, (q,), output) ==> final(q).wf()
                    && final(q)@.follows(q@) && self.index() <= final(q)@.children.len(),
        ensures
            final(p).wf(),
            final(p)@.follows(old(p)@),
            exists|q: &mut Parser<'s>|
                q@ == old(p)@ && q.wf() && #[trigger] call_ensures(f, (q,), output) && final(p)@
                    == final(q)@.wrap_from(self.index(), kind@),
    {
        let output = f(&mut *p);
        self.end(p, kind);
        output
    }

    /// Wrap all children after the marker (excluding trailing trivia) in a
    /// node with the given `kind`.
    pub fn end(self, p: &mut Parser, kind: SyntaxKind)
        requires
            old(p).wf(),
            self.index() <= old(p)@.children.len(),
        ensures
            final(p)@ == old(p)@.wrap_from(self.index(), kind@),
            final(p)@.follows(old(p)@),
            final(p)@.within(old(p)@),
            final(p).wf(),
    {
        proof {
            lemma_wrap_from(p@, self.index(), kind@);
            lemma_trivia_start(p@);
        }
        let start = p.children.len() - p.trivia_count();
        let until = if start >= self.0 {
            start
        } else {
            self.0
        };
        proof {
            lemma_sum_len_split(p@.children, until as int);
            lemma_sum_len_split(p@.children.take(until as int), self.index());
        }
        let mut rest = p.children.split_off(until);
        let wrapped = p.children.split_off(self.0);
        proof {
            assert(views(wrapped@) =~= old(p)@.children.subrange(self.index(), until as int));
            assert(views(wrapped@) =~= old(p)@.children.take(until as int).skip(self.index()));
        }
        p.children.push(SyntaxNode::inner(kind, wrapped));
        p.children.append(&mut rest);
        proof {
            assert(p@.children =~= old(p)@.wrap_from(self.index(), kind@).children);
        }
    }

    /// Wrap all children that do not fulfill the predicate in error nodes.
    ///
    /// The children from the marker on are checked one by one. Errors are
    /// passed over, and outside markup so is trivia. A child that the check
    /// turns down stands inside an error node afterwards; its message says
    /// what was found too where the check says what was expected.
    pub fn filter_children<F>(self, p: &mut Parser, mut f: F) where
        F: FnMut(&SyntaxNode) -> Result<(), &'static str>,

        requires
            old(p).wf(),
            self.index() <= old(p)@.children.len(),
            forall|node: &SyntaxNode| call_requires(f, (node,)),
        ensures
            final(p).wf(),
            final(p)@ == (ParserView { children: final(p)@.children, ..old(p)@ }),
            final(p)@.children.len() == old(p)@.children.len(),
            forall|i: int|
                0 <= i < self.index() ==> final(p)@.children[i] == old(p)@.children[i],
            forall|i: int|
                self.index() <= i < old(p)@.children.len() ==> if old(p)@.exempt(
                    old(p)@.children[i],
                ) {
                    #[trigger] final(p)@.children[i] == old(p)@.children[i]
                } else {
                    checked(f, old(p)@.children[i], final(p)@.children[i])
                },
    {
        let ghost start = f;
        let mut i = self.0;
        while i < p.children.len()
            invariant
                f == start,
                forall|node: &SyntaxNode| call_requires(f, (node,)),
                p.wf(),
                self.index() <= i,
                p@ == (ParserView { children: p@.children, ..old(p)@ }),
                p@.children.len() == old(p)@.children.len(),
                forall|j: int| 0 <= j < self.index() ==> p@.children[j] == old(p)@.children[j],
                forall|j: int| i <= j < p@.children.len() ==> p@.children[j] == old(p)@.children[j],
                forall|j: int|
                    self.index() <= j < i ==> if old(p)@.exempt(old(p)@.children[j]) {
                        #[trigger] p@.children[j] == old(p)@.children[j]
                    } else {
                        checked(f, old(p)@.children[j], p@.children[j])
                    },
            decreases p@.children.len() - i,
        {
            let ghost before = p@;
            let exempt = {
                let child = &p.children[i];
                // Don't expose errors, and don't expose trivia in code.
                child.kind().is_error() || (p.tokens.mode() != TokenMode::Markup
                    && child.kind().is_trivia())
            };
            if !exempt {
                let verdict = f(&p.children[i]);
                if verdict.is_err() {
                    let mut child = SyntaxNode::leaf(SyntaxKind::Text, 0);
                    core::mem::swap(&mut p.children[i], &mut child);
                    let mut child = child.flagged(verdict);
                    core::mem::swap(&mut p.children[i], &mut child);
                    proof {
                        let after = before.children[i as int].flagged(verdict_view(verdict));
                        lemma_sum_len_one(before.children[i as int]);
                        lemma_replace_child(before, i as int, after);
                        assert(p@.children =~= before.children.update(i as int, after));
                    }
                }
            }
            i += 1;
        }
    }
}

/// Whether the check can have an outcome on a node of the value `before`
/// that leaves the node with the value `after`.
pub open spec fn checked<F: FnMut(&SyntaxNode) -> Result<(), &'static str>>(
    f: F,
    before: NodeView,
    after: NodeView,
) -> bool {
    exists|node: &SyntaxNode, verdict: Result<(), &'static str>|
        node@ == before && #[trigger] call_ensures(f, (node,), verdict) && after == before.flagged(
            verdict_view(verdict),
        )
}

/// Allows parser methods to use the try operator. Never returned top-level
/// because the parser recovers from all errors.
pub type ParseResult<T = ()> = Result<T, ParseError>;

/// The error type for parsing.
#[derive(Debug, Copy, Clone, Eq, PartialEq)]
pub struct ParseError;

impl ParseError {
    /// The error as text.
    pub fn to_string(&self) -> (text: String)
        ensures
            text@ == "failed to parse"@,
    {
        String::from_str("failed to parse")
    }
}

} // verus!
