//! The parser as a mathematical state machine: its state, the steps that the
//! parser's operations take on it, and its invariant.

use vstd::prelude::*;
use vstd::utf8::is_char_boundary;
use crate::group::{inside, Group, GroupEntry};
use crate::kind::{KindView, TokenMode};
use crate::node::{sum_len, NodeView};
use crate::tokens::{lemma_next, TokensView};

verus! {

/// The mathematical value of a parser.
pub struct ParserView {
    /// The tokenizer, which stands behind the current token.
    pub tokens: TokensView,
    /// Whether the end of the source or of a group is reached.
    pub eof: bool,
    /// The current token; none at the end of the source.
    pub current: Option<KindView>,
    /// The offset at which the last token that was no trivia ended.
    pub prev_end: int,
    /// The offset at which the current token starts.
    pub current_start: int,
    /// The stack of open groups, the innermost last.
    pub groups: Seq<GroupEntry>,
    /// The children of the node that is being built.
    pub children: Seq<NodeView>,
    /// Whether the last group was not correctly terminated.
    pub unterminated_group: bool,
    /// Whether a group terminator was found that did not close a group.
    pub stray_terminator: bool,
    /// The number of source bytes that the nodes cover which were set aside
    /// while a subparse builds the children of a node of its own.
    pub outer_len: nat,
}

/// Whether each of the nodes starts between characters of the source, and
/// the last of them ends there, when the first starts at `at`.
pub open spec fn aligned(src: Seq<u8>, at: int, nodes: Seq<NodeView>) -> bool {
    forall|k: int|
        0 <= k <= nodes.len() ==> is_char_boundary(src, at + sum_len(#[trigger] nodes.take(k)))
}

/// Whether the group at the given index was started in the mode that the
/// group below it on the stack had set.
pub open spec fn started_inside(groups: Seq<GroupEntry>, index: int) -> bool {
    groups[index].prev_mode == groups[index - 1].kind.mode_in(groups[index - 1].prev_mode)
}

impl ParserView {
    /// The parser at the start of the source: the first token is read and
    /// nothing is consumed.
    pub open spec fn start(tokens: TokensView) -> ParserView {
        ParserView {
            tokens: tokens.next(),
            eof: tokens.peek() is None,
            current: tokens.peek(),
            prev_end: 0,
            current_start: 0,
            groups: Seq::empty(),
            children: Seq::empty(),
            unterminated_group: false,
            stray_terminator: false,
            outer_len: 0,
        }
    }

    /// How the parts of a parser hang together: the children cover the
    /// source exactly from the bytes set aside up to the start of the
    /// current token, which lies within the source, and where there is no
    /// current token the source is used up. Each child starts between
    /// characters of the source, and there the last token ended that was no
    /// trivia. The modes on the stack of groups fit together.
    pub open spec fn coherent(self) -> bool {
        &&& self.tokens.wf()
        &&& 0 <= self.prev_end <= self.tokens.src.len()
        &&& is_char_boundary(self.tokens.src, self.prev_end)
        &&& self.current_start <= self.tokens.cursor
        &&& self.outer_len + sum_len(self.children) == self.current_start
        &&& aligned(self.tokens.src, self.outer_len as int, self.children)
        &&& self.current is None ==> self.current_start == self.tokens.src.len()
        &&& self.modes_fit()
    }

    /// Whether the modes on the stack of groups fit together: each group
    /// was started in the mode that the group around it had set, and the
    /// tokenizer is in the mode that the innermost group has set.
    pub open spec fn modes_fit(self) -> bool {
        &&& forall|i: int| 0 < i < self.groups.len() ==> #[trigger] started_inside(self.groups, i)
        &&& self.groups.len() > 0 ==> self.tokens.mode == self.groups.last().kind.mode_in(
            self.groups.last().prev_mode,
        )
    }

    /// What holds of a parser between any two of its operations.
    pub open spec fn inv(self) -> bool {
        &&& self.coherent()
        &&& self.prev_end <= self.current_start
        &&& self.tokens.mode == TokenMode::Markup ==> self.prev_end == self.current_start
        &&& self.eof == self.at_end()
    }

    /// The current token, unless the end of the source or of a group is
    /// reached.
    pub open spec fn peek(self) -> Option<KindView> {
        if self.eof {
            None
        } else {
            self.current
        }
    }

    /// The current token, if nothing lies between it and the last token that
    /// was no trivia.
    pub open spec fn peek_direct(self) -> Option<KindView> {
        if self.prev_end == self.current_start {
            self.peek()
        } else {
            None
        }
    }

    /// Whether all groups were closed correctly.
    pub open spec fn terminated(self) -> bool {
        self.groups.len() == 0 && !self.unterminated_group && !self.stray_terminator
    }

    /// Whether whitespace with `n` line feeds ends the innermost group.
    pub open spec fn space_ends_group(self, n: nat) -> bool {
        if n == 0 || self.groups.len() == 0 {
            false
        } else {
            match self.groups.last().kind {
                Group::Strong | Group::Emph => n >= 2,
                Group::Imports => true,
                Group::Expr => !self.in_braces() || !self.continues(),
                _ => false,
            }
        }
    }

    /// Whether the group around the innermost one is a braced group.
    pub open spec fn in_braces(self) -> bool {
        self.groups.len() >= 2 && self.groups[self.groups.len() - 2].kind == Group::Brace
    }

    /// Whether the token behind the current one carries an expression on
    /// over a line break: `else` or a dot.
    pub open spec fn continues(self) -> bool {
        self.tokens.peek() == Some(KindView::Else) || self.tokens.peek() == Some(KindView::Dot)
    }

    /// Whether a token of the given kind can be skipped over.
    pub open spec fn is_trivia(self, kind: KindView) -> bool {
        match kind {
            KindView::Space { newlines } => !self.space_ends_group(newlines),
            KindView::LineComment => true,
            KindView::BlockComment => true,
            _ => false,
        }
    }

    /// Whether the current token ends the source or a group that the parser
    /// is inside of.
    pub open spec fn at_end(self) -> bool {
        match self.current {
            Some(KindView::RightBrace) => inside(self.groups, Group::Brace),
            Some(KindView::RightBracket) => inside(self.groups, Group::Bracket),
            Some(KindView::RightParen) => inside(self.groups, Group::Paren),
            Some(KindView::Star) => inside(self.groups, Group::Strong),
            Some(KindView::Underscore) => inside(self.groups, Group::Emph),
            Some(KindView::Dollar) => inside(self.groups, Group::Math),
            Some(KindView::Semicolon) => inside(self.groups, Group::Expr),
            Some(KindView::From) => inside(self.groups, Group::Imports),
            Some(KindView::Space { newlines }) => self.space_ends_group(newlines),
            Some(_) => false,
            None => true,
        }
    }

    /// Whether the current token closes a group of a kind that the parser is
    /// not inside of.
    pub open spec fn at_stray(self) -> bool {
        match self.current {
            Some(KindView::RightParen) => !inside(self.groups, Group::Paren),
            Some(KindView::RightBracket) => !inside(self.groups, Group::Bracket),
            Some(KindView::RightBrace) => !inside(self.groups, Group::Brace),
            _ => false,
        }
    }

    /// The parser after another look at whether the current token ends a
    /// group.
    pub open spec fn repeek(self) -> ParserView {
        ParserView { eof: self.at_end(), ..self }
    }

    /// The parser after the current token became a leaf and the next token
    /// was read.
    pub open spec fn bump(self) -> ParserView {
        ParserView {
            children: self.children.push(
                NodeView::Leaf {
                    kind: self.current->0,
                    len: (self.tokens.cursor - self.current_start) as nat,
                },
            ),
            current_start: self.tokens.cursor,
            current: self.tokens.peek(),
            tokens: self.tokens.next(),
            ..self
        }
    }

    /// The parser after every token was bumped that can be skipped over,
    /// from the current one on.
    pub open spec fn skip_trivia(self) -> ParserView
        decreases
                self.tokens.src.len() - self.tokens.cursor,
                if self.current is Some {
                    1nat
                } else {
                    0nat
                },
        when self.tokens.wf()
    {
        if self.current is Some && self.is_trivia(self.current->0) {
            proof {
                lemma_next(self.tokens);
            }
            self.bump().skip_trivia()
        } else {
            self
        }
    }

    /// The parser after the current token was consumed, and the trivia
    /// behind it unless the mode is markup.
    pub open spec fn eat(self) -> ParserView {
        let bumped = ParserView {
            stray_terminator: self.stray_terminator || self.at_stray(),
            prev_end: self.tokens.cursor,
            ..self
        }.bump();
        if bumped.tokens.mode != TokenMode::Markup {
            bumped.skip_trivia().repeek()
        } else {
            bumped.repeek()
        }
    }

    /// The parser after a group of the given kind was started.
    pub open spec fn start_group(self, kind: Group) -> ParserView {
        let entered = ParserView {
            groups: self.groups.push(GroupEntry { kind, prev_mode: self.tokens.mode }),
            tokens: self.tokens.with_mode(kind.mode_in(self.tokens.mode)),
            ..self
        };
        if kind.opener() is Some {
            entered.eat()
        } else {
            entered.repeek()
        }
    }

    /// The number of nodes at the end of `nodes` that are trivia.
    pub open spec fn trailing_trivia(self, nodes: Seq<NodeView>) -> nat
        decreases nodes.len(),
    {
        if nodes.len() > 0 && self.is_trivia(nodes.last().kind()) {
            1 + self.trailing_trivia(nodes.drop_last())
        } else {
            0
        }
    }

    /// The index among the children at which the trailing trivia start.
    pub open spec fn trivia_start(self) -> int {
        self.children.len() - self.trailing_trivia(self.children)
    }

    /// The parser after the error that `what` was expected was inserted at
    /// the given index among the children.
    pub open spec fn expected_at(self, marker: int, what: Seq<char>) -> ParserView {
        ParserView {
            children: self.children.insert(marker, NodeView::error("expected "@ + what)),
            ..self
        }
    }

    /// The parser after the error that `what` was expected was inserted in
    /// front of the trailing trivia.
    pub open spec fn expected(self, what: Seq<char>) -> ParserView {
        self.expected_at(self.trivia_start(), what)
    }

    /// The parser after the current token was read again, from the end of
    /// what was consumed inside a group of the given mode: the trailing
    /// trivia are read again too, unless that mode is markup.
    pub open spec fn rescan(self, group_mode: TokenMode) -> ParserView {
        let start = self.trivia_start();
        let target = if group_mode != TokenMode::Markup {
            self.current_start - sum_len(self.children.skip(start))
        } else {
            self.prev_end
        };
        let children = if group_mode != TokenMode::Markup {
            self.children.take(start)
        } else {
            self.children
        };
        let tokens = self.tokens.jump(target);
        ParserView {
            children,
            prev_end: tokens.cursor,
            current_start: tokens.cursor,
            current: tokens.peek(),
            tokens: tokens.next(),
            ..self
        }
    }

    /// The parser after the innermost group left the stack and the mode
    /// that it was started in came back.
    pub open spec fn pop_group(self) -> ParserView {
        ParserView {
            groups: self.groups.drop_last(),
            tokens: self.tokens.with_mode(self.groups.last().prev_mode),
            ..self
        }
    }

    /// Whether the current token closes a group of the given kind.
    pub open spec fn at_closer(self, kind: Group) -> bool {
        kind.closer() is Some && self.current == kind.closer()
    }

    /// The parser after the token that closes a group was consumed: a group
    /// that was not terminated taints what follows no longer, and the token
    /// is not stray.
    pub open spec fn eat_closer(self) -> ParserView {
        ParserView {
            stray_terminator: self.stray_terminator,
            ..ParserView { unterminated_group: false, ..self }.eat()
        }
    }

    /// The parser after a group of the given kind ended without the token
    /// that closes it: where the kind requires the token, an error stands in
    /// front of the trailing trivia and the group counts as unterminated.
    pub open spec fn miss_closer(self, kind: Group) -> ParserView {
        if kind.closer() is Some && kind.closer_required() {
            ParserView { unterminated_group: true, ..self.expected(kind.closer()->0.name()) }
        } else {
            self
        }
    }

    /// The parser after the innermost group was ended.
    pub open spec fn end_group(self) -> ParserView {
        let kind = self.groups.last().kind;
        let left = self.pop_group();
        if left.at_closer(kind) {
            left.eat_closer().repeek()
        } else if left.tokens.mode != self.tokens.mode {
            left.miss_closer(kind).rescan(self.tokens.mode).repeek()
        } else {
            left.miss_closer(kind).repeek()
        }
    }

    /// The parser at the start of a subparse: the children so far are set
    /// aside.
    pub open spec fn enter(self) -> ParserView {
        ParserView {
            children: Seq::empty(),
            outer_len: self.outer_len + sum_len(self.children),
            ..self
        }
    }

    /// The parser at the end of a subparse: the children that the subparse
    /// made become one node of the given kind behind the children that were
    /// set aside. Outside markup the trailing trivia stay out of the node.
    pub open spec fn leave(self, kind: KindView, outer: ParserView) -> ParserView {
        let until = if self.tokens.mode == TokenMode::Markup {
            self.children.len() as int
        } else {
            self.trivia_start()
        };
        ParserView {
            children: outer.children.push(
                NodeView::Inner { kind, children: self.children.take(until) },
            ) + self.children.skip(until),
            outer_len: outer.outer_len,
            ..self
        }
    }

    /// The parser after the children from the given index on, without the
    /// trailing trivia, became one node of the given kind.
    pub open spec fn wrap_from(self, marker: int, kind: KindView) -> ParserView {
        let until = if self.trivia_start() >= marker {
            self.trivia_start()
        } else {
            marker
        };
        ParserView {
            children: self.children.take(marker).push(
                NodeView::Inner { kind, children: self.children.subrange(marker, until) },
            ) + self.children.skip(until),
            ..self
        }
    }

    /// The parser after the child at the given index, if there is one, got
    /// another kind.
    pub open spec fn convert(self, marker: int, kind: KindView) -> ParserView {
        if 0 <= marker < self.children.len() {
            ParserView {
                children: self.children.update(marker, self.children[marker].with_kind(kind)),
                ..self
            }
        } else {
            self
        }
    }

    /// The parser after the current token was consumed inside an error node
    /// with the given message.
    pub open spec fn eat_as_error(self, message: Seq<char>) -> ParserView {
        self.enter().eat().leave(KindView::error(message), self)
    }

    /// The parser after the current token was consumed `n` times over.
    pub open spec fn eat_times(self, n: nat) -> ParserView
        decreases n,
    {
        if n == 0 {
            self
        } else {
            self.eat_times((n - 1) as nat).eat()
        }
    }

    /// Whether a check of the children passes over the given child: errors
    /// are not looked at again, and outside markup neither is trivia.
    pub open spec fn exempt(self, child: NodeView) -> bool {
        child.kind().is_error() || (self.tokens.mode != TokenMode::Markup
            && child.kind().is_trivia())
    }

    /// The parser after the current token, if one can be peeked, was
    /// consumed inside an error that it is unexpected.
    pub open spec fn unexpected(self) -> ParserView {
        match self.peek() {
            Some(found) => self.eat_as_error("unexpected "@ + found.name()),
            None => self,
        }
    }

    /// The parser after the current token, if one can be peeked, was
    /// consumed inside an error that `thing` was expected in its place; with
    /// none to peek the error stands alone.
    pub open spec fn expected_found(self, thing: Seq<char>) -> ParserView {
        match self.peek() {
            Some(found) => self.eat_as_error("expected "@ + thing + ", found "@ + found.name()),
            None => self.expected(thing),
        }
    }
}

} // verus!
