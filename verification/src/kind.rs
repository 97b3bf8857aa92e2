//! Token and node kinds, and the lexing modes.

use vstd::prelude::*;
use vstd::std_specs::cmp::PartialEqSpecImpl;
use vstd::string::StringExecFns;

verus! {

/// The mode in which source text is split into tokens.
#[derive(Clone, Copy, Debug, PartialEq, Eq, Structural)]
pub enum TokenMode {
    /// Text and markup.
    Markup,
    /// Math atoms, operators, etc.
    Math,
    /// Keywords, literals and operators.
    Code,
}

/// Where in a node an error should be annotated.
#[derive(Clone, Copy, Debug, PartialEq, Eq, Structural)]
pub enum ErrorPos {
    /// Over the full width of the node.
    Full,
    /// At the start of the node.
    Start,
    /// At the end of the node.
    End,
}

/// The kind of a token or of a node in the syntax tree.
#[derive(Clone, Debug)]
pub enum SyntaxKind {
    /// A left curly brace: `{`.
    LeftBrace,
    /// A right curly brace: `}`.
    RightBrace,
    /// A left square bracket: `[`.
    LeftBracket,
    /// A right square bracket: `]`.
    RightBracket,
    /// A left round parenthesis: `(`.
    LeftParen,
    /// A right round parenthesis: `)`.
    RightParen,
    /// A star: `*`.
    Star,
    /// An underscore: `_`.
    Underscore,
    /// A dollar sign: `$`.
    Dollar,
    /// A semicolon: `;`.
    Semicolon,
    /// A dot: `.`.
    Dot,
    /// The keyword `from`.
    From,
    /// The keyword `else`.
    Else,
    /// A run of whitespace, with the number of line feeds in it.
    Space { newlines: usize },
    /// A comment that runs to the end of the line: `// ...`.
    LineComment,
    /// A comment between `/*` and `*/`.
    BlockComment,
    /// A run of plain content.
    Text,
    /// A word in code that is not a keyword.
    Ident,
    /// A word in code that starts with a digit.
    Number,
    /// A sequence of markup nodes.
    Markup,
    /// Strong content: `*...*`.
    Strong,
    /// Emphasized content: `_..._`.
    Emph,
    /// A formula: `$...$`.
    Math,
    /// A block of code: `{...}`.
    CodeBlock,
    /// A block of content: `[...]`.
    ContentBlock,
    /// A parenthesized group: `(...)`.
    Parenthesized,
    /// An invalid stretch of source, with the place and the message of the
    /// error.
    Error(ErrorPos, String),
}

/// The mathematical value of a [`SyntaxKind`]: the same variants, with an
/// error's message as a sequence of characters.
pub enum KindView {
    LeftBrace,
    RightBrace,
    LeftBracket,
    RightBracket,
    LeftParen,
    RightParen,
    Star,
    Underscore,
    Dollar,
    Semicolon,
    Dot,
    From,
    Else,
    Space { newlines: nat },
    LineComment,
    BlockComment,
    Text,
    Ident,
    Number,
    Markup,
    Strong,
    Emph,
    Math,
    CodeBlock,
    ContentBlock,
    Parenthesized,
    Error(ErrorPos, Seq<char>),
}

impl View for SyntaxKind {
    type V = KindView;

    open spec fn view(&self) -> KindView {
        match self {
            SyntaxKind::LeftBrace => KindView::LeftBrace,
            SyntaxKind::RightBrace => KindView::RightBrace,
            SyntaxKind::LeftBracket => KindView::LeftBracket,
            SyntaxKind::RightBracket => KindView::RightBracket,
            SyntaxKind::LeftParen => KindView::LeftParen,
            SyntaxKind::RightParen => KindView::RightParen,
            SyntaxKind::Star => KindView::Star,
            SyntaxKind::Underscore => KindView::Underscore,
            SyntaxKind::Dollar => KindView::Dollar,
            SyntaxKind::Semicolon => KindView::Semicolon,
            SyntaxKind::Dot => KindView::Dot,
            SyntaxKind::From => KindView::From,
            SyntaxKind::Else => KindView::Else,
            SyntaxKind::Space { newlines } => KindView::Space { newlines: *newlines as nat },
            SyntaxKind::LineComment => KindView::LineComment,
            SyntaxKind::BlockComment => KindView::BlockComment,
            SyntaxKind::Text => KindView::Text,
            SyntaxKind::Ident => KindView::Ident,
            SyntaxKind::Number => KindView::Number,
            SyntaxKind::Markup => KindView::Markup,
            SyntaxKind::Strong => KindView::Strong,
            SyntaxKind::Emph => KindView::Emph,
            SyntaxKind::Math => KindView::Math,
            SyntaxKind::CodeBlock => KindView::CodeBlock,
            SyntaxKind::ContentBlock => KindView::ContentBlock,
            SyntaxKind::Parenthesized => KindView::Parenthesized,
            SyntaxKind::Error(pos, message) => KindView::Error(*pos, message@),
        }
    }
}

/// The value of a kind that may be absent.
pub open spec fn kind_view(kind: Option<SyntaxKind>) -> Option<KindView> {
    match kind {
        Some(kind) => Some(kind@),
        None => None,
    }
}

impl KindView {
    /// The human-readable name of the kind.
    pub open spec fn name(self) -> Seq<char> {
        match self {
            KindView::LeftBrace => "opening brace"@,
            KindView::RightBrace => "closing brace"@,
            KindView::LeftBracket => "opening bracket"@,
            KindView::RightBracket => "closing bracket"@,
            KindView::LeftParen => "opening paren"@,
            KindView::RightParen => "closing paren"@,
            KindView::Star => "star"@,
            KindView::Underscore => "underscore"@,
            KindView::Dollar => "dollar sign"@,
            KindView::Semicolon => "semicolon"@,
            KindView::Dot => "dot"@,
            KindView::From => "keyword `from`"@,
            KindView::Else => "keyword `else`"@,
            KindView::Space { .. } => "space"@,
            KindView::LineComment => "line comment"@,
            KindView::BlockComment => "block comment"@,
            KindView::Text => "text"@,
            KindView::Ident => "identifier"@,
            KindView::Number => "number"@,
            KindView::Markup => "markup"@,
            KindView::Strong => "strong content"@,
            KindView::Emph => "emphasized content"@,
            KindView::Math => "math formula"@,
            KindView::CodeBlock => "code block"@,
            KindView::ContentBlock => "content block"@,
            KindView::Parenthesized => "group"@,
            KindView::Error(..) => "syntax error"@,
        }
    }

    /// Whether this is an error.
    pub open spec fn is_error(self) -> bool {
        self is Error
    }

    /// Whether this is whitespace or a comment.
    pub open spec fn is_trivia(self) -> bool {
        self is Space || self is LineComment || self is BlockComment
    }

    /// The error kind that covers its whole node and carries `message`.
    pub open spec fn error(message: Seq<char>) -> KindView {
        KindView::Error(ErrorPos::Full, message)
    }
}

impl SyntaxKind {
    /// A human-readable name for the kind.
    pub fn name(&self) -> (name: &'static str)
        ensures
            name@ == self@.name(),
    {
        match self {
            SyntaxKind::LeftBrace => "opening brace",
            SyntaxKind::RightBrace => "closing brace",
            SyntaxKind::LeftBracket => "opening bracket",
            SyntaxKind::RightBracket => "closing bracket",
            SyntaxKind::LeftParen => "opening paren",
            SyntaxKind::RightParen => "closing paren",
            SyntaxKind::Star => "star",
            SyntaxKind::Underscore => "underscore",
            SyntaxKind::Dollar => "dollar sign",
            SyntaxKind::Semicolon => "semicolon",
            SyntaxKind::Dot => "dot",
            SyntaxKind::From => "keyword `from`",
            SyntaxKind::Else => "keyword `else`",
            SyntaxKind::Space { .. } => "space",
            SyntaxKind::LineComment => "line comment",
            SyntaxKind::BlockComment => "block comment",
            SyntaxKind::Text => "text",
            SyntaxKind::Ident => "identifier",
            SyntaxKind::Number => "number",
            SyntaxKind::Markup => "markup",
            SyntaxKind::Strong => "strong content",
            SyntaxKind::Emph => "emphasized content",
            SyntaxKind::Math => "math formula",
            SyntaxKind::CodeBlock => "code block",
            SyntaxKind::ContentBlock => "content block",
            SyntaxKind::Parenthesized => "group",
            SyntaxKind::Error(..) => "syntax error",
        }
    }

    /// Whether this is an error.
    pub fn is_error(&self) -> (b: bool)
        ensures
            b == self@.is_error(),
    {
        match self {
            SyntaxKind::Error(..) => true,
            _ => false,
        }
    }

    /// Whether this is whitespace or a comment.
    pub fn is_trivia(&self) -> (b: bool)
        ensures
            b == self@.is_trivia(),
    {
        match self {
            SyntaxKind::Space { .. } | SyntaxKind::LineComment | SyntaxKind::BlockComment => true,
            _ => false,
        }
    }

    /// An error kind that covers its whole node and carries the two parts
    /// of a message, one after the other.
    pub fn error(head: &str, tail: &str) -> (kind: SyntaxKind)
        ensures
            kind@ == KindView::error(head@ + tail@),
    {
        let mut message = String::from_str(head);
        message.append(tail);
        SyntaxKind::Error(ErrorPos::Full, message)
    }
}

impl PartialEq for SyntaxKind {
    fn eq(&self, other: &SyntaxKind) -> (equal: bool) {
        match (self, other) {
            (SyntaxKind::LeftBrace, SyntaxKind::LeftBrace) => true,
            (SyntaxKind::RightBrace, SyntaxKind::RightBrace) => true,
            (SyntaxKind::LeftBracket, SyntaxKind::LeftBracket) => true,
            (SyntaxKind::RightBracket, SyntaxKind::RightBracket) => true,
            (SyntaxKind::LeftParen, SyntaxKind::LeftParen) => true,
            (SyntaxKind::RightParen, SyntaxKind::RightParen) => true,
            (SyntaxKind::Star, SyntaxKind::Star) => true,
            (SyntaxKind::Underscore, SyntaxKind::Underscore) => true,
            (SyntaxKind::Dollar, SyntaxKind::Dollar) => true,
            (SyntaxKind::Semicolon, SyntaxKind::Semicolon) => true,
            (SyntaxKind::Dot, SyntaxKind::Dot) => true,
            (SyntaxKind::From, SyntaxKind::From) => true,
            (SyntaxKind::Else, SyntaxKind::Else) => true,
            (SyntaxKind::Space { newlines: a }, SyntaxKind::Space { newlines: b }) => *a == *b,
            (SyntaxKind::LineComment, SyntaxKind::LineComment) => true,
            (SyntaxKind::BlockComment, SyntaxKind::BlockComment) => true,
            (SyntaxKind::Text, SyntaxKind::Text) => true,
            (SyntaxKind::Ident, SyntaxKind::Ident) => true,
            (SyntaxKind::Number, SyntaxKind::Number) => true,
            (SyntaxKind::Markup, SyntaxKind::Markup) => true,
            (SyntaxKind::Strong, SyntaxKind::Strong) => true,
            (SyntaxKind::Emph, SyntaxKind::Emph) => true,
            (SyntaxKind::Math, SyntaxKind::Math) => true,
            (SyntaxKind::CodeBlock, SyntaxKind::CodeBlock) => true,
            (SyntaxKind::ContentBlock, SyntaxKind::ContentBlock) => true,
            (SyntaxKind::Parenthesized, SyntaxKind::Parenthesized) => true,
            (SyntaxKind::Error(p, m), SyntaxKind::Error(q, n)) => *p == *q && *m == *n,
            _ => false,
        }
    }
}

impl PartialEqSpecImpl for SyntaxKind {
    open spec fn obeys_eq_spec() -> bool {
        true
    }

    open spec fn eq_spec(&self, other: &SyntaxKind) -> bool {
        self@ == other@
    }
}

impl Eq for SyntaxKind {

}

} // verus!
