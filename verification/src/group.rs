//! Groups: delimited spans that decide how the text in them is split into
//! tokens and where parsing inside them stops.

use vstd::prelude::*;
use crate::kind::{KindView, SyntaxKind, TokenMode};

verus! {

/// A group, confined by optional start and end delimiters.
#[derive(Debug, Clone, Copy, PartialEq, Eq, Structural)]
pub enum Group {
    /// A curly-braced group: `{...}`.
    Brace,
    /// A bracketed group: `[...]`.
    Bracket,
    /// A parenthesized group: `(...)`.
    Paren,
    /// A group surrounded with stars: `*...*`.
    Strong,
    /// A group surrounded with underscore: `_..._`.
    Emph,
    /// A group surrounded by dollar signs: `$...$`.
    Math,
    /// A group ended by a semicolon or a line break: `;`, `\n`.
    Expr,
    /// A group for import items, ended by a semicolon, line break or `from`.
    Imports,
}

/// An open group on the parser's stack.
#[derive(Debug, Clone, Copy, PartialEq, Eq, Structural)]
pub struct GroupEntry {
    /// The kind of group this is. This decides which token(s) will end the
    /// group.
    pub kind: Group,
    /// The mode the parser was in before the group started, to which it goes
    /// back once the group ends.
    pub prev_mode: TokenMode,
}

impl Group {
    /// Whether the group can only force other weak groups to end.
    #[verifier::when_used_as_spec(spec_is_weak)]
    pub fn is_weak(self) -> (weak: bool)
        ensures
            weak == self.spec_is_weak(),
    {
        match self {
            Group::Strong | Group::Emph => true,
            _ => false,
        }
    }

    /// Whether the group can only force other weak groups to end.
    pub open spec fn spec_is_weak(self) -> bool {
        self == Group::Strong || self == Group::Emph
    }

    /// The mode inside a group of this kind that starts in `mode`.
    pub open spec fn mode_in(self, mode: TokenMode) -> TokenMode {
        match self {
            Group::Strong | Group::Emph => TokenMode::Markup,
            Group::Bracket => if mode == TokenMode::Math {
                TokenMode::Math
            } else {
                TokenMode::Markup
            },
            Group::Brace | Group::Paren => if mode == TokenMode::Math {
                TokenMode::Math
            } else {
                TokenMode::Code
            },
            Group::Math => TokenMode::Math,
            Group::Expr | Group::Imports => TokenMode::Code,
        }
    }

    /// The token that opens a group of this kind, if one does.
    pub open spec fn opener(self) -> Option<KindView> {
        match self {
            Group::Brace => Some(KindView::LeftBrace),
            Group::Bracket => Some(KindView::LeftBracket),
            Group::Paren => Some(KindView::LeftParen),
            Group::Strong => Some(KindView::Star),
            Group::Emph => Some(KindView::Underscore),
            Group::Math => Some(KindView::Dollar),
            Group::Expr | Group::Imports => None,
        }
    }

    /// The token that closes a group of this kind, if one does.
    pub open spec fn closer(self) -> Option<KindView> {
        match self {
            Group::Brace => Some(KindView::RightBrace),
            Group::Bracket => Some(KindView::RightBracket),
            Group::Paren => Some(KindView::RightParen),
            Group::Strong => Some(KindView::Star),
            Group::Emph => Some(KindView::Underscore),
            Group::Math => Some(KindView::Dollar),
            Group::Expr => Some(KindView::Semicolon),
            Group::Imports => None,
        }
    }

    /// Whether a group of this kind is in error without its closing token.
    pub open spec fn closer_required(self) -> bool {
        self != Group::Expr && self != Group::Imports
    }

    /// The mode inside a group of this kind that starts in `mode`.
    pub fn inner_mode(self, mode: TokenMode) -> (inner: TokenMode)
        ensures
            inner == self.mode_in(mode),
    {
        match self {
            Group::Strong | Group::Emph => TokenMode::Markup,
            Group::Bracket => match mode {
                TokenMode::Math => TokenMode::Math,
                _ => TokenMode::Markup,
            },
            Group::Brace | Group::Paren => match mode {
                TokenMode::Math => TokenMode::Math,
                _ => TokenMode::Code,
            },
            Group::Math => TokenMode::Math,
            Group::Expr | Group::Imports => TokenMode::Code,
        }
    }

    /// The token that closes a group of this kind, if one does, and whether
    /// the group is in error without it.
    pub fn end_delimiter(self) -> (end: Option<(SyntaxKind, bool)>)
        ensures
            end matches Some((kind, required)) ==> self.closer() == Some(kind@) && required
                == self.closer_required(),
            end is None ==> self.closer() is None,
    {
        match self {
            Group::Brace => Some((SyntaxKind::RightBrace, true)),
            Group::Bracket => Some((SyntaxKind::RightBracket, true)),
            Group::Paren => Some((SyntaxKind::RightParen, true)),
            Group::Strong => Some((SyntaxKind::Star, true)),
            Group::Emph => Some((SyntaxKind::Underscore, true)),
            Group::Math => Some((SyntaxKind::Dollar, true)),
            Group::Expr => Some((SyntaxKind::Semicolon, false)),
            Group::Imports => None,
        }
    }
}

/// Whether all the groups from `from` up to the top of the stack are weak.
pub open spec fn weak_above(groups: Seq<GroupEntry>, from: int) -> bool {
    forall|j: int| from < j < groups.len() ==> (#[trigger] groups[j]).kind.is_weak()
}

/// Whether the stack holds an open group of the given kind that the parser
/// is inside of. Any open group of a kind that is not weak counts. One of a
/// weak kind counts as long as only weak groups were opened after it.
pub open spec fn inside(groups: Seq<GroupEntry>, kind: Group) -> bool {
    exists|i: int|
        0 <= i < groups.len() && (#[trigger] groups[i]).kind == kind && (kind.is_weak()
            ==> weak_above(groups, i))
}

/// What the group on top of the stack decides: a search for a weak kind
/// stops at a top that is not weak, a top of the kind is found, and any other
/// top leaves the answer to the groups below it.
pub proof fn lemma_inside_top(groups: Seq<GroupEntry>, kind: Group)
    requires
        groups.len() > 0,
    ensures
        inside(groups, kind) == if kind.is_weak() && !groups.last().kind.is_weak() {
            false
        } else if groups.last().kind == kind {
            true
        } else {
            inside(groups.drop_last(), kind)
        },
{
    let top = groups.len() - 1;
    let below = groups.drop_last();
    if kind.is_weak() && !groups.last().kind.is_weak() {
        if inside(groups, kind) {
            let i = choose|i: int|
                0 <= i < groups.len() && (#[trigger] groups[i]).kind == kind && (kind.is_weak()
                    ==> weak_above(groups, i));
            assert(i < top);
            assert(groups[top].kind.is_weak());
        }
    } else if groups.last().kind == kind {
        assert(groups[top].kind == kind && weak_above(groups, top));
    } else {
        if inside(groups, kind) {
            let i = choose|i: int|
                0 <= i < groups.len() && (#[trigger] groups[i]).kind == kind && (kind.is_weak()
                    ==> weak_above(groups, i));
            assert(below[i].kind == kind);
            if kind.is_weak() {
                assert forall|j: int| i < j < below.len() implies (#[trigger] below[j]).kind.is_weak(
                ) by {
                    assert(groups[j].kind.is_weak());
                }
            }
            assert(inside(below, kind));
        }
        if inside(below, kind) {
            let i = choose|i: int|
                0 <= i < below.len() && (#[trigger] below[i]).kind == kind && (kind.is_weak()
                    ==> weak_above(below, i));
            assert(groups[i].kind == kind);
            if kind.is_weak() {
                assert forall|j: int| i < j < groups.len() implies (
                #[trigger] groups[j]).kind.is_weak() by {
                    if j < top {
                        assert(below[j].kind.is_weak());
                    }
                }
            }
            assert(inside(groups, kind));
        }
    }
}

/// The parser is inside no group while none is open.
pub proof fn lemma_inside_empty(kind: Group)
    ensures
        !inside(Seq::<GroupEntry>::empty(), kind),
{
}

/// A weak group is seen through weak groups: opening a weak group of another
/// kind changes nothing about being inside a weak kind.
pub proof fn lemma_weak_seen_through_weak(groups: Seq<GroupEntry>, top: GroupEntry, kind: Group)
    requires
        kind.is_weak(),
        top.kind.is_weak(),
    ensures
        inside(groups.push(top), kind) == (top.kind == kind || inside(groups, kind)),
{
    lemma_inside_top(groups.push(top), kind);
    assert(groups.push(top).drop_last() =~= groups);
}

/// A weak group is hidden by a group that is not weak: under such a group
/// the parser is inside no weak kind, whatever lies further out.
pub proof fn lemma_weak_hidden_by_other(groups: Seq<GroupEntry>, at: int, kind: Group)
    requires
        kind.is_weak(),
        0 <= at < groups.len(),
        !groups[at].kind.is_weak(),
        forall|j: int| at < j < groups.len() ==> (#[trigger] groups[j]).kind != kind,
    ensures
        !inside(groups, kind),
{
    if inside(groups, kind) {
        let i = choose|i: int|
            0 <= i < groups.len() && (#[trigger] groups[i]).kind == kind && (kind.is_weak()
                ==> weak_above(groups, i));
        if i < at {
            assert(groups[at].kind.is_weak());
        }
    }
}

/// A kind that is not weak is found wherever it lies on the stack.
pub proof fn lemma_other_found_anywhere(groups: Seq<GroupEntry>, at: int, kind: Group)
    requires
        !kind.is_weak(),
        0 <= at < groups.len(),
        groups[at].kind == kind,
    ensures
        inside(groups, kind),
{
}

} // verus!
