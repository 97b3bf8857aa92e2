use markup_parser::group::{Group, GroupEntry};
use markup_parser::kind::{SyntaxKind, TokenMode};

const KINDS: [Group; 8] = [
    Group::Brace,
    Group::Bracket,
    Group::Paren,
    Group::Strong,
    Group::Emph,
    Group::Math,
    Group::Expr,
    Group::Imports,
];

#[test]
fn only_strong_and_emph_are_weak() {
    for kind in KINDS {
        assert_eq!(kind.is_weak(), matches!(kind, Group::Strong | Group::Emph));
    }
}

#[test]
fn strong_and_emph_force_markup() {
    for mode in [TokenMode::Markup, TokenMode::Math, TokenMode::Code] {
        assert_eq!(Group::Strong.inner_mode(mode), TokenMode::Markup);
        assert_eq!(Group::Emph.inner_mode(mode), TokenMode::Markup);
    }
}

#[test]
fn bracket_forces_markup_unless_in_math() {
    assert_eq!(Group::Bracket.inner_mode(TokenMode::Markup), TokenMode::Markup);
    assert_eq!(Group::Bracket.inner_mode(TokenMode::Code), TokenMode::Markup);
    assert_eq!(Group::Bracket.inner_mode(TokenMode::Math), TokenMode::Math);
}

#[test]
fn brace_and_paren_force_code_unless_in_math() {
    for kind in [Group::Brace, Group::Paren] {
        assert_eq!(kind.inner_mode(TokenMode::Markup), TokenMode::Code);
        assert_eq!(kind.inner_mode(TokenMode::Code), TokenMode::Code);
        assert_eq!(kind.inner_mode(TokenMode::Math), TokenMode::Math);
    }
}

#[test]
fn math_forces_math_and_expr_and_imports_force_code() {
    for mode in [TokenMode::Markup, TokenMode::Math, TokenMode::Code] {
        assert_eq!(Group::Math.inner_mode(mode), TokenMode::Math);
        assert_eq!(Group::Expr.inner_mode(mode), TokenMode::Code);
        assert_eq!(Group::Imports.inner_mode(mode), TokenMode::Code);
    }
}

#[test]
fn end_delimiters_by_kind() {
    assert_eq!(Group::Brace.end_delimiter(), Some((SyntaxKind::RightBrace, true)));
    assert_eq!(Group::Bracket.end_delimiter(), Some((SyntaxKind::RightBracket, true)));
    assert_eq!(Group::Paren.end_delimiter(), Some((SyntaxKind::RightParen, true)));
    assert_eq!(Group::Strong.end_delimiter(), Some((SyntaxKind::Star, true)));
    assert_eq!(Group::Emph.end_delimiter(), Some((SyntaxKind::Underscore, true)));
    assert_eq!(Group::Math.end_delimiter(), Some((SyntaxKind::Dollar, true)));
    assert_eq!(Group::Expr.end_delimiter(), Some((SyntaxKind::Semicolon, false)));
    assert_eq!(Group::Imports.end_delimiter(), None);
}

#[test]
fn entries_hold_kind_and_mode() {
    let entry = GroupEntry { kind: Group::Paren, prev_mode: TokenMode::Math };
    assert_eq!(entry.kind, Group::Paren);
    assert_eq!(entry.prev_mode, TokenMode::Math);
    assert_eq!(entry, entry.clone());
}
