use markup_parser::group::Group;
use markup_parser::kind::{SyntaxKind, TokenMode};
use markup_parser::node::SyntaxNode;
use markup_parser::parser::Parser;

fn shape(nodes: &[SyntaxNode]) -> String {
    let parts: Vec<String> = nodes.iter().map(shape_of).collect();
    parts.join(" ")
}

fn shape_of(node: &SyntaxNode) -> String {
    let name = match node.kind() {
        SyntaxKind::Error(_, message) => format!("Error({})", message),
        SyntaxKind::Space { newlines } => format!("Space{}", newlines),
        kind => format!("{:?}", kind),
    };
    if node.is_leaf() {
        format!("{}:{}", name, node.len())
    } else {
        format!("{}[{}]", name, shape(node.children()))
    }
}

fn space(newlines: usize) -> SyntaxKind {
    SyntaxKind::Space { newlines }
}

#[test]
fn group_ends_at_its_closing_token() {
    let mut p = Parser::new("(a) b", TokenMode::Code);
    p.start_group(Group::Paren);
    assert!(p.inside(Group::Paren));
    assert_eq!(p.peek(), Some(&SyntaxKind::Ident));
    p.eat();
    assert_eq!(p.peek(), None);
    assert!(p.eof());
    assert_eq!(p.peek_src(), ")");
    assert!(!p.terminated());
    p.end_group();
    assert!(!p.inside(Group::Paren));
    assert!(p.terminated());
    assert_eq!(p.peek(), Some(&SyntaxKind::Ident));
    p.eat();
    let (children, terminated) = p.consume().unwrap();
    assert_eq!(shape(&children), "LeftParen:1 Ident:1 RightParen:1 Space0:1 Ident:1");
    assert!(terminated);
}

#[test]
fn every_delimited_group_eats_its_delimiters() {
    let cases = [
        (Group::Brace, "{a}", TokenMode::Code, "LeftBrace:1 Ident:1 RightBrace:1"),
        (Group::Bracket, "[a]", TokenMode::Markup, "LeftBracket:1 Text:1 RightBracket:1"),
        (Group::Paren, "(a)", TokenMode::Code, "LeftParen:1 Ident:1 RightParen:1"),
        (Group::Strong, "*a*", TokenMode::Markup, "Star:1 Text:1 Star:1"),
        (Group::Emph, "_a_", TokenMode::Markup, "Underscore:1 Text:1 Underscore:1"),
        (Group::Math, "$a$", TokenMode::Markup, "Dollar:1 Text:1 Dollar:1"),
    ];
    for (kind, text, mode, expected) in cases {
        let mut p = Parser::new(text, mode);
        p.start_group(kind);
        assert!(p.inside(kind));
        p.eat();
        assert!(p.eof());
        p.end_group();
        assert!(p.eof());
        assert_eq!(shape(&p.consume().unwrap().0), expected);
    }
}

#[test]
fn expr_group_ends_at_a_semicolon() {
    let mut p = Parser::new("a; b", TokenMode::Code);
    p.start_group(Group::Expr);
    assert_eq!(p.peek(), Some(&SyntaxKind::Ident));
    p.eat();
    assert_eq!(p.peek(), None);
    p.end_group();
    assert_eq!(p.peek(), Some(&SyntaxKind::Ident));
    assert_eq!(shape(&p.consume().unwrap().0), "Ident:1 Semicolon:1 Space0:1");
}

#[test]
fn expr_group_needs_no_semicolon() {
    let mut p = Parser::new("a\nb", TokenMode::Code);
    p.start_group(Group::Expr);
    p.eat();
    assert_eq!(p.peek(), None);
    assert!(p.eof());
    p.end_group();
    assert_eq!(p.peek(), Some(&space(1)));
    assert!(p.terminated());
    assert_eq!(shape(&p.consume().unwrap().0), "Ident:1");
}

#[test]
fn imports_group_ends_at_from_or_a_line_break() {
    let mut p = Parser::new("a from b", TokenMode::Code);
    p.start_group(Group::Imports);
    p.eat();
    assert_eq!(p.peek(), None);
    assert_eq!(p.peek_src(), "from");
    p.end_group();
    assert_eq!(p.peek(), Some(&SyntaxKind::From));
    assert!(p.terminated());

    let mut p = Parser::new("a\nb", TokenMode::Code);
    p.start_group(Group::Imports);
    p.eat();
    assert!(p.eof());
    p.end_group();
    assert_eq!(p.peek(), Some(&space(1)));

    let mut p = Parser::new("a b", TokenMode::Code);
    p.start_group(Group::Imports);
    p.eat();
    assert_eq!(p.peek(), Some(&SyntaxKind::Ident));
}

#[test]
fn from_ends_no_other_group() {
    let mut p = Parser::new("(a from b)", TokenMode::Code);
    p.start_group(Group::Paren);
    p.eat();
    assert_eq!(p.peek(), Some(&SyntaxKind::From));
}

#[test]
fn groups_switch_the_mode() {
    // In markup a parenthesis is text; inside braces it is a token.
    let mut p = Parser::new("{(a)} (b)", TokenMode::Markup);
    p.start_group(Group::Brace);
    assert_eq!(p.peek(), Some(&SyntaxKind::LeftParen));
    p.start_group(Group::Paren);
    p.eat();
    p.end_group();
    assert!(p.eof());
    p.end_group();
    assert_eq!(p.peek(), Some(&space(0)));
    p.eat();
    assert_eq!(p.peek(), Some(&SyntaxKind::Text));
    assert_eq!(p.peek_src(), "(b)");
    p.eat();
    assert_eq!(
        shape(&p.consume().unwrap().0),
        "LeftBrace:1 LeftParen:1 Ident:1 RightParen:1 RightBrace:1 Space0:1 Text:3"
    );
}

#[test]
fn bracket_in_code_holds_markup() {
    let mut p = Parser::new("[a.b] c.d", TokenMode::Code);
    p.start_group(Group::Bracket);
    assert_eq!(p.peek(), Some(&SyntaxKind::Text));
    assert_eq!(p.peek_src(), "a.b");
    p.eat();
    p.end_group();
    assert_eq!(p.peek(), Some(&SyntaxKind::Ident));
    assert_eq!(p.peek_src(), "c");
    assert_eq!(
        shape(&p.finish()),
        "LeftBracket:1 Text:3 RightBracket:1 Space0:1"
    );
}

#[test]
fn groups_in_math_stay_in_math() {
    let mut p = Parser::new("$(a_b)[c;]{d.e}$", TokenMode::Markup);
    p.start_group(Group::Math);
    p.start_group(Group::Paren);
    p.eat();
    assert_eq!(p.peek(), Some(&SyntaxKind::Underscore));
    p.eat();
    p.eat();
    p.end_group();
    p.start_group(Group::Bracket);
    assert_eq!(p.peek_src(), "c;");
    p.eat();
    p.end_group();
    p.start_group(Group::Brace);
    assert_eq!(p.peek_src(), "d.e");
    p.eat();
    p.end_group();
    assert!(p.eof());
    p.end_group();
    assert_eq!(
        shape(&p.consume().unwrap().0),
        "Dollar:1 LeftParen:1 Text:1 Underscore:1 Text:1 RightParen:1 LeftBracket:1 Text:2 \
         RightBracket:1 LeftBrace:1 Text:3 RightBrace:1 Dollar:1"
    );
}

#[test]
fn strong_in_code_holds_markup() {
    let mut p = Parser::new("*a.b* c.d", TokenMode::Code);
    p.start_group(Group::Strong);
    assert_eq!(p.peek_src(), "a.b");
    p.eat();
    p.end_group();
    assert_eq!(p.peek_src(), "c");
}

#[test]
fn weak_groups_see_through_weak_groups() {
    let mut p = Parser::new("*_a", TokenMode::Markup);
    assert!(!p.inside(Group::Strong));
    p.start_group(Group::Strong);
    assert!(p.inside(Group::Strong));
    assert!(!p.inside(Group::Emph));
    p.start_group(Group::Emph);
    assert!(p.inside(Group::Strong));
    assert!(p.inside(Group::Emph));
}

#[test]
fn weak_groups_are_hidden_by_other_groups() {
    let mut p = Parser::new("*_{*a", TokenMode::Markup);
    p.start_group(Group::Strong);
    p.start_group(Group::Emph);
    p.start_group(Group::Brace);
    assert!(!p.inside(Group::Strong));
    assert!(!p.inside(Group::Emph));
    assert!(p.inside(Group::Brace));
    // The star inside the braces does not close the strong group outside.
    assert_eq!(p.peek(), Some(&SyntaxKind::Star));
    p.start_group(Group::Strong);
    assert!(p.inside(Group::Strong));
    assert!(!p.inside(Group::Emph));
    assert!(p.inside(Group::Brace));
}

#[test]
fn other_groups_are_seen_through_any_group() {
    let mut p = Parser::new("{[*(_a", TokenMode::Code);
    p.start_group(Group::Brace);
    p.start_group(Group::Bracket);
    p.start_group(Group::Strong);
    assert!(p.inside(Group::Brace));
    assert!(p.inside(Group::Bracket));
    assert!(!p.inside(Group::Paren));
    assert!(!p.inside(Group::Math));
    assert!(!p.inside(Group::Expr));
}

#[test]
fn closing_token_of_an_outer_group_ends_the_inner_group_too() {
    let mut p = Parser::new("[*a]", TokenMode::Markup);
    p.start_group(Group::Bracket);
    p.start_group(Group::Strong);
    p.eat();
    assert!(p.eof());
    assert_eq!(p.peek_src(), "]");
    p.end_group();
    assert!(p.eof());
    p.end_group();
    assert_eq!(
        shape(&p.finish()),
        "LeftBracket:1 Star:1 Text:1 Error(expected star):0 RightBracket:1"
    );
}

#[test]
fn star_ends_a_strong_group_through_an_emph_group() {
    let mut p = Parser::new("*_a*", TokenMode::Markup);
    p.start_group(Group::Strong);
    p.start_group(Group::Emph);
    p.eat();
    assert!(p.eof());
    assert_eq!(p.peek_src(), "*");
}

#[test]
fn one_line_break_does_not_end_strong_or_emph() {
    for (kind, text) in [(Group::Strong, "*a\nb*"), (Group::Emph, "_a\nb_")] {
        let mut p = Parser::new(text, TokenMode::Markup);
        p.start_group(kind);
        p.eat();
        assert_eq!(p.peek(), Some(&space(1)));
        p.eat();
        p.eat();
        assert!(p.eof());
        p.end_group();
        assert!(p.consume().is_some());
    }
}

#[test]
fn two_line_breaks_end_strong_and_emph() {
    for (kind, text, error) in [
        (Group::Strong, "*a\n\nb*", "Star:1 Text:1 Error(expected star):0"),
        (Group::Emph, "_a\n\nb_", "Underscore:1 Text:1 Error(expected underscore):0"),
    ] {
        let mut p = Parser::new(text, TokenMode::Markup);
        p.start_group(kind);
        p.eat();
        assert_eq!(p.peek(), None);
        assert!(p.eof());
        p.end_group();
        assert_eq!(p.peek(), Some(&space(2)));
        assert!(!p.terminated());
        assert_eq!(shape(&p.finish()), error);
    }
}

#[test]
fn line_break_in_front_of_else_carries_the_expression_on() {
    let mut p = Parser::new("{1\nelse}", TokenMode::Code);
    p.start_group(Group::Brace);
    p.start_group(Group::Expr);
    assert_eq!(p.peek(), Some(&SyntaxKind::Number));
    p.eat();
    assert_eq!(p.peek(), Some(&SyntaxKind::Else));
    assert!(!p.eof());
    p.eat();
    assert!(p.eof());
    p.end_group();
    p.end_group();
    assert_eq!(
        shape(&p.consume().unwrap().0),
        "LeftBrace:1 Number:1 Space1:1 Else:4 RightBrace:1"
    );
}

#[test]
fn line_break_in_front_of_a_dot_carries_the_expression_on() {
    let mut p = Parser::new("{a\n  .b}", TokenMode::Code);
    p.start_group(Group::Brace);
    p.start_group(Group::Expr);
    p.eat();
    assert_eq!(p.peek(), Some(&SyntaxKind::Dot));
    assert_eq!(shape(&p.finish()), "LeftBrace:1 Ident:1 Space1:3");
}

#[test]
fn several_line_breaks_in_front_of_else_carry_the_expression_on() {
    let mut p = Parser::new("{1\n\n\nelse}", TokenMode::Code);
    p.start_group(Group::Brace);
    p.start_group(Group::Expr);
    p.eat();
    assert_eq!(p.peek(), Some(&SyntaxKind::Else));
}

#[test]
fn line_break_in_front_of_another_token_ends_the_expression() {
    let mut p = Parser::new("{1\nfoo}", TokenMode::Code);
    p.start_group(Group::Brace);
    p.start_group(Group::Expr);
    p.eat();
    assert_eq!(p.peek(), None);
    assert!(p.eof());
    assert_eq!(p.peek_src(), "\n");
    p.end_group();
    assert_eq!(p.peek(), Some(&space(1)));
    assert_eq!(shape(&p.finish()), "LeftBrace:1 Number:1");
}

#[test]
fn line_break_in_front_of_elsewhere_ends_the_expression() {
    let mut p = Parser::new("{1\nelsewhere}", TokenMode::Code);
    p.start_group(Group::Brace);
    p.start_group(Group::Expr);
    p.eat();
    assert!(p.eof());
}

#[test]
fn line_break_ends_an_expression_outside_braces() {
    let mut p = Parser::new("1\nelse", TokenMode::Code);
    p.start_group(Group::Expr);
    p.eat();
    assert!(p.eof());
    assert_eq!(p.peek_src(), "\n");

    let mut p = Parser::new("{(1\nelse)}", TokenMode::Code);
    p.start_group(Group::Brace);
    p.start_group(Group::Paren);
    p.start_group(Group::Expr);
    p.eat();
    assert!(p.eof());
    assert_eq!(p.peek_src(), "\n");

    let mut p = Parser::new("[1\n.b]", TokenMode::Code);
    p.start_group(Group::Bracket);
    p.start_group(Group::Expr);
    p.eat();
    assert!(p.eof());
}

#[test]
fn space_without_line_break_ends_no_group() {
    for kind in [Group::Expr, Group::Imports] {
        let mut p = Parser::new("a b", TokenMode::Code);
        p.start_group(kind);
        p.eat();
        assert_eq!(p.peek(), Some(&SyntaxKind::Ident));
        assert_eq!(p.current_start(), 2);
    }
    let mut p = Parser::new("*a b", TokenMode::Markup);
    p.start_group(Group::Strong);
    p.eat();
    assert_eq!(p.peek(), Some(&space(0)));
}

#[test]
fn line_breaks_end_no_delimited_group() {
    let mut p = Parser::new("(a\n\nb)", TokenMode::Code);
    p.start_group(Group::Paren);
    p.eat();
    assert_eq!(p.peek(), Some(&SyntaxKind::Ident));
    assert_eq!(p.current_start(), 4);
}

#[test]
fn expr_group_starts_without_eating() {
    let mut p = Parser::new("a", TokenMode::Markup);
    p.start_group(Group::Expr);
    assert_eq!(p.current_start(), 0);
    assert_eq!(p.peek(), Some(&SyntaxKind::Text));
    assert!(p.inside(Group::Expr));
    assert!(p.finish().is_empty());
}
