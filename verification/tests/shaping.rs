use markup_parser::group::Group;
use markup_parser::kind::{ErrorPos, SyntaxKind, TokenMode};
use markup_parser::node::SyntaxNode;
use markup_parser::parser::Parser;

fn shape(nodes: &[SyntaxNode]) -> String {
    let parts: Vec<String> = nodes.iter().map(shape_of).collect();
    parts.join(" ")
}

fn shape_of(node: &SyntaxNode) -> String {
    let name = match node.kind() {
        SyntaxKind::Error(_, message) => format!("Error({})", message),
        SyntaxKind::Space { newlines } => format!("Space{}", newlines),
        kind => format!("{:?}", kind),
    };
    if node.is_leaf() {
        format!("{}:{}", name, node.len())
    } else {
        format!("{}[{}]", name, shape(node.children()))
    }
}

fn total(nodes: &[SyntaxNode]) -> usize {
    nodes.iter().map(SyntaxNode::len).sum()
}

#[test]
fn perform_wraps_what_the_subparse_made() {
    let mut p = Parser::new("a b c", TokenMode::Code);
    p.eat();
    let output = p.perform(SyntaxKind::Parenthesized, |p| {
        p.eat();
        42
    });
    assert_eq!(output, 42);
    assert_eq!(p.peek(), Some(&SyntaxKind::Ident));
    assert_eq!(shape(&p.finish()), "Ident:1 Space0:1 Parenthesized[Ident:1] Space0:1");
}

#[test]
fn perform_keeps_trailing_trivia_inside_in_markup() {
    let mut p = Parser::new("a b", TokenMode::Markup);
    p.perform(SyntaxKind::Markup, |p| {
        p.eat();
        p.eat();
    });
    assert_eq!(shape(&p.finish()), "Markup[Text:1 Space0:1]");
}

#[test]
fn perform_keeps_inner_trivia_inside_in_code() {
    let mut p = Parser::new("a /* x */ b // y\n c", TokenMode::Code);
    p.perform(SyntaxKind::CodeBlock, |p| {
        p.eat();
        p.eat();
    });
    assert_eq!(
        shape(&p.finish()),
        "CodeBlock[Ident:1 Space0:1 BlockComment:7 Space0:1 Ident:1] Space0:1 LineComment:4 \
         Space1:2"
    );
}

#[test]
fn perform_without_children_makes_an_empty_node() {
    let mut p = Parser::new("a", TokenMode::Code);
    p.perform(SyntaxKind::Markup, |_| ());
    assert_eq!(p.peek(), Some(&SyntaxKind::Ident));
    assert_eq!(shape(&p.finish()), "Markup[]");
}

#[test]
fn perform_nests() {
    let mut p = Parser::new("*_a_*", TokenMode::Markup);
    p.perform(SyntaxKind::Strong, |p| {
        p.start_group(Group::Strong);
        p.perform(SyntaxKind::Emph, |p| {
            p.start_group(Group::Emph);
            p.eat();
            p.end_group();
        });
        p.end_group();
    });
    let (children, _) = p.consume().unwrap();
    assert_eq!(
        shape(&children),
        "Strong[Star:1 Emph[Underscore:1 Text:1 Underscore:1] Star:1]"
    );
}

#[test]
fn line_break_that_ends_the_group_stays_outside_the_node() {
    let mut p = Parser::new("{1\nfoo}", TokenMode::Code);
    p.start_group(Group::Brace);
    p.perform(SyntaxKind::Parenthesized, |p| {
        p.start_group(Group::Expr);
        p.eat();
        p.end_group();
    });
    assert_eq!(p.peek(), Some(&SyntaxKind::Space { newlines: 1 }));
    assert_eq!(shape(&p.finish()), "LeftBrace:1 Parenthesized[Number:1]");
}

#[test]
fn unexpected_wraps_the_token_in_an_error() {
    let mut p = Parser::new("a  b", TokenMode::Code);
    p.unexpected();
    assert_eq!(p.peek(), Some(&SyntaxKind::Ident));
    assert_eq!(p.current_start(), 3);
    assert_eq!(shape(&p.finish()), "Error(unexpected identifier)[Ident:1] Space0:2");
}

#[test]
fn unexpected_in_markup() {
    let mut p = Parser::new("] b", TokenMode::Markup);
    p.unexpected();
    assert_eq!(shape(&p.finish()), "Error(unexpected closing bracket)[RightBracket:1]");
}

#[test]
fn unexpected_does_nothing_at_the_end() {
    let mut p = Parser::new("", TokenMode::Code);
    p.unexpected();
    assert!(p.finish().is_empty());

    let mut p = Parser::new("(a)", TokenMode::Code);
    p.start_group(Group::Paren);
    p.eat();
    p.unexpected();
    assert_eq!(p.peek_src(), ")");
    assert_eq!(shape(&p.finish()), "LeftParen:1 Ident:1");
}

#[test]
fn unexpected_error_covers_the_whole_node() {
    let mut p = Parser::new("a", TokenMode::Code);
    p.unexpected();
    let children = p.finish();
    assert_eq!(
        children[0].kind(),
        &SyntaxKind::Error(ErrorPos::Full, "unexpected identifier".to_string())
    );
}

#[test]
fn expected_puts_an_error_in_front_of_the_trivia() {
    let mut p = Parser::new("a  /* c */ b", TokenMode::Code);
    p.eat();
    p.expected("comma");
    assert_eq!(p.peek(), Some(&SyntaxKind::Ident));
    assert_eq!(
        shape(&p.finish()),
        "Ident:1 Error(expected comma):0 Space0:2 BlockComment:7 Space0:1"
    );
}

#[test]
fn expected_in_markup_goes_in_front_of_trailing_space() {
    let mut p = Parser::new("a b", TokenMode::Markup);
    p.eat();
    p.eat();
    p.expected("star");
    assert_eq!(shape(&p.finish()), "Text:1 Error(expected star):0 Space0:1");
}

#[test]
fn expected_without_children_stands_alone() {
    let mut p = Parser::new("a", TokenMode::Code);
    p.expected("expression");
    assert_eq!(p.peek(), Some(&SyntaxKind::Ident));
    let children = p.finish();
    assert_eq!(shape(&children), "Error(expected expression):0");
    assert!(children[0].is_leaf());
    assert_eq!(
        children[0].kind(),
        &SyntaxKind::Error(ErrorPos::Full, "expected expression".to_string())
    );
}

#[test]
fn expected_found_wraps_the_token() {
    let mut p = Parser::new("1 b", TokenMode::Code);
    p.expected_found("identifier");
    assert_eq!(p.peek(), Some(&SyntaxKind::Ident));
    assert_eq!(
        shape(&p.finish()),
        "Error(expected identifier, found number)[Number:1] Space0:1"
    );
}

#[test]
fn expected_found_at_the_end_says_what_was_expected() {
    let mut p = Parser::new("a ", TokenMode::Code);
    p.eat();
    p.expected_found("identifier");
    assert_eq!(shape(&p.finish()), "Ident:1 Error(expected identifier):0 Space0:1");
}

#[test]
fn expected_at_inserts_at_the_marker() {
    let mut p = Parser::new("a b c", TokenMode::Code);
    let start = p.marker();
    p.eat();
    let middle = p.marker();
    p.eat();
    let end = p.marker();
    let before = total(&[]);
    assert_eq!(before, 0);

    p.expected_at(middle, "comma");
    p.expected_at(start, "opening paren");
    p.expected_at(end, "closing paren");
    assert_eq!(p.current_start(), 4);
    let children = p.finish();
    assert_eq!(
        shape(&children),
        "Error(expected opening paren):0 Ident:1 Space0:1 Error(expected comma):0 \
         Error(expected closing paren):0 Ident:1 Space0:1"
    );
    assert_eq!(total(&children), 4);
}

#[test]
fn expected_at_keeps_the_length_of_the_children() {
    let mut p = Parser::new("a (b) c", TokenMode::Code);
    p.eat();
    p.perform(SyntaxKind::Parenthesized, |p| {
        p.start_group(Group::Paren);
        p.eat();
        p.end_group();
    });
    let end = p.trivia_start();
    p.expected_at(end, "semicolon");
    let end = p.marker();
    p.expected_at(end, "identifier");
    assert_eq!(p.current_start(), 6);
    let children = p.finish();
    assert_eq!(total(&children), 6);
    assert_eq!(
        shape(&children),
        "Ident:1 Space0:1 Parenthesized[LeftParen:1 Ident:1 RightParen:1] \
         Error(expected semicolon):0 Space0:1 Error(expected identifier):0"
    );
}

#[test]
fn marker_stands_at_the_end_of_the_children() {
    let mut p = Parser::new("a b", TokenMode::Code);
    let first = p.marker();
    p.eat();
    let second = p.marker();
    assert_eq!(second, p.marker());
    assert_ne!(first, second);
    assert_eq!(first.before(&p), None);
    assert_eq!(first.after(&p), Some(&SyntaxNode::leaf(SyntaxKind::Ident, 1)));
    assert_eq!(
        second.before(&p),
        Some(&SyntaxNode::leaf(SyntaxKind::Space { newlines: 0 }, 1))
    );
    assert_eq!(second.after(&p), None);
}

#[test]
fn trivia_start_stands_in_front_of_the_trailing_trivia() {
    let mut p = Parser::new("a /* c */ b", TokenMode::Code);
    assert_eq!(p.trivia_start(), p.marker());
    p.eat();
    let start = p.trivia_start();
    assert_eq!(start.before(&p), Some(&SyntaxNode::leaf(SyntaxKind::Ident, 1)));
    assert_eq!(
        start.after(&p),
        Some(&SyntaxNode::leaf(SyntaxKind::Space { newlines: 0 }, 1))
    );
    p.eat();
    assert_eq!(p.trivia_start(), p.marker());
}

#[test]
fn trivia_start_counts_a_line_break_that_ends_the_group_as_no_trivia() {
    // Inside the strong group two line breaks end the group, so the space
    // that holds them is no trivia there.
    let mut p = Parser::new("*a\n\n", TokenMode::Markup);
    p.eat();
    p.eat();
    p.eat();
    assert_eq!(p.trivia_start().after(&p).map(SyntaxNode::len), Some(2));

    let mut p = Parser::new("*a\n\n", TokenMode::Markup);
    p.start_group(Group::Strong);
    p.eat();
    p.eat();
    assert_eq!(p.trivia_start(), p.marker());
}

#[test]
fn marker_end_wraps_the_children_behind_it() {
    let mut p = Parser::new("a b c d", TokenMode::Code);
    p.eat();
    let marker = p.marker();
    p.eat();
    p.eat();
    marker.end(&mut p, SyntaxKind::Parenthesized);
    assert_eq!(p.peek(), Some(&SyntaxKind::Ident));
    assert_eq!(
        shape(&p.finish()),
        "Ident:1 Space0:1 Parenthesized[Ident:1 Space0:1 Ident:1] Space0:1"
    );
}

#[test]
fn marker_end_behind_the_trivia_wraps_nothing() {
    let mut p = Parser::new("a b", TokenMode::Code);
    p.eat();
    let marker = p.marker();
    marker.end(&mut p, SyntaxKind::Markup);
    assert_eq!(shape(&p.finish()), "Ident:1 Space0:1 Markup[]");
}

#[test]
fn marker_end_in_markup_leaves_trailing_space_outside() {
    let mut p = Parser::new("a b ", TokenMode::Markup);
    let marker = p.marker();
    p.eat();
    p.eat();
    p.eat();
    p.eat();
    marker.end(&mut p, SyntaxKind::Markup);
    assert_eq!(shape(&p.finish()), "Markup[Text:1 Space0:1 Text:1] Space0:1");
}

#[test]
fn marker_perform_wraps_after_the_subparse() {
    let mut p = Parser::new("a b c", TokenMode::Code);
    let marker = p.marker();
    p.eat();
    let output = marker.perform(&mut p, SyntaxKind::CodeBlock, |p| {
        p.eat();
        "done"
    });
    assert_eq!(output, "done");
    assert_eq!(shape(&p.finish()), "CodeBlock[Ident:1 Space0:1 Ident:1] Space0:1");
}

#[test]
fn marker_convert_changes_the_child_behind_it() {
    let mut p = Parser::new("a b", TokenMode::Code);
    let marker = p.marker();
    marker.convert(&mut p, SyntaxKind::Text);
    assert!(p.trivia_start().after(&p).is_none());
    p.eat();
    marker.convert(&mut p, SyntaxKind::Text);
    let end = p.marker();
    end.convert(&mut p, SyntaxKind::Text);
    assert_eq!(shape(&p.finish()), "Text:1 Space0:1");
}

#[test]
fn filter_children_flags_what_the_check_turns_down() {
    let mut p = Parser::new("a 1 b", TokenMode::Code);
    let marker = p.marker();
    p.eat();
    p.eat();
    p.eat();
    marker.filter_children(&mut p, |node| match node.kind() {
        SyntaxKind::Ident => Ok(()),
        _ => Err("expected identifier"),
    });
    assert_eq!(
        shape(&p.finish()),
        "Ident:1 Space0:1 Error(expected identifier, found number)[Number:1] Space0:1 Ident:1"
    );
}

#[test]
fn filter_children_passes_over_errors_and_trivia() {
    let mut p = Parser::new("a /* c */ 1", TokenMode::Code);
    let marker = p.marker();
    p.unexpected();
    p.eat();
    let mut seen = Vec::new();
    marker.filter_children(&mut p, |node| {
        seen.push(node.kind().clone());
        Err("not allowed here")
    });
    assert_eq!(seen, vec![SyntaxKind::Number]);
    assert_eq!(
        shape(&p.finish()),
        "Error(unexpected identifier)[Ident:1] Space0:1 BlockComment:7 Space0:1 \
         Error(not allowed here)[Number:1]"
    );
}

#[test]
fn filter_children_looks_at_trivia_in_markup() {
    let mut p = Parser::new("a b", TokenMode::Markup);
    let marker = p.marker();
    p.eat();
    p.eat();
    p.eat();
    marker.filter_children(&mut p, |node| match node.kind() {
        SyntaxKind::Space { .. } => Err("expected text"),
        _ => Ok(()),
    });
    assert_eq!(
        shape(&p.finish()),
        "Text:1 Error(expected text, found space)[Space0:1] Text:1"
    );
}

#[test]
fn filter_children_starts_at_the_marker() {
    let mut p = Parser::new("1 2 3", TokenMode::Code);
    p.eat();
    let marker = p.marker();
    p.eat();
    p.eat();
    marker.filter_children(&mut p, |_| Err("unexpected number"));
    let end = p.marker();
    end.filter_children(&mut p, |_| Err("never asked"));
    assert_eq!(
        shape(&p.finish()),
        "Number:1 Space0:1 Error(unexpected number)[Number:1] Space0:1 \
         Error(unexpected number)[Number:1]"
    );
}
