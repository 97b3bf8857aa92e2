use markup_parser::kind::{SyntaxKind, TokenMode};
use markup_parser::tokens::Tokens;

fn all(text: &str, mode: TokenMode) -> Vec<(SyntaxKind, usize)> {
    let mut tokens = Tokens::new(text, mode);
    let mut out = Vec::new();
    while let Some(kind) = tokens.next() {
        out.push((kind, tokens.cursor()));
    }
    out
}

fn kinds(text: &str, mode: TokenMode) -> Vec<SyntaxKind> {
    all(text, mode).into_iter().map(|(kind, _)| kind).collect()
}

fn space(newlines: usize) -> SyntaxKind {
    SyntaxKind::Space { newlines }
}

#[test]
fn markup_splits_text_and_delimiters() {
    assert_eq!(
        all("a *b* _c_", TokenMode::Markup),
        vec![
            (SyntaxKind::Text, 1),
            (space(0), 2),
            (SyntaxKind::Star, 3),
            (SyntaxKind::Text, 4),
            (SyntaxKind::Star, 5),
            (space(0), 6),
            (SyntaxKind::Underscore, 7),
            (SyntaxKind::Text, 8),
            (SyntaxKind::Underscore, 9),
        ]
    );
}

#[test]
fn markup_brackets_braces_and_dollar() {
    assert_eq!(
        kinds("[a]{b}$c$", TokenMode::Markup),
        vec![
            SyntaxKind::LeftBracket,
            SyntaxKind::Text,
            SyntaxKind::RightBracket,
            SyntaxKind::LeftBrace,
            SyntaxKind::Text,
            SyntaxKind::RightBrace,
            SyntaxKind::Dollar,
            SyntaxKind::Text,
            SyntaxKind::Dollar,
        ]
    );
}

#[test]
fn markup_takes_parens_dots_and_semicolons_as_text() {
    assert_eq!(all("(a.b);", TokenMode::Markup), vec![(SyntaxKind::Text, 6)]);
}

#[test]
fn code_knows_keywords_and_punctuation() {
    assert_eq!(
        kinds("if x else y from z; a.b", TokenMode::Code),
        vec![
            SyntaxKind::Ident,
            space(0),
            SyntaxKind::Ident,
            space(0),
            SyntaxKind::Else,
            space(0),
            SyntaxKind::Ident,
            space(0),
            SyntaxKind::From,
            space(0),
            SyntaxKind::Ident,
            SyntaxKind::Semicolon,
            space(0),
            SyntaxKind::Ident,
            SyntaxKind::Dot,
            SyntaxKind::Ident,
        ]
    );
}

#[test]
fn code_words_numbers_and_underscores() {
    assert_eq!(
        all("12 _ a_b elsewhere fro", TokenMode::Code),
        vec![
            (SyntaxKind::Number, 2),
            (space(0), 3),
            (SyntaxKind::Underscore, 4),
            (space(0), 5),
            (SyntaxKind::Ident, 8),
            (space(0), 9),
            (SyntaxKind::Ident, 18),
            (space(0), 19),
            (SyntaxKind::Ident, 22),
        ]
    );
}

#[test]
fn code_parens_and_stars() {
    assert_eq!(
        kinds("(a*b)", TokenMode::Code),
        vec![
            SyntaxKind::LeftParen,
            SyntaxKind::Ident,
            SyntaxKind::Star,
            SyntaxKind::Ident,
            SyntaxKind::RightParen,
        ]
    );
}

#[test]
fn math_splits_at_underscores_and_parens() {
    assert_eq!(
        all("x_1 (y.z);", TokenMode::Math),
        vec![
            (SyntaxKind::Text, 1),
            (SyntaxKind::Underscore, 2),
            (SyntaxKind::Text, 3),
            (space(0), 4),
            (SyntaxKind::LeftParen, 5),
            (SyntaxKind::Text, 8),
            (SyntaxKind::RightParen, 9),
            (SyntaxKind::Text, 10),
        ]
    );
}

#[test]
fn whitespace_counts_line_feeds() {
    assert_eq!(all(" \n\t\n ", TokenMode::Markup), vec![(space(2), 5)]);
    assert_eq!(all("\r\n", TokenMode::Code), vec![(space(1), 2)]);
    assert_eq!(all("\t ", TokenMode::Math), vec![(space(0), 2)]);
}

#[test]
fn line_comment_runs_to_the_line_feed() {
    let mut tokens = Tokens::new("// hi\nx", TokenMode::Code);
    assert_eq!(tokens.next(), Some(SyntaxKind::LineComment));
    assert_eq!(tokens.cursor(), 5);
    assert!(tokens.terminated());
    assert_eq!(tokens.next(), Some(space(1)));
    assert_eq!(tokens.next(), Some(SyntaxKind::Ident));
    assert_eq!(tokens.next(), None);
}

#[test]
fn line_comment_at_the_end_is_not_terminated() {
    let mut tokens = Tokens::new("a // hi", TokenMode::Markup);
    assert!(tokens.terminated());
    assert_eq!(tokens.next(), Some(SyntaxKind::Text));
    assert_eq!(tokens.next(), Some(space(0)));
    assert_eq!(tokens.next(), Some(SyntaxKind::LineComment));
    assert_eq!(tokens.cursor(), 7);
    assert!(!tokens.terminated());
    assert_eq!(tokens.next(), None);
    assert!(!tokens.terminated());
}

#[test]
fn block_comment_ends_behind_the_first_closer() {
    let mut tokens = Tokens::new("/* a */b*/", TokenMode::Markup);
    assert_eq!(tokens.next(), Some(SyntaxKind::BlockComment));
    assert_eq!(tokens.cursor(), 7);
    assert!(tokens.terminated());
    assert_eq!(tokens.next(), Some(SyntaxKind::Text));
    assert_eq!(tokens.next(), Some(SyntaxKind::Star));
    assert_eq!(tokens.next(), Some(SyntaxKind::Text));
    assert_eq!(tokens.cursor(), 10);
}

#[test]
fn block_comment_without_closer_runs_to_the_end() {
    let mut tokens = Tokens::new("/* a\nb", TokenMode::Code);
    assert_eq!(tokens.next(), Some(SyntaxKind::BlockComment));
    assert_eq!(tokens.cursor(), 6);
    assert!(!tokens.terminated());

    let mut tokens = Tokens::new("/*/", TokenMode::Code);
    assert_eq!(tokens.next(), Some(SyntaxKind::BlockComment));
    assert_eq!(tokens.cursor(), 3);
    assert!(!tokens.terminated());
}

#[test]
fn a_later_token_is_terminated_again() {
    let mut tokens = Tokens::new("// a\nb", TokenMode::Code);
    tokens.next();
    tokens.jump(5);
    assert_eq!(tokens.next(), Some(SyntaxKind::Ident));
    assert!(tokens.terminated());
}

#[test]
fn lone_slash_is_text() {
    assert_eq!(
        all("a/b", TokenMode::Markup),
        vec![(SyntaxKind::Text, 1), (SyntaxKind::Text, 2), (SyntaxKind::Text, 3)]
    );
    assert_eq!(all("/", TokenMode::Code), vec![(SyntaxKind::Text, 1)]);
}

#[test]
fn words_hold_characters_of_several_bytes() {
    assert_eq!(all("héllo wörld", TokenMode::Markup), vec![
        (SyntaxKind::Text, 6),
        (space(0), 7),
        (SyntaxKind::Text, 13),
    ]);
    assert_eq!(all("é", TokenMode::Code), vec![(SyntaxKind::Ident, 2)]);
}

#[test]
fn next_at_the_end_changes_nothing() {
    let mut tokens = Tokens::new("a", TokenMode::Markup);
    assert_eq!(tokens.next(), Some(SyntaxKind::Text));
    assert_eq!(tokens.cursor(), 1);
    assert_eq!(tokens.next(), None);
    assert_eq!(tokens.cursor(), 1);
    assert_eq!(tokens.mode(), TokenMode::Markup);

    let mut tokens = Tokens::new("", TokenMode::Code);
    assert_eq!(tokens.next(), None);
    assert_eq!(tokens.cursor(), 0);
}

#[test]
fn jump_reads_again_in_another_mode() {
    let mut tokens = Tokens::new("(a)", TokenMode::Markup);
    assert_eq!(tokens.next(), Some(SyntaxKind::Text));
    assert_eq!(tokens.cursor(), 3);
    tokens.set_mode(TokenMode::Code);
    assert_eq!(tokens.mode(), TokenMode::Code);
    tokens.jump(0);
    assert_eq!(tokens.cursor(), 0);
    assert_eq!(tokens.next(), Some(SyntaxKind::LeftParen));
    assert_eq!(tokens.cursor(), 1);
}

#[test]
fn jump_is_held_within_the_source() {
    let mut tokens = Tokens::new("abc", TokenMode::Markup);
    tokens.jump(10);
    assert_eq!(tokens.cursor(), 3);
    assert_eq!(tokens.next(), None);
    tokens.jump(1);
    assert_eq!(tokens.cursor(), 1);
    assert_eq!(tokens.next(), Some(SyntaxKind::Text));
    assert_eq!(tokens.cursor(), 3);
}

#[test]
fn a_copy_reads_ahead_on_its_own() {
    let tokens = Tokens::new("a b", TokenMode::Code);
    let mut ahead = tokens;
    assert_eq!(ahead.next(), Some(SyntaxKind::Ident));
    assert_eq!(ahead.cursor(), 1);
    assert_eq!(tokens.cursor(), 0);
    let mut cloned = tokens.clone();
    assert_eq!(cloned.next(), Some(SyntaxKind::Ident));
    assert_eq!(tokens.cursor(), 0);
}

#[test]
fn column_counts_characters_from_the_line_start() {
    let tokens = Tokens::new("ab\ncd", TokenMode::Markup);
    assert_eq!(tokens.column(0), 0);
    assert_eq!(tokens.column(2), 2);
    assert_eq!(tokens.column(3), 0);
    assert_eq!(tokens.column(4), 1);
    assert_eq!(tokens.column(5), 2);
    assert_eq!(tokens.column(99), 2);
}

#[test]
fn column_counts_a_character_of_several_bytes_once() {
    let tokens = Tokens::new("éa\nöü!", TokenMode::Markup);
    assert_eq!(tokens.column(2), 1);
    assert_eq!(tokens.column(3), 2);
    assert_eq!(tokens.column(8), 2);
    assert_eq!(tokens.column(9), 3);
}

#[test]
fn column_adds_the_prefix_on_the_first_line_only() {
    let tokens = Tokens::with_prefix("xy", "ab\ncd", TokenMode::Markup);
    assert_eq!(tokens.column(0), 2);
    assert_eq!(tokens.column(1), 3);
    assert_eq!(tokens.column(2), 4);
    assert_eq!(tokens.column(3), 0);
    assert_eq!(tokens.column(4), 1);

    let tokens = Tokens::with_prefix("one\ntwo3", "ab", TokenMode::Markup);
    assert_eq!(tokens.column(0), 4);
    assert_eq!(tokens.column(2), 6);

    let tokens = Tokens::with_prefix("", "ab", TokenMode::Markup);
    assert_eq!(tokens.column(1), 1);
}

#[test]
fn get_slices_the_source() {
    let tokens = Tokens::new("héllo wörld", TokenMode::Markup);
    assert_eq!(tokens.get(0..6), "héllo");
    assert_eq!(tokens.get(7..13), "wörld");
    assert_eq!(tokens.get(0..13), "héllo wörld");
    assert_eq!(tokens.get(3..3), "");
    assert_eq!(tokens.get(0..1), "h");
}

#[test]
fn get_snaps_the_ends_of_the_range() {
    let tokens = Tokens::new("héllo", TokenMode::Markup);
    // The second byte lies inside the character of two bytes.
    assert_eq!(tokens.get(0..2), "h");
    assert_eq!(tokens.get(2..4), "él");
    assert_eq!(tokens.get(2..3), "é");
    assert_eq!(tokens.get(2..2), "");
    assert_eq!(tokens.get(0..7), "héllo");
    assert_eq!(tokens.get(4..3), "");
    assert_eq!(tokens.get(9..12), "");
    assert_eq!(tokens.get(5..99), "o");
}

#[test]
fn jump_snaps_to_the_front_of_a_character() {
    let mut tokens = Tokens::new("a€b", TokenMode::Markup);
    for inside in [2, 3] {
        tokens.jump(inside);
        assert_eq!(tokens.cursor(), 1);
    }
    tokens.jump(4);
    assert_eq!(tokens.cursor(), 4);
    assert_eq!(tokens.next(), Some(SyntaxKind::Text));
    assert_eq!(tokens.cursor(), 5);
}
