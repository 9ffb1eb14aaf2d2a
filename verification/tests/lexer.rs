use table_driven_lexer::lex;
use table_driven_lexer::provide_semantic_tokens;
use table_driven_lexer::table_lex;
use table_driven_lexer::GfmChar;
use table_driven_lexer::Spanned;
use table_driven_lexer::SyntaxKind;
use table_driven_lexer::Token;
use table_driven_lexer::TokenData;

fn tok(kind: SyntaxKind, text: &str) -> TokenData {
    TokenData {
        kind,
        text: text.to_string(),
    }
}

#[test]
fn test_name2() {
    let input = "let name: string = \"Abhi\";";
    let lexed = lex(input);
    assert_eq!(
        lexed,
        vec![
            Token {
                kind: SyntaxKind::Let,
                text: "let".to_string()
            },
            Token {
                kind: SyntaxKind::Whitespace,
                text: " ".to_string()
            },
            Token {
                kind: SyntaxKind::Ident,
                text: "name".to_string()
            },
            Token {
                kind: SyntaxKind::Colon,
                text: ":".to_string()
            },
            Token {
                kind: SyntaxKind::Whitespace,
                text: " ".to_string()
            },
            Token {
                kind: SyntaxKind::Type,
                text: "string".to_string()
            },
            Token {
                kind: SyntaxKind::Whitespace,
                text: " ".to_string()
            },
            Token {
                kind: SyntaxKind::Equal,
                text: "=".to_string()
            },
            Token {
                kind: SyntaxKind::Whitespace,
                text: " ".to_string()
            },
            Token {
                kind: SyntaxKind::StringLiteral,
                text: "Abhi".to_string()
            },
            Token {
                kind: SyntaxKind::Semicolon,
                text: ";".to_string()
            },
        ]
    );

    let input_sem = provide_semantic_tokens(input);

    if let Some(first) = input_sem.first() {
        let line = first.delta_line;
        let delta_start = first.delta_start;
        let len = first.length;

        assert_eq!(line, 0);
        assert_eq!(delta_start, 0);
        assert_eq!(len, 3);
    }
    if let Some(first) = input_sem.get(1) {
        let line = first.delta_line;
        let delta_start = first.delta_start;
        let len = first.length;

        assert_eq!(line, 0);
        assert_eq!(delta_start, 4);
        assert_eq!(len, 4);
    }
    if let Some(semantic_token) = input_sem.get(2) {
        let line = semantic_token.delta_line;
        let delta_start = semantic_token.delta_start;
        let len = semantic_token.length;

        assert_eq!(line, 0);
        assert_eq!(delta_start, 10);
        assert_eq!(len, 6);
    }
}

#[test]
fn semantic_tokens_are_exactly_the_highlighted_kinds() {
    let input = "let name: string = \"Abhi\";";
    let sem = provide_semantic_tokens(input);
    assert_eq!(sem.len(), 4);
    // keyword, variable, type, string legend indices
    assert_eq!(sem[0].token_type, 0);
    assert_eq!(sem[1].token_type, 1);
    assert_eq!(sem[2].token_type, 2);
    assert_eq!(sem[3].token_type, 3);
    assert_eq!(sem[3].delta_start, 19);
    assert_eq!(sem[3].length, 4);
    for t in &sem {
        assert_eq!(t.token_modifiers_bitset, 0);
    }
}

#[test]
fn total_coverage_on_mixed_input() {
    // Concatenating every token's text reproduces the input exactly, as long
    // as no string literal is involved (its quotes are stripped by design).
    let input = "let a: b = c;@# \t==\nxyz_9";
    let tokens = table_lex(input);
    let mut rebuilt = String::new();
    for t in &tokens {
        rebuilt.push_str(&t.text);
    }
    assert_eq!(rebuilt, input);
}

#[test]
fn termination_and_emission_on_edge_inputs() {
    assert!(table_lex("").is_empty());
    assert!(lex("").is_empty());

    let ws = table_lex("   \t ");
    assert_eq!(ws.len(), 1);
    assert_eq!(ws[0].kind, SyntaxKind::Whitespace);

    let junk = table_lex("@#$");
    assert_eq!(junk.len(), 3);
    for t in &junk {
        assert_eq!(t.kind, SyntaxKind::Error);
        assert_eq!(t.text.len(), 1);
    }
}

#[test]
fn longest_match_double_equal() {
    // With both `=` and `==` registered, `==` lexes as one token.
    let tokens = table_lex("==");
    assert_eq!(tokens, vec![tok(SyntaxKind::EqualEqual, "==")]);

    let tokens = table_lex("=");
    assert_eq!(tokens, vec![tok(SyntaxKind::Equal, "=")]);

    let tokens = table_lex("===");
    assert_eq!(
        tokens,
        vec![tok(SyntaxKind::EqualEqual, "=="), tok(SyntaxKind::Equal, "=")]
    );
}

#[test]
fn longest_match_other_operators() {
    assert_eq!(table_lex("=>"), vec![tok(SyntaxKind::FatArrow, "=>")]);
    assert_eq!(table_lex("=<"), vec![tok(SyntaxKind::EqualLess, "=<")]);
    assert_eq!(table_lex(":="), vec![tok(SyntaxKind::ColonEqual, ":=")]);
    assert_eq!(table_lex("::"), vec![tok(SyntaxKind::DoubleColon, "::")]);
    assert_eq!(
        table_lex(":;"),
        vec![tok(SyntaxKind::Colon, ":"), tok(SyntaxKind::Semicolon, ";")]
    );
    assert_eq!(table_lex("\n"), vec![tok(SyntaxKind::NewLine, "\n")]);
}

#[test]
fn string_literal_quotes_are_stripped() {
    let tokens = table_lex("\"hi\"");
    assert_eq!(tokens, vec![tok(SyntaxKind::StringLiteral, "hi")]);

    let tokens = table_lex("\"\"");
    assert_eq!(tokens, vec![tok(SyntaxKind::StringLiteral, "")]);
}

#[test]
fn unterminated_string_is_an_error_token() {
    let tokens = table_lex("\"oops");
    assert_eq!(tokens, vec![tok(SyntaxKind::Error, "oops")]);
}

#[test]
fn old_lexer_flattens_whitespace_and_keeps_unterminated_literals() {
    // The first-generation scanner turns every whitespace character,
    // newlines included, into a one-space whitespace token...
    let tokens = lex("a\nb");
    assert_eq!(
        tokens,
        vec![
            tok(SyntaxKind::Ident, "a"),
            tok(SyntaxKind::Whitespace, " "),
            tok(SyntaxKind::Ident, "b"),
        ]
    );
    // ...and still calls an unterminated literal a string literal.
    let tokens = lex("\"oops");
    assert_eq!(tokens, vec![tok(SyntaxKind::StringLiteral, "oops")]);
}

#[test]
fn keywords_need_an_exact_match() {
    let tokens = table_lex("lets strings let string");
    assert_eq!(tokens[0], tok(SyntaxKind::Ident, "lets"));
    assert_eq!(tokens[2], tok(SyntaxKind::Ident, "strings"));
    assert_eq!(tokens[4], tok(SyntaxKind::Let, "let"));
    assert_eq!(tokens[6], tok(SyntaxKind::Type, "string"));
}

#[test]
fn identifiers_take_alphanumerics_and_underscores() {
    let tokens = table_lex("ab_9c=");
    assert_eq!(
        tokens,
        vec![tok(SyntaxKind::Ident, "ab_9c"), tok(SyntaxKind::Equal, "=")]
    );
    // A leading digit is not an identifier start.
    let tokens = table_lex("9a");
    assert_eq!(tokens[0], tok(SyntaxKind::Error, "9"));
}

#[test]
fn gfm_punctuation_classes() {
    assert!('!'.is_ascii_punctuation_character());
    assert!('~'.is_ascii_punctuation_character());
    assert!(':'.is_ascii_punctuation_character());
    assert!('\\'.is_ascii_punctuation_character());
    assert!(!'a'.is_ascii_punctuation_character());
    assert!(!' '.is_ascii_punctuation_character());
    assert!(!'0'.is_ascii_punctuation_character());
}

#[test]
fn spanned_carries_token_and_offset() {
    let s = Spanned {
        token: tok(SyntaxKind::Let, "let"),
        offset: 7,
    };
    assert_eq!(s.offset, 7);
    assert_eq!(s.token.kind, SyntaxKind::Let);
}
