use table_driven_lexer::analyze;
use table_driven_lexer::compile;
use table_driven_lexer::lower_to_ast;
use table_driven_lexer::parse_tokens_to_cst;
use table_driven_lexer::table_lex;
use table_driven_lexer::Diagnostic;
use table_driven_lexer::LowerError;
use table_driven_lexer::SyntaxElement;
use table_driven_lexer::SyntaxKind;
use table_driven_lexer::SyntaxNodeData;
use table_driven_lexer::VarDecl;

fn kinds_of(node: &SyntaxNodeData) -> Vec<SyntaxKind> {
    node.tokens().iter().map(|t| t.kind).collect()
}

fn texts_of(node: &SyntaxNodeData) -> Vec<String> {
    node.tokens().iter().map(|t| t.text.clone()).collect()
}

#[test]
fn round_trip_happy_path() {
    let input = "let x: string = \"hi\";";
    let tokens = table_lex(input);
    let kinds: Vec<SyntaxKind> = tokens.iter().map(|t| t.kind).collect();
    assert_eq!(
        kinds,
        vec![
            SyntaxKind::Let,
            SyntaxKind::Whitespace,
            SyntaxKind::Ident,
            SyntaxKind::Colon,
            SyntaxKind::Whitespace,
            SyntaxKind::Type,
            SyntaxKind::Whitespace,
            SyntaxKind::Equal,
            SyntaxKind::Whitespace,
            SyntaxKind::StringLiteral,
            SyntaxKind::Semicolon,
        ]
    );

    let root = parse_tokens_to_cst(&tokens);
    assert_eq!(root.kind(), SyntaxKind::Root);
    let nodes = root.child_nodes();
    assert_eq!(nodes.len(), 1);
    let decl = nodes[0];
    assert_eq!(decl.kind(), SyntaxKind::VarDecl);
    // The three interesting tokens appear in order: x, string, hi.
    let texts = texts_of(decl);
    assert_eq!(texts, vec!["let", "x", ":", "string", "=", "hi", ";"]);

    let lowered = lower_to_ast(&root);
    assert_eq!(lowered.len(), 1);
    let rec = lowered[0].as_ref().expect("lowering must succeed");
    assert_eq!(rec.name, "x");
    assert_eq!(rec.ty, "string");
    assert_eq!(rec.value, "hi");

    let decls: Vec<VarDecl> = lowered.into_iter().map(|r| r.unwrap()).collect();
    let out = compile(&decls);
    assert_eq!(out, "{\n  \"x\": \"hi\",\n}");
}

#[test]
fn unterminated_string_fails_lowering_with_missing_field() {
    let input = "let x: string = \"oops";
    let tokens = table_lex(input);
    // Exactly one error-kind token, and its text is the dangling content.
    let errors: Vec<_> = tokens
        .iter()
        .filter(|t| t.kind == SyntaxKind::Error)
        .collect();
    assert_eq!(errors.len(), 1);
    assert_eq!(errors[0].text, "oops");

    let root = parse_tokens_to_cst(&tokens);
    let lowered = lower_to_ast(&root);
    assert_eq!(lowered.len(), 1);
    assert_eq!(lowered[0], Err(LowerError::MissingValue));
}

#[test]
fn multiple_declarations_stay_in_order() {
    let input = "let a: string = \"1\"; let b: string = \"2\";";
    let tokens = table_lex(input);
    let root = parse_tokens_to_cst(&tokens);
    let nodes = root.child_nodes();
    assert_eq!(nodes.len(), 2);
    assert_eq!(nodes[0].kind(), SyntaxKind::VarDecl);
    assert_eq!(nodes[1].kind(), SyntaxKind::VarDecl);

    let lowered = lower_to_ast(&root);
    let decls: Vec<VarDecl> = lowered.into_iter().map(|r| r.unwrap()).collect();
    assert_eq!(decls[0].name, "a");
    assert_eq!(decls[0].value, "1");
    assert_eq!(decls[1].name, "b");
    assert_eq!(decls[1].value, "2");

    let out = compile(&decls);
    assert_eq!(out, "{\n  \"a\": \"1\",\n  \"b\": \"2\",\n}");
}

#[test]
fn unsupported_type_is_flagged_but_serialized() {
    let input = "let a: number = \"1\";";
    let tokens = table_lex(input);
    let root = parse_tokens_to_cst(&tokens);
    let lowered = lower_to_ast(&root);
    assert_eq!(lowered.len(), 1);
    let rec = lowered[0].as_ref().expect("all three fields are present");
    assert_eq!(rec.name, "a");
    assert_eq!(rec.ty, "number");
    assert_eq!(rec.value, "1");

    let decls: Vec<VarDecl> = lowered.into_iter().map(|r| r.unwrap()).collect();
    let diags = analyze(&decls);
    assert_eq!(
        diags,
        vec![Diagnostic::UnsupportedType {
            ty: "number".to_string()
        }]
    );

    let out = compile(&decls);
    assert_eq!(out, "{\n  \"a\": \"1\",\n}");
}

#[test]
fn missing_name_and_missing_type_are_reported_each() {
    // No identifier between `let` and the colon.
    let tokens = table_lex("let : string = \"v\";");
    let lowered = lower_to_ast(&parse_tokens_to_cst(&tokens));
    assert_eq!(lowered, vec![Err(LowerError::MissingName)]);

    // No type between the colon and the equals sign.
    let tokens = table_lex("let a = \"v\";");
    let lowered = lower_to_ast(&parse_tokens_to_cst(&tokens));
    assert_eq!(lowered, vec![Err(LowerError::MissingType)]);
}

#[test]
fn one_bad_declaration_does_not_stop_the_batch() {
    let input = "let a: string = \"1\"; let : string = \"2\"; let c: string = \"3\";";
    let tokens = table_lex(input);
    let lowered = lower_to_ast(&parse_tokens_to_cst(&tokens));
    assert_eq!(lowered.len(), 3);
    assert!(lowered[0].is_ok());
    assert_eq!(lowered[1], Err(LowerError::MissingName));
    assert!(lowered[2].is_ok());
}

#[test]
fn empty_value_gets_a_warning_but_is_serialized() {
    let decls = vec![VarDecl {
        name: "a".to_string(),
        ty: "string".to_string(),
        value: "".to_string(),
    }];
    let diags = analyze(&decls);
    assert_eq!(
        diags,
        vec![Diagnostic::EmptyValue {
            name: "a".to_string()
        }]
    );
    assert_eq!(compile(&decls), "{\n  \"a\": \"\",\n}");
}

#[test]
fn analyze_reports_all_findings_in_order() {
    let decls = vec![
        VarDecl {
            name: "a".to_string(),
            ty: "number".to_string(),
            value: "".to_string(),
        },
        VarDecl {
            name: "b".to_string(),
            ty: "string".to_string(),
            value: "x".to_string(),
        },
    ];
    let diags = analyze(&decls);
    assert_eq!(
        diags,
        vec![
            Diagnostic::UnsupportedType {
                ty: "number".to_string()
            },
            Diagnostic::EmptyValue {
                name: "a".to_string()
            },
        ]
    );
}

#[test]
fn compile_of_no_declarations_is_an_empty_map() {
    let decls: Vec<VarDecl> = vec![];
    assert_eq!(compile(&decls), "{\n}");
}

#[test]
fn trailing_tokens_are_left_out_of_the_tree() {
    let input = "let a: string = \"1\"; junk ==";
    let tokens = table_lex(input);
    let root = parse_tokens_to_cst(&tokens);
    assert_eq!(root.child_nodes().len(), 1);

    // Input that does not begin with `let` yields an empty tree.
    let tokens = table_lex("a: string = \"1\";");
    let root = parse_tokens_to_cst(&tokens);
    assert_eq!(root.children.len(), 0);
}

#[test]
fn node_accessors_split_tokens_and_nodes() {
    let input = "let a: string = \"1\";";
    let tokens = table_lex(input);
    let root = parse_tokens_to_cst(&tokens);
    // The root holds only nodes; the declaration holds only tokens.
    assert_eq!(root.tokens().len(), 0);
    assert_eq!(root.child_nodes().len(), 1);
    let decl = root.child_nodes()[0];
    assert_eq!(decl.tokens().len(), 7);
    assert_eq!(decl.child_nodes().len(), 0);
    assert_eq!(
        kinds_of(decl),
        vec![
            SyntaxKind::Let,
            SyntaxKind::Ident,
            SyntaxKind::Colon,
            SyntaxKind::Type,
            SyntaxKind::Equal,
            SyntaxKind::StringLiteral,
            SyntaxKind::Semicolon,
        ]
    );

    let built = SyntaxNodeData::new(SyntaxKind::Root, Vec::new());
    assert_eq!(built.kind(), SyntaxKind::Root);
    assert_eq!(built.children.len(), 0);

    let leaf = SyntaxElement::Token(table_driven_lexer::TokenData {
        kind: SyntaxKind::Semicolon,
        text: ";".to_string(),
    });
    let wrapped = SyntaxNodeData::new(SyntaxKind::VarDecl, vec![leaf]);
    assert_eq!(wrapped.tokens().len(), 1);
    assert_eq!(wrapped.child_nodes().len(), 0);
}

#[test]
fn lowering_skips_stray_tokens_and_foreign_nodes() {
    // A hand-built tree: a stray token and a non-declaration node at the
    // root are not lowered; the declaration between them is.
    let tok = |kind: SyntaxKind, text: &str| {
        SyntaxElement::Token(table_driven_lexer::TokenData {
            kind,
            text: text.to_string(),
        })
    };
    let decl = SyntaxNodeData::new(
        SyntaxKind::VarDecl,
        vec![
            tok(SyntaxKind::Let, "let"),
            tok(SyntaxKind::Ident, "n"),
            tok(SyntaxKind::Type, "string"),
            tok(SyntaxKind::StringLiteral, "v"),
        ],
    );
    let root = SyntaxNodeData::new(
        SyntaxKind::Root,
        vec![
            tok(SyntaxKind::Error, "?"),
            SyntaxElement::Node(decl),
            SyntaxElement::Node(SyntaxNodeData::new(SyntaxKind::Root, Vec::new())),
        ],
    );
    let lowered = lower_to_ast(&root);
    assert_eq!(lowered.len(), 1);
    let rec = lowered[0].as_ref().unwrap();
    assert_eq!(rec.name, "n");
    assert_eq!(rec.ty, "string");
    assert_eq!(rec.value, "v");
}

#[test]
fn analyze_is_silent_on_supported_declarations() {
    let decls = vec![VarDecl {
        name: "a".to_string(),
        ty: "string".to_string(),
        value: "ok".to_string(),
    }];
    assert_eq!(analyze(&decls), Vec::<Diagnostic>::new());
}
