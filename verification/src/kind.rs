use vstd::prelude::*;

verus! {

/// The closed set of lexical categories, including the structural kinds
/// (`Root`, `VarDecl`) that appear only inside the syntax tree, never in the
/// flat token stream.
#[derive(Debug, Clone, Copy, PartialEq, Eq, Hash, Structural)]
pub enum SyntaxKind {
    Let,
    Ident,
    Colon,
    Type,
    Equal,
    StringLiteral,
    Semicolon,
    Whitespace,
    Error,
    Root,
    VarDecl,
    NewLine,
    EqualEqual,
    FatArrow,
    EqualLess,
    ColonEqual,
    DoubleColon,
}

} // verus!
