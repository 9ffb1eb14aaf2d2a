//! A minimal front end for a tiny declaration language
//! (`let <ident> : <type> = "<value>";`): a table-driven lexer with a
//! longest-match operator trie, a permissive tree builder, a lowering pass
//! that extracts typed records, and a key/value serializer.

pub mod api;
pub mod chars;
pub mod kind;
pub mod lex;
pub mod node;
pub mod old_lexer;
pub mod parse;
pub mod semantic;

pub use api::gfm::GfmChar;
pub use kind::SyntaxKind;
pub use lex::{table_lex, Spanned, Token, TokenData};
pub use node::{SyntaxElement, SyntaxNode, SyntaxNodeData};
pub use old_lexer::lex;
pub use parse::{analyze, compile, lower_to_ast, parse_tokens_to_cst, Diagnostic, LowerError, VarDecl};
pub use semantic::{provide_semantic_tokens, token_type_index, SemanticToken};
