use vstd::prelude::*;

use crate::chars::{chars_to_string, is_alphabetic_char, is_whitespace_char, str_to_chars};
use crate::kind::SyntaxKind;
use crate::lex::{
    ident_pred, keyword_classify, keyword_kind, not_quote_pred, run_end, run_end_ident,
    run_end_not_quote, views_of_tokens, Token, TokenData, TokenModel,
};

verus! {

/// One step of the first-generation scanner at position `i`. It dispatches on
/// the current character alone: any whitespace character becomes a one-space
/// whitespace token (so the newline arm below it is shadowed, and the scanned
/// text is not preserved exactly), an unterminated string literal still comes
/// out as a string-literal token, and everything else mirrors the
/// table-driven scanner without multi-character operators.
pub open spec fn old_scan_token(s: Seq<char>, i: int) -> (TokenModel, int)
    recommends
        0 <= i < s.len(),
{
    let c = s[i];
    if is_whitespace_char(c) {
        (TokenModel { kind: SyntaxKind::Whitespace, text: seq![' '] }, i + 1)
    } else if c == ':' {
        (TokenModel { kind: SyntaxKind::Colon, text: seq![':'] }, i + 1)
    } else if c == '\n' {
        (TokenModel { kind: SyntaxKind::NewLine, text: seq!['\n'] }, i + 1)
    } else if c == '=' {
        (TokenModel { kind: SyntaxKind::Equal, text: seq!['='] }, i + 1)
    } else if c == ';' {
        (TokenModel { kind: SyntaxKind::Semicolon, text: seq![';'] }, i + 1)
    } else if c == '"' {
        let e = run_end(s, i + 1, not_quote_pred());
        if e < s.len() {
            (TokenModel { kind: SyntaxKind::StringLiteral, text: s.subrange(i + 1, e) }, e + 1)
        } else {
            (TokenModel { kind: SyntaxKind::StringLiteral, text: s.subrange(i + 1, e) }, e)
        }
    } else if is_alphabetic_char(c) {
        let e = run_end(s, i + 1, ident_pred());
        (TokenModel { kind: keyword_kind(s.subrange(i, e)), text: s.subrange(i, e) }, e)
    } else {
        (TokenModel { kind: SyntaxKind::Error, text: seq![c] }, i + 1)
    }
}

/// Every step of the first-generation scanner makes progress.
pub proof fn lemma_old_scan_progress(s: Seq<char>, i: int)
    requires
        0 <= i < s.len(),
    ensures
        i < old_scan_token(s, i).1 <= s.len(),
{
    crate::lex::lemma_run_end(s, i + 1, not_quote_pred());
    crate::lex::lemma_run_end(s, i + 1, ident_pred());
}

/// The full token stream of the first-generation scanner.
pub open spec fn old_lex_model(s: Seq<char>, i: int) -> Seq<TokenModel>
    decreases s.len() - i
        when 0 <= i <= s.len()
        via old_lex_model_dec
{
    if i >= s.len() {
        Seq::empty()
    } else {
        seq![old_scan_token(s, i).0] + old_lex_model(s, old_scan_token(s, i).1)
    }
}

#[via_fn]
proof fn old_lex_model_dec(s: Seq<char>, i: int) {
    if 0 <= i < s.len() {
        lemma_old_scan_progress(s, i);
    }
}

/// Builds a one-character token whose text is exactly `c`.
fn one_char_token(kind: SyntaxKind, c: char) -> (t: TokenData)
    ensures
        t@.kind == kind,
        t@.text == seq![c],
{
    let mut text = String::new();
    text.push(c);
    proof {
        assert(text@ =~= seq![c]);
    }
    TokenData { kind, text }
}

fn old_scan_one(chars: &Vec<char>, i: usize) -> (r: (TokenData, usize))
    requires
        i < chars@.len(),
    ensures
        r.0@ == old_scan_token(chars@, i as int).0,
        r.1 == old_scan_token(chars@, i as int).1,
        i < r.1 <= chars@.len(),
{
    let n = chars.len();
    proof {
        assert(i + 1 <= n);
    }
    let c = chars[i];
    if c.is_whitespace() {
        (one_char_token(SyntaxKind::Whitespace, ' '), i + 1)
    } else if c == ':' {
        (one_char_token(SyntaxKind::Colon, ':'), i + 1)
    } else if c == '\n' {
        (one_char_token(SyntaxKind::NewLine, '\n'), i + 1)
    } else if c == '=' {
        (one_char_token(SyntaxKind::Equal, '='), i + 1)
    } else if c == ';' {
        (one_char_token(SyntaxKind::Semicolon, ';'), i + 1)
    } else if c == '"' {
        let e = run_end_not_quote(chars, i + 1);
        let text = chars_to_string(chars, i + 1, e);
        if e < n {
            (TokenData { kind: SyntaxKind::StringLiteral, text }, e + 1)
        } else {
            (TokenData { kind: SyntaxKind::StringLiteral, text }, e)
        }
    } else if c.is_alphabetic() {
        let e = run_end_ident(chars, i + 1);
        let text = chars_to_string(chars, i, e);
        let kind = keyword_classify(chars, i, e);
        (TokenData { kind, text }, e)
    } else {
        (one_char_token(SyntaxKind::Error, c), i + 1)
    }
}

/// The first-generation scanner: a direct character dispatch without the
/// operator trie. Kept alongside the table-driven scanner as the input of the
/// editor-facing token mapping.
pub fn lex(source: &str) -> (tokens: Vec<Token>)
    ensures
        views_of_tokens(tokens@) == old_lex_model(source@, 0),
        source@.len() > 0 ==> tokens@.len() > 0,
{
    let chars = str_to_chars(source);
    let mut tokens: Vec<Token> = Vec::new();
    let mut i: usize = 0;
    while i < chars.len()
        invariant
            chars@ == source@,
            i <= chars@.len(),
            views_of_tokens(tokens@) + old_lex_model(chars@, i as int) == old_lex_model(chars@, 0),
            tokens@.len() > 0 <==> i > 0,
        decreases chars@.len() - i,
    {
        let ghost pre_tokens = tokens@;
        let ghost pre_i = i as int;
        let (tok, next) = old_scan_one(&chars, i);
        tokens.push(tok);
        i = next;
        proof {
            assert(views_of_tokens(tokens@) =~= views_of_tokens(pre_tokens) + seq![tok@]);
            assert(old_lex_model(chars@, pre_i) == seq![tok@] + old_lex_model(chars@, i as int));
            assert((views_of_tokens(pre_tokens) + seq![tok@]) + old_lex_model(chars@, i as int)
                =~= views_of_tokens(pre_tokens) + (seq![tok@] + old_lex_model(chars@, i as int)));
        }
    }
    proof {
        assert(old_lex_model(chars@, i as int) =~= Seq::<TokenModel>::empty());
        assert(views_of_tokens(tokens@) + Seq::<TokenModel>::empty() =~= views_of_tokens(tokens@));
    }
    tokens
}

} // verus!
