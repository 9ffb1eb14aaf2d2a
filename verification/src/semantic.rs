use vstd::prelude::*;
use vstd::string::StrSliceExecFns;

use crate::kind::SyntaxKind;
use crate::lex::TokenModel;
use crate::old_lexer::{lex, lemma_old_scan_progress, old_lex_model, old_scan_token};

verus! {

/// One highlighting token for an editor: positions and lengths are given in
/// characters, the type as an index into the highlighting legend.
#[derive(Debug, Clone, Copy, PartialEq, Eq, Structural)]
pub struct SemanticToken {
    pub delta_line: u32,
    pub delta_start: u32,
    pub length: u32,
    pub token_type: u32,
    pub token_modifiers_bitset: u32,
}

/// The mathematical image of a highlighting token.
pub ghost struct SemanticTokenModel {
    pub delta_line: int,
    pub delta_start: int,
    pub length: int,
    pub token_type: int,
    pub token_modifiers_bitset: int,
}

impl View for SemanticToken {
    type V = SemanticTokenModel;

    open spec fn view(&self) -> SemanticTokenModel {
        SemanticTokenModel {
            delta_line: self.delta_line as int,
            delta_start: self.delta_start as int,
            length: self.length as int,
            token_type: self.token_type as int,
            token_modifiers_bitset: self.token_modifiers_bitset as int,
        }
    }
}

/// The views of a sequence of highlighting tokens.
pub open spec fn views_of_sem(ts: Seq<SemanticToken>) -> Seq<SemanticTokenModel> {
    ts.map_values(|t: SemanticToken| t@)
}

/// The lexical categories that earn a highlighting token.
pub open spec fn is_highlight_kind(k: SyntaxKind) -> bool {
    k == SyntaxKind::Let || k == SyntaxKind::Ident || k == SyntaxKind::Type || k
        == SyntaxKind::StringLiteral
}

/// The index of a lexical category in the highlighting legend
/// (keyword, variable, type, string); categories outside the legend map to
/// the first slot.
pub open spec fn token_type_index_spec(k: SyntaxKind) -> int {
    if k == SyntaxKind::Let {
        0
    } else if k == SyntaxKind::Ident {
        1
    } else if k == SyntaxKind::Type {
        2
    } else if k == SyntaxKind::StringLiteral {
        3
    } else {
        0
    }
}

/// The index of a lexical category in the highlighting legend.
pub fn token_type_index(k: SyntaxKind) -> (r: u32)
    ensures
        r as int == token_type_index_spec(k),
{
    if k == SyntaxKind::Let {
        0
    } else if k == SyntaxKind::Ident {
        1
    } else if k == SyntaxKind::Type {
        2
    } else if k == SyntaxKind::StringLiteral {
        3
    } else {
        0
    }
}

/// The total character count of a token stream's texts.
pub open spec fn sum_text_lens(ts: Seq<TokenModel>) -> nat
    decreases ts.len(),
{
    if ts.len() == 0 {
        0
    } else {
        ts[0].text.len() + sum_text_lens(ts.drop_first())
    }
}

/// The first-generation scanner consumes at least as many characters as its
/// tokens carry, and emits at most one token per character.
pub proof fn lemma_old_lex_bounds(s: Seq<char>, i: int)
    requires
        0 <= i <= s.len(),
    ensures
        sum_text_lens(old_lex_model(s, i)) <= s.len() - i,
        old_lex_model(s, i).len() <= s.len() - i,
    decreases s.len() - i,
{
    if i < s.len() {
        lemma_old_scan_progress(s, i);
        let (t, next) = old_scan_token(s, i);
        lemma_old_lex_bounds(s, next);
        let ts = old_lex_model(s, i);
        assert(ts[0] == t);
        assert(ts.drop_first() =~= old_lex_model(s, next));
        crate::lex::lemma_run_end(s, i + 1, crate::lex::not_quote_pred());
        crate::lex::lemma_run_end(s, i + 1, crate::lex::ident_pred());
        assert(t.text.len() <= next - i);
    }
}

/// The highlighting tokens earned by the token stream `ts`, with `line`
/// newline tokens and `offset` characters of token text already seen. A
/// token's position is the running character offset of the token text before
/// it; its line count includes the newline tokens up to and including
/// itself.
pub open spec fn sem_model(ts: Seq<TokenModel>, line: int, offset: int) -> Seq<SemanticTokenModel>
    decreases ts.len(),
{
    if ts.len() == 0 {
        Seq::empty()
    } else {
        let t = ts[0];
        let len = t.text.len() as int;
        let line2 = if t.kind == SyntaxKind::NewLine {
            line + 1
        } else {
            line
        };
        let rest = sem_model(ts.drop_first(), line2, offset + len);
        if is_highlight_kind(t.kind) {
            seq![
                SemanticTokenModel {
                    delta_line: line2,
                    delta_start: offset,
                    length: len,
                    token_type: token_type_index_spec(t.kind),
                    token_modifiers_bitset: 0,
                },
            ] + rest
        } else {
            rest
        }
    }
}

/// Maps the source text to its highlighting tokens: the keyword, identifier,
/// type and string-literal tokens of the first-generation scan, each with
/// its character offset, text length, and legend index.
pub fn provide_semantic_tokens(source: &str) -> (r: Vec<SemanticToken>)
    requires
        source@.len() <= u32::MAX,
    ensures
        views_of_sem(r@) == sem_model(old_lex_model(source@, 0), 0, 0),
{
    let lexed = lex(source);
    let ghost full = old_lex_model(source@, 0);
    let mut r: Vec<SemanticToken> = Vec::new();
    let mut current_line: u32 = 0;
    let mut offset_start: u32 = 0;
    let mut i: usize = 0;
    proof {
        lemma_old_lex_bounds(source@, 0);
        assert(full.skip(0) =~= full);
        assert(views_of_sem(r@) + sem_model(full, 0, 0) =~= sem_model(full, 0, 0));
    }
    while i < lexed.len()
        invariant
            crate::lex::views_of_tokens(lexed@) == full,
            full.len() <= source@.len() <= u32::MAX,
            i <= lexed@.len(),
            current_line as int <= i,
            offset_start as int + sum_text_lens(full.skip(i as int)) <= source@.len(),
            sem_model(full, 0, 0) == views_of_sem(r@) + sem_model(
                full.skip(i as int),
                current_line as int,
                offset_start as int,
            ),
        decreases lexed@.len() - i,
    {
        let ghost rem = full.skip(i as int);
        let ghost pre_r = r@;
        let ghost pre_line = current_line as int;
        let ghost pre_offset = offset_start as int;
        proof {
            assert(rem[0] == full[i as int]);
            assert(full[i as int] == lexed@[i as int]@);
            assert(rem.drop_first() =~= full.skip(i as int + 1));
        }
        let t = &lexed[i];
        let len = t.text.as_str().unicode_len();
        proof {
            assert(len as int == rem[0].text.len());
            assert(sum_text_lens(rem) == rem[0].text.len() + sum_text_lens(rem.drop_first()));
        }
        if t.kind == SyntaxKind::NewLine {
            current_line = current_line + 1;
        }
        let highlighted = t.kind == SyntaxKind::Let || t.kind == SyntaxKind::Ident || t.kind
            == SyntaxKind::Type || t.kind == SyntaxKind::StringLiteral;
        if highlighted {
            r.push(
                SemanticToken {
                    delta_line: current_line,
                    delta_start: offset_start,
                    length: len as u32,
                    token_type: token_type_index(t.kind),
                    token_modifiers_bitset: 0,
                },
            );
        }
        offset_start = offset_start + (len as u32);
        i = i + 1;
        proof {
            let line2 = if rem[0].kind == SyntaxKind::NewLine {
                pre_line + 1
            } else {
                pre_line
            };
            assert(current_line as int == line2);
            if is_highlight_kind(rem[0].kind) {
                let st = SemanticTokenModel {
                    delta_line: line2,
                    delta_start: pre_offset,
                    length: rem[0].text.len() as int,
                    token_type: token_type_index_spec(rem[0].kind),
                    token_modifiers_bitset: 0,
                };
                assert(views_of_sem(r@) =~= views_of_sem(pre_r).push(st));
                assert(sem_model(rem, pre_line, pre_offset) == seq![st] + sem_model(
                    full.skip(i as int),
                    current_line as int,
                    offset_start as int,
                ));
                assert((views_of_sem(pre_r) + (seq![st] + sem_model(
                    full.skip(i as int),
                    current_line as int,
                    offset_start as int,
                ))) =~= views_of_sem(pre_r).push(st) + sem_model(
                    full.skip(i as int),
                    current_line as int,
                    offset_start as int,
                ));
            } else {
                assert(sem_model(rem, pre_line, pre_offset) == sem_model(
                    full.skip(i as int),
                    current_line as int,
                    offset_start as int,
                ));
            }
        }
    }
    proof {
        assert(full.skip(i as int) =~= Seq::<TokenModel>::empty());
        assert(views_of_sem(r@) + Seq::<SemanticTokenModel>::empty() =~= views_of_sem(r@));
    }
    r
}

} // verus!
