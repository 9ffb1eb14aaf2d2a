use vstd::prelude::*;
use vstd::string::StringExecFns;

use crate::kind::SyntaxKind;
use crate::lex::{views_of_tokens, Token, TokenData, TokenModel};
use crate::node::{spec_tokens, SyntaxElement, SyntaxNode, SyntaxNodeData};

verus! {

// ---------------------------------------------------------------------------
// The tree builder: one repeated statement shape over the token stream.
// ---------------------------------------------------------------------------

/// Tokens that carry no declaration structure and are skipped over when the
/// builder looks for the next expected kind.
pub open spec fn is_trivia(k: SyntaxKind) -> bool {
    k == SyntaxKind::Whitespace || k == SyntaxKind::NewLine
}

/// The first position at or after `i` holding a non-trivia token.
pub open spec fn skip_trivia(ts: Seq<TokenModel>, i: int) -> int
    decreases ts.len() - i,
{
    if i < 0 || i >= ts.len() {
        i
    } else if is_trivia(ts[i].kind) {
        skip_trivia(ts, i + 1)
    } else {
        i
    }
}

pub proof fn lemma_skip_trivia(ts: Seq<TokenModel>, i: int)
    requires
        0 <= i <= ts.len(),
    ensures
        i <= skip_trivia(ts, i) <= ts.len(),
        skip_trivia(ts, i) < ts.len() ==> !is_trivia(ts[skip_trivia(ts, i)].kind),
    decreases ts.len() - i,
{
    if i < ts.len() && is_trivia(ts[i].kind) {
        lemma_skip_trivia(ts, i + 1);
    }
}

/// The fixed sequence of kinds a declaration expects after its `let` keyword.
pub open spec fn expected_kind(j: int) -> SyntaxKind {
    if j == 0 {
        SyntaxKind::Ident
    } else if j == 1 {
        SyntaxKind::Colon
    } else if j == 2 {
        SyntaxKind::Type
    } else if j == 3 {
        SyntaxKind::Equal
    } else if j == 4 {
        SyntaxKind::StringLiteral
    } else {
        SyntaxKind::Semicolon
    }
}

/// The tokens a declaration collects for its expected kinds from slot `j`
/// on, starting at cursor `i`, and the cursor after the declaration. Each
/// expected kind is optional: when the next non-trivia token does not match,
/// the builder moves to the next expected kind without consuming anything.
/// In the type slot a plain identifier is also accepted, reclassified as the
/// declared type name, so that an unsupported type name still reaches the
/// later passes.
pub open spec fn parse_fields(ts: Seq<TokenModel>, i: int, j: int) -> (Seq<TokenModel>, int)
    decreases 6 - j,
{
    if j < 0 || j >= 6 {
        (Seq::empty(), i)
    } else {
        let n = skip_trivia(ts, i);
        if 0 <= n < ts.len() && (ts[n].kind == expected_kind(j) || (j == 2 && ts[n].kind
            == SyntaxKind::Ident)) {
            let tok = if j == 2 && ts[n].kind == SyntaxKind::Ident {
                TokenModel { kind: SyntaxKind::Type, text: ts[n].text }
            } else {
                ts[n]
            };
            let rest = parse_fields(ts, n + 1, j + 1);
            (seq![tok] + rest.0, rest.1)
        } else {
            parse_fields(ts, i, j + 1)
        }
    }
}

pub proof fn lemma_parse_fields_bounds(ts: Seq<TokenModel>, i: int, j: int)
    requires
        0 <= i <= ts.len(),
    ensures
        i <= parse_fields(ts, i, j).1 <= ts.len(),
    decreases 6 - j,
{
    if 0 <= j < 6 {
        lemma_skip_trivia(ts, i);
        let n = skip_trivia(ts, i);
        if 0 <= n < ts.len() && (ts[n].kind == expected_kind(j) || (j == 2 && ts[n].kind
            == SyntaxKind::Ident)) {
            lemma_parse_fields_bounds(ts, n + 1, j + 1);
        } else {
            lemma_parse_fields_bounds(ts, i, j + 1);
        }
    }
}

/// The recognized declarations from cursor `i` on: while the next non-trivia
/// token is the `let` keyword, one declaration is collected; the keyword and
/// the collected field tokens become the declaration's tokens, in order.
/// Everything after the last recognized declaration is left out.
pub open spec fn parse_decls(ts: Seq<TokenModel>, i: int) -> Seq<Seq<TokenModel>>
    decreases ts.len() - i
        when 0 <= i <= ts.len()
        via parse_decls_dec
{
    let n = skip_trivia(ts, i);
    if 0 <= n < ts.len() && ts[n].kind == SyntaxKind::Let {
        let flds = parse_fields(ts, n + 1, 0);
        seq![seq![ts[n]] + flds.0] + parse_decls(ts, flds.1)
    } else {
        Seq::empty()
    }
}

#[via_fn]
proof fn parse_decls_dec(ts: Seq<TokenModel>, i: int) {
    if 0 <= i <= ts.len() {
        lemma_skip_trivia(ts, i);
        let n = skip_trivia(ts, i);
        if 0 <= n < ts.len() && ts[n].kind == SyntaxKind::Let {
            lemma_parse_fields_bounds(ts, n + 1, 0);
        }
    }
}

/// `cs` is exactly the list of leaf tokens whose views are `m`.
pub open spec fn is_token_list(cs: Seq<SyntaxElement>, m: Seq<TokenModel>) -> bool {
    cs.len() == m.len() && (forall|k: int|
        0 <= k < cs.len() ==> ((#[trigger] cs[k]) matches SyntaxElement::Token(t) && t@ == m[k]))
}

fn expected_kind_exec(j: usize) -> (k: SyntaxKind)
    requires
        j < 6,
    ensures
        k == expected_kind(j as int),
{
    match j {
        0 => SyntaxKind::Ident,
        1 => SyntaxKind::Colon,
        2 => SyntaxKind::Type,
        3 => SyntaxKind::Equal,
        4 => SyntaxKind::StringLiteral,
        _ => SyntaxKind::Semicolon,
    }
}

fn is_trivia_exec(k: SyntaxKind) -> (b: bool)
    ensures
        b == is_trivia(k),
{
    k == SyntaxKind::Whitespace || k == SyntaxKind::NewLine
}

fn skip_trivia_exec(tokens: &[Token], i: usize) -> (n: usize)
    requires
        i <= tokens@.len(),
    ensures
        n as int == skip_trivia(views_of_tokens(tokens@), i as int),
        i <= n <= tokens@.len(),
{
    let ghost ts = views_of_tokens(tokens@);
    let mut n = i;
    while n < tokens.len() && is_trivia_exec(tokens[n].kind)
        invariant
            i <= n <= tokens@.len(),
            ts == views_of_tokens(tokens@),
            skip_trivia(ts, i as int) == skip_trivia(ts, n as int),
        decreases tokens@.len() - n,
    {
        proof {
            assert(ts[n as int] == tokens@[n as int]@);
        }
        n = n + 1;
    }
    proof {
        if n < tokens.len() {
            assert(ts[n as int] == tokens@[n as int]@);
        }
        lemma_skip_trivia(ts, i as int);
    }
    n
}

/// True when the next non-trivia token at or after `i` is the `let` keyword.
fn at_let(tokens: &[Token], i: usize) -> (b: bool)
    requires
        i <= tokens@.len(),
    ensures
        b == ({
            let ts = views_of_tokens(tokens@);
            let n = skip_trivia(ts, i as int);
            n < ts.len() && ts[n].kind == SyntaxKind::Let
        }),
{
    let n = skip_trivia_exec(tokens, i);
    proof {
        if n < tokens.len() {
            assert(views_of_tokens(tokens@)[n as int] == tokens@[n as int]@);
        }
    }
    n < tokens.len() && tokens[n].kind == SyntaxKind::Let
}

/// Collects the expected field tokens of one declaration, starting right
/// after its `let` keyword.
fn parse_fields_exec(tokens: &[Token], i: usize) -> (r: (Vec<SyntaxElement>, usize))
    requires
        i <= tokens@.len(),
    ensures
        is_token_list(r.0@, parse_fields(views_of_tokens(tokens@), i as int, 0).0),
        r.1 as int == parse_fields(views_of_tokens(tokens@), i as int, 0).1,
        i <= r.1 <= tokens@.len(),
{
    let ghost ts = views_of_tokens(tokens@);
    let mut out: Vec<SyntaxElement> = Vec::new();
    let ghost mut vs: Seq<TokenModel> = Seq::empty();
    let mut cur = i;
    let mut j: usize = 0;
    proof {
        assert(vs + parse_fields(ts, i as int, 0).0 =~= parse_fields(ts, i as int, 0).0);
    }
    while j < 6
        invariant
            i <= cur <= tokens@.len(),
            j <= 6,
            ts == views_of_tokens(tokens@),
            is_token_list(out@, vs),
            parse_fields(ts, i as int, 0).0 == vs + parse_fields(ts, cur as int, j as int).0,
            parse_fields(ts, i as int, 0).1 == parse_fields(ts, cur as int, j as int).1,
        decreases 6 - j,
    {
        let ghost pre_vs = vs;
        let ghost pre_cur = cur as int;
        let n = skip_trivia_exec(tokens, cur);
        let exp = expected_kind_exec(j);
        proof {
            if n < tokens.len() {
                assert(ts[n as int] == tokens@[n as int]@);
            }
        }
        if n < tokens.len() && (tokens[n].kind == exp || (j == 2 && tokens[n].kind
            == SyntaxKind::Ident)) {
            let tok = if j == 2 && tokens[n].kind == SyntaxKind::Ident {
                TokenData { kind: SyntaxKind::Type, text: tokens[n].text.clone() }
            } else {
                tokens[n].clone()
            };
            proof {
                let spec_tok = if j == 2 && ts[n as int].kind == SyntaxKind::Ident {
                    TokenModel { kind: SyntaxKind::Type, text: ts[n as int].text }
                } else {
                    ts[n as int]
                };
                assert(tok@ == spec_tok);
                assert(parse_fields(ts, pre_cur, j as int).0 == seq![spec_tok] + parse_fields(
                    ts,
                    n + 1,
                    j as int + 1,
                ).0);
                assert(pre_vs + (seq![spec_tok] + parse_fields(ts, n + 1, j as int + 1).0)
                    =~= pre_vs.push(spec_tok) + parse_fields(ts, n + 1, j as int + 1).0);
                vs = pre_vs.push(spec_tok);
            }
            out.push(SyntaxElement::Token(tok));
            cur = n + 1;
        } else {
            proof {
                assert(parse_fields(ts, pre_cur, j as int) == parse_fields(ts, pre_cur, j as int + 1));
            }
        }
        j = j + 1;
    }
    proof {
        assert(parse_fields(ts, cur as int, 6).0 =~= Seq::<TokenModel>::empty());
        assert(vs + Seq::<TokenModel>::empty() =~= vs);
        lemma_parse_fields_bounds(ts, i as int, 0);
    }
    (out, cur)
}

/// Groups the flat token stream into a tree: a synthetic `Root` node whose
/// children are the recognized `VarDecl` nodes, in source order. Trivia
/// between declaration parts and any trailing unrecognized tokens stay out
/// of the tree.
pub fn parse_tokens_to_cst(tokens: &[Token]) -> (root: SyntaxNode)
    ensures
        root.kind == SyntaxKind::Root,
        root.children@.len() == parse_decls(views_of_tokens(tokens@), 0).len(),
        forall|x: int|
            0 <= x < root.children@.len() ==> ((#[trigger] root.children@[x])
                matches SyntaxElement::Node(n) && n.kind == SyntaxKind::VarDecl && is_token_list(
                n.children@,
                parse_decls(views_of_tokens(tokens@), 0)[x],
            )),
{
    let ghost ts = views_of_tokens(tokens@);
    let mut decls: Vec<SyntaxElement> = Vec::new();
    let ghost mut done: Seq<Seq<TokenModel>> = Seq::empty();
    let mut i: usize = 0;
    proof {
        assert(done + parse_decls(ts, 0) =~= parse_decls(ts, 0));
    }
    while at_let(tokens, i)
        invariant
            i <= tokens@.len(),
            ts == views_of_tokens(tokens@),
            decls@.len() == done.len(),
            forall|x: int|
                0 <= x < decls@.len() ==> ((#[trigger] decls@[x]) matches SyntaxElement::Node(n)
                    && n.kind == SyntaxKind::VarDecl && is_token_list(n.children@, done[x])),
            parse_decls(ts, 0) == done + parse_decls(ts, i as int),
        decreases tokens@.len() - i,
    {
        let ghost pre_done = done;
        let ghost pre_i = i as int;
        let n = skip_trivia_exec(tokens, i);
        proof {
            assert(ts[n as int] == tokens@[n as int]@);
        }
        let mut children: Vec<SyntaxElement> = Vec::new();
        children.push(SyntaxElement::Token(tokens[n].clone()));
        let (mut flds, next) = parse_fields_exec(tokens, n + 1);
        let ghost flds_vs = parse_fields(ts, n + 1, 0).0;
        children.append(&mut flds);
        proof {
            assert(is_token_list(children@, seq![ts[n as int]] + flds_vs));
        }
        decls.push(
            SyntaxElement::Node(SyntaxNodeData { kind: SyntaxKind::VarDecl, children }),
        );
        i = next;
        proof {
            let decl_model = seq![ts[n as int]] + flds_vs;
            assert(parse_decls(ts, pre_i) == seq![decl_model] + parse_decls(ts, i as int));
            done = pre_done.push(decl_model);
            assert(pre_done + (seq![decl_model] + parse_decls(ts, i as int)) =~= done + parse_decls(
                ts,
                i as int,
            ));
            lemma_parse_fields_bounds(ts, n + 1, 0);
        }
    }
    proof {
        assert(parse_decls(ts, i as int) =~= Seq::<Seq<TokenModel>>::empty());
        assert(done + Seq::<Seq<TokenModel>>::empty() =~= done);
    }
    SyntaxNodeData::new(SyntaxKind::Root, decls)
}

// ---------------------------------------------------------------------------
// Lowering: from the tree to typed declaration records.
// ---------------------------------------------------------------------------

/// A typed declaration record: the abstract syntax carried by one `VarDecl`
/// node.
#[derive(Debug, PartialEq, Eq)]
pub struct VarDecl {
    pub name: String,
    pub ty: String,
    pub value: String,
}

impl Clone for VarDecl {
    fn clone(&self) -> (r: VarDecl)
        ensures
            r@ == self@,
    {
        VarDecl { name: self.name.clone(), ty: self.ty.clone(), value: self.value.clone() }
    }
}

/// The mathematical image of a declaration record.
pub ghost struct VarDeclModel {
    pub name: Seq<char>,
    pub ty: Seq<char>,
    pub value: Seq<char>,
}

impl View for VarDecl {
    type V = VarDeclModel;

    open spec fn view(&self) -> VarDeclModel {
        VarDeclModel { name: self.name@, ty: self.ty@, value: self.value@ }
    }
}

/// The views of a sequence of declaration records.
pub open spec fn views_of_decls(ds: Seq<VarDecl>) -> Seq<VarDeclModel> {
    ds.map_values(|d: VarDecl| d@)
}

/// Why lowering a declaration failed: the field whose token is missing from
/// the `VarDecl` node.
#[derive(Debug, Clone, Copy, PartialEq, Eq, Structural)]
pub enum LowerError {
    MissingName,
    MissingType,
    MissingValue,
}

/// The first token of the given kind among `m`, if any.
pub open spec fn first_of_kind(m: Seq<TokenModel>, k: SyntaxKind) -> Option<TokenModel>
    decreases m.len(),
{
    if m.len() == 0 {
        None
    } else if m[0].kind == k {
        Some(m[0])
    } else {
        first_of_kind(m.drop_first(), k)
    }
}

pub proof fn lemma_first_of_kind_push(m: Seq<TokenModel>, t: TokenModel, k: SyntaxKind)
    ensures
        first_of_kind(m.push(t), k) == (if first_of_kind(m, k) is Some {
            first_of_kind(m, k)
        } else if t.kind == k {
            Some(t)
        } else {
            None
        }),
    decreases m.len(),
{
    let m2 = m.push(t);
    if m.len() == 0 {
        assert(m2[0] == t);
        assert(first_of_kind(m, k) is None);
        if t.kind == k {
            assert(first_of_kind(m2, k) == Some(t));
        } else {
            assert(m2.drop_first().len() == 0);
            assert(first_of_kind(m2.drop_first(), k) is None);
            assert(first_of_kind(m2, k) is None);
        }
    } else {
        assert(m2[0] == m[0]);
        assert(m2.drop_first() =~= m.drop_first().push(t));
        lemma_first_of_kind_push(m.drop_first(), t, k);
        if m[0].kind == k {
            assert(first_of_kind(m2, k) == Some(m[0]));
            assert(first_of_kind(m, k) == Some(m[0]));
        } else {
            assert(first_of_kind(m2, k) == first_of_kind(m.drop_first().push(t), k));
            assert(first_of_kind(m, k) == first_of_kind(m.drop_first(), k));
        }
    }
}

/// What lowering one `VarDecl` node yields from its token views: the first
/// identifier, type and string-literal tokens give the record fields; the
/// first missing one of the three fails the declaration.
pub open spec fn lower_node_model(m: Seq<TokenModel>) -> Result<VarDeclModel, LowerError> {
    if first_of_kind(m, SyntaxKind::Ident) is None {
        Err(LowerError::MissingName)
    } else if first_of_kind(m, SyntaxKind::Type) is None {
        Err(LowerError::MissingType)
    } else if first_of_kind(m, SyntaxKind::StringLiteral) is None {
        Err(LowerError::MissingValue)
    } else {
        Ok(
            VarDeclModel {
                name: first_of_kind(m, SyntaxKind::Ident)->Some_0.text,
                ty: first_of_kind(m, SyntaxKind::Type)->Some_0.text,
                value: first_of_kind(m, SyntaxKind::StringLiteral)->Some_0.text,
            },
        )
    }
}

/// The view of one lowering outcome.
pub open spec fn lower_result_view(r: Result<VarDecl, LowerError>) -> Result<
    VarDeclModel,
    LowerError,
> {
    match r {
        Ok(d) => Ok(d@),
        Err(e) => Err(e),
    }
}

/// What lowering yields for each `VarDecl` node among `cs`, in order;
/// elements that are not `VarDecl` nodes contribute nothing.
pub open spec fn lower_model(cs: Seq<SyntaxElement>) -> Seq<Result<VarDeclModel, LowerError>>
    decreases cs.len(),
{
    if cs.len() == 0 {
        Seq::empty()
    } else {
        let rest = lower_model(cs.drop_last());
        match cs.last() {
            SyntaxElement::Node(n) => if n.kind == SyntaxKind::VarDecl {
                rest.push(lower_node_model(views_of_tokens(spec_tokens(n.children@))))
            } else {
                rest
            },
            SyntaxElement::Token(_) => rest,
        }
    }
}

/// Lowers one `VarDecl` node into a record, or reports which field is
/// missing.
fn lower_one(n: &SyntaxNodeData) -> (r: Result<VarDecl, LowerError>)
    ensures
        lower_result_view(r) == lower_node_model(views_of_tokens(spec_tokens(n.children@))),
{
    let mut name: Option<TokenData> = None;
    let mut ty: Option<TokenData> = None;
    let mut value: Option<TokenData> = None;
    let mut j: usize = 0;
    while j < n.children.len()
        invariant
            j <= n.children@.len(),
            option_matches(name, first_of_kind(
                views_of_tokens(spec_tokens(n.children@.take(j as int))),
                SyntaxKind::Ident,
            )),
            option_matches(ty, first_of_kind(
                views_of_tokens(spec_tokens(n.children@.take(j as int))),
                SyntaxKind::Type,
            )),
            option_matches(value, first_of_kind(
                views_of_tokens(spec_tokens(n.children@.take(j as int))),
                SyntaxKind::StringLiteral,
            )),
        decreases n.children@.len() - j,
    {
        let ghost pre = n.children@.take(j as int);
        let ghost pre_m = views_of_tokens(spec_tokens(pre));
        proof {
            assert(n.children@.take(j + 1).drop_last() =~= pre);
            assert(n.children@.take(j + 1).last() == n.children@[j as int]);
        }
        match &n.children[j] {
            SyntaxElement::Token(t) => {
                proof {
                    assert(views_of_tokens(spec_tokens(n.children@.take(j + 1))) =~= pre_m.push(
                        t@,
                    ));
                    lemma_first_of_kind_push(pre_m, t@, SyntaxKind::Ident);
                    lemma_first_of_kind_push(pre_m, t@, SyntaxKind::Type);
                    lemma_first_of_kind_push(pre_m, t@, SyntaxKind::StringLiteral);
                }
                if name.is_none() && t.kind == SyntaxKind::Ident {
                    name = Some(t.clone());
                }
                if ty.is_none() && t.kind == SyntaxKind::Type {
                    ty = Some(t.clone());
                }
                if value.is_none() && t.kind == SyntaxKind::StringLiteral {
                    value = Some(t.clone());
                }
            },
            SyntaxElement::Node(_) => {
                proof {
                    assert(spec_tokens(n.children@.take(j + 1)) =~= spec_tokens(pre));
                }
            },
        }
        j = j + 1;
    }
    proof {
        assert(n.children@.take(n.children@.len() as int) =~= n.children@);
    }
    match (name, ty, value) {
        (Some(nm), Some(t), Some(v)) => Ok(VarDecl { name: nm.text, ty: t.text, value: v.text }),
        (None, _, _) => Err(LowerError::MissingName),
        (_, None, _) => Err(LowerError::MissingType),
        (_, _, None) => Err(LowerError::MissingValue),
    }
}

/// An executable option holds a token exactly when the ghost option holds its
/// view.
pub open spec fn option_matches(o: Option<TokenData>, m: Option<TokenModel>) -> bool {
    match o {
        Some(t) => m == Some(t@),
        None => m is None,
    }
}

/// Projects every `VarDecl` node under `root` into a typed record, in order.
/// A declaration whose identifier, type or string-literal token is missing
/// fails on its own, with the missing field named; the others are unaffected.
pub fn lower_to_ast(root: &SyntaxNode) -> (r: Vec<Result<VarDecl, LowerError>>)
    ensures
        r@.len() == lower_model(root.children@).len(),
        forall|x: int|
            0 <= x < r@.len() ==> lower_result_view(#[trigger] r@[x]) == lower_model(
                root.children@,
            )[x],
{
    let mut r: Vec<Result<VarDecl, LowerError>> = Vec::new();
    let mut x: usize = 0;
    while x < root.children.len()
        invariant
            x <= root.children@.len(),
            r@.len() == lower_model(root.children@.take(x as int)).len(),
            forall|y: int|
                0 <= y < r@.len() ==> lower_result_view(#[trigger] r@[y]) == lower_model(
                    root.children@.take(x as int),
                )[y],
        decreases root.children@.len() - x,
    {
        let ghost pre = root.children@.take(x as int);
        proof {
            assert(root.children@.take(x + 1).drop_last() =~= pre);
            assert(root.children@.take(x + 1).last() == root.children@[x as int]);
        }
        match &root.children[x] {
            SyntaxElement::Node(n) => {
                if n.kind == SyntaxKind::VarDecl {
                    let d = lower_one(n);
                    r.push(d);
                }
            },
            SyntaxElement::Token(_) => {},
        }
        x = x + 1;
    }
    proof {
        assert(root.children@.take(root.children@.len() as int) =~= root.children@);
    }
    r
}

// ---------------------------------------------------------------------------
// Semantic checks and serialization.
// ---------------------------------------------------------------------------

/// A non-fatal finding about a lowered declaration.
#[derive(Debug, PartialEq, Eq)]
pub enum Diagnostic {
    /// The declared type is not the single supported type `string`.
    UnsupportedType { ty: String },
    /// The declared value is the empty string.
    EmptyValue { name: String },
}

/// The mathematical image of a diagnostic.
pub ghost enum DiagnosticModel {
    UnsupportedType { ty: Seq<char> },
    EmptyValue { name: Seq<char> },
}

impl View for Diagnostic {
    type V = DiagnosticModel;

    open spec fn view(&self) -> DiagnosticModel {
        match self {
            Diagnostic::UnsupportedType { ty } => DiagnosticModel::UnsupportedType { ty: ty@ },
            Diagnostic::EmptyValue { name } => DiagnosticModel::EmptyValue { name: name@ },
        }
    }
}

/// The views of a sequence of diagnostics.
pub open spec fn views_of_diags(ds: Seq<Diagnostic>) -> Seq<DiagnosticModel> {
    ds.map_values(|d: Diagnostic| d@)
}

/// The diagnostics one declaration earns: an unsupported-type finding when
/// its type is not `string`, then an empty-value finding when its value is
/// empty.
pub open spec fn diags_of_decl(d: VarDeclModel) -> Seq<DiagnosticModel> {
    (if d.ty != "string"@ {
        seq![DiagnosticModel::UnsupportedType { ty: d.ty }]
    } else {
        Seq::empty()
    }) + (if d.value.len() == 0 {
        seq![DiagnosticModel::EmptyValue { name: d.name }]
    } else {
        Seq::empty()
    })
}

/// The diagnostics of a batch of declarations, in declaration order.
pub open spec fn analyze_model(ds: Seq<VarDeclModel>) -> Seq<DiagnosticModel>
    decreases ds.len(),
{
    if ds.len() == 0 {
        Seq::empty()
    } else {
        analyze_model(ds.drop_last()) + diags_of_decl(ds.last())
    }
}

/// Checks every declaration and reports all findings: declarations with an
/// unsupported type or an empty value are reported but never dropped.
pub fn analyze(decls: &[VarDecl]) -> (r: Vec<Diagnostic>)
    ensures
        views_of_diags(r@) == analyze_model(views_of_decls(decls@)),
{
    let supported: String = "string".to_owned();
    let mut r: Vec<Diagnostic> = Vec::new();
    let mut i: usize = 0;
    proof {
        assert(views_of_decls(decls@.take(0)) =~= Seq::<VarDeclModel>::empty());
        assert(views_of_diags(r@) =~= Seq::<DiagnosticModel>::empty());
    }
    while i < decls.len()
        invariant
            i <= decls@.len(),
            supported@ == "string"@,
            views_of_diags(r@) == analyze_model(views_of_decls(decls@.take(i as int))),
        decreases decls@.len() - i,
    {
        let ghost pre = views_of_decls(decls@.take(i as int));
        let ghost pre_r = r@;
        let d = &decls[i];
        proof {
            assert(views_of_decls(decls@.take(i + 1)).drop_last() =~= pre);
            assert(views_of_decls(decls@.take(i + 1)).last() == decls@[i as int]@);
        }
        if !(d.ty == supported) {
            r.push(Diagnostic::UnsupportedType { ty: d.ty.clone() });
        }
        if d.value.as_str().is_empty() {
            r.push(Diagnostic::EmptyValue { name: d.name.clone() });
        }
        proof {
            assert(views_of_diags(r@) =~= pre_r.map_values(|x: Diagnostic| x@) + diags_of_decl(
                decls@[i as int]@,
            ));
            assert(views_of_diags(r@) =~= analyze_model(views_of_decls(decls@.take(i + 1))));
        }
        i = i + 1;
    }
    proof {
        assert(decls@.take(decls@.len() as int) =~= decls@);
    }
    r
}

/// One serialized entry: two spaces, the quoted name, a colon, the quoted
/// value, and a terminating comma.
pub open spec fn entry_model(d: VarDeclModel) -> Seq<char> {
    "  \""@ + d.name + "\": \""@ + d.value + "\",\n"@
}

/// The serialized entries of a batch, in order.
pub open spec fn entries_model(ds: Seq<VarDeclModel>) -> Seq<char>
    decreases ds.len(),
{
    if ds.len() == 0 {
        Seq::empty()
    } else {
        entries_model(ds.drop_last()) + entry_model(ds.last())
    }
}

/// The whole serialized output: the entries wrapped in braces, every entry
/// comma-terminated, the last one included.
pub open spec fn compile_model(ds: Seq<VarDeclModel>) -> Seq<char> {
    "{\n"@ + entries_model(ds) + "}"@
}

/// Renders the declaration records as the flat key/value text: one line per
/// record of the form `"name": "value",`, wrapped in braces. Values are
/// embedded verbatim, without any escaping.
pub fn compile(decls: &[VarDecl]) -> (out: String)
    ensures
        out@ == compile_model(views_of_decls(decls@)),
{
    let mut out: String = "{\n".to_owned();
    let mut i: usize = 0;
    proof {
        assert(views_of_decls(decls@.take(0)) =~= Seq::<VarDeclModel>::empty());
        assert(out@ =~= "{\n"@ + entries_model(views_of_decls(decls@.take(0))));
    }
    while i < decls.len()
        invariant
            i <= decls@.len(),
            out@ == "{\n"@ + entries_model(views_of_decls(decls@.take(i as int))),
        decreases decls@.len() - i,
    {
        let ghost pre = views_of_decls(decls@.take(i as int));
        let d = &decls[i];
        proof {
            assert(views_of_decls(decls@.take(i + 1)).drop_last() =~= pre);
            assert(views_of_decls(decls@.take(i + 1)).last() == decls@[i as int]@);
        }
        out.append("  \"");
        out.append(d.name.as_str());
        out.append("\": \"");
        out.append(d.value.as_str());
        out.append("\",\n");
        proof {
            assert(out@ =~= "{\n"@ + entries_model(views_of_decls(decls@.take(i + 1))));
        }
        i = i + 1;
    }
    out.push('}');
    proof {
        assert(decls@.take(decls@.len() as int) =~= decls@);
        reveal_strlit("}");
        assert(out@ =~= compile_model(views_of_decls(decls@)));
    }
    out
}


} // verus!
