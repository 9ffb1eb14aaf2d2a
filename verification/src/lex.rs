use vstd::prelude::*;

use crate::chars::{
    chars_to_string, is_alphabetic_char, is_alphanumeric_char, is_whitespace_char, str_to_chars,
};
use crate::kind::SyntaxKind;

verus! {

/// A value paired with the character offset at which it was found.
#[derive(Debug, PartialEq, Eq)]
pub struct Spanned<T> {
    pub token: T,
    pub offset: usize,
}

pub type Token = TokenData;

/// One lexical token: its category and the text it carries.
#[derive(Debug, PartialEq, Eq)]
pub struct TokenData {
    pub kind: SyntaxKind,
    pub text: String,
}

impl Clone for TokenData {
    fn clone(&self) -> (r: TokenData)
        ensures
            r@ == self@,
    {
        TokenData { kind: self.kind, text: self.text.clone() }
    }
}

/// The mathematical image of a token: its kind and its text as a
/// sequence of characters.
pub ghost struct TokenModel {
    pub kind: SyntaxKind,
    pub text: Seq<char>,
}

impl View for TokenData {
    type V = TokenModel;

    open spec fn view(&self) -> TokenModel {
        TokenModel { kind: self.kind, text: self.text@ }
    }
}

/// The views of a sequence of tokens.
pub open spec fn views_of_tokens(ts: Seq<TokenData>) -> Seq<TokenModel> {
    ts.map_values(|t: TokenData| t@)
}

// ---------------------------------------------------------------------------
// The operator matcher: a trie of registered character sequences, answering
// longest-prefix queries.
// ---------------------------------------------------------------------------

/// A node of the operator matcher: an optional token kind marking the end of
/// a registered sequence, and labelled edges to deeper nodes.
#[derive(Debug)]
struct TrieNode {
    kind: Option<SyntaxKind>,
    children: Vec<(char, TrieNode)>,
}

/// The subtree of `cs` reached along the first edge labelled `c`, if any.
spec fn find_child(cs: Seq<(char, TrieNode)>, c: char) -> Option<TrieNode>
    decreases cs.len(),
{
    if cs.len() == 0 {
        None
    } else if cs[0].0 == c {
        Some(cs[0].1)
    } else {
        find_child(cs.drop_first(), c)
    }
}

/// The kind registered under node `n` for the exact sequence `q.skip(i)`.
spec fn trie_lookup(n: TrieNode, q: Seq<char>, i: int) -> Option<SyntaxKind>
    decreases q.len() - i,
{
    if i < 0 || i > q.len() {
        None
    } else if i == q.len() {
        n.kind
    } else {
        match find_child(n.children@, q[i]) {
            Some(m) => trie_lookup(m, q, i + 1),
            None => None,
        }
    }
}

/// The longest match under node `n` against `s` from position `i`: the kind
/// of the deepest kind-carrying node reachable by following `s`, with the
/// number of characters consumed to reach it.
spec fn trie_match(n: TrieNode, s: Seq<char>, i: int) -> Option<(SyntaxKind, int)>
    decreases s.len() - i,
{
    let deeper = if 0 <= i < s.len() {
        match find_child(n.children@, s[i]) {
            Some(m) => match trie_match(m, s, i + 1) {
                Some(p) => Some((p.0, p.1 + 1)),
                None => None,
            },
            None => None,
        }
    } else {
        None
    };
    match deeper {
        Some(p) => Some(p),
        None => match n.kind {
            Some(k) => Some((k, 0)),
            None => None,
        },
    }
}

/// Every path below `n` has at most `d` edges.
spec fn depth_le(n: TrieNode, d: nat) -> bool
    decreases d,
{
    if d == 0 {
        n.children@.len() == 0
    } else {
        forall|k: int|
            0 <= k < n.children@.len() ==> depth_le(#[trigger] n.children@[k].1, (d - 1) as nat)
    }
}

proof fn lemma_find_child_at(cs: Seq<(char, TrieNode)>, j: int, c: char)
    requires
        0 <= j < cs.len(),
        cs[j].0 == c,
        forall|k: int| 0 <= k < j ==> (#[trigger] cs[k]).0 != c,
    ensures
        find_child(cs, c) == Some(cs[j].1),
    decreases j,
{
    if j > 0 {
        lemma_find_child_at(cs.drop_first(), j - 1, c);
    }
}

proof fn lemma_find_child_none(cs: Seq<(char, TrieNode)>, c: char)
    requires
        forall|k: int| 0 <= k < cs.len() ==> (#[trigger] cs[k]).0 != c,
    ensures
        find_child(cs, c) is None,
    decreases cs.len(),
{
    if cs.len() > 0 {
        lemma_find_child_none(cs.drop_first(), c);
    }
}

proof fn lemma_find_child_mem(cs: Seq<(char, TrieNode)>, c: char)
    requires
        find_child(cs, c) is Some,
    ensures
        exists|k: int|
            0 <= k < cs.len() && (#[trigger] cs[k]).0 == c && cs[k].1 == find_child(cs, c)->Some_0,
    decreases cs.len(),
{
    if cs.len() > 0 && cs[0].0 != c {
        lemma_find_child_mem(cs.drop_first(), c);
        let k0 = choose|k: int|
            0 <= k < cs.drop_first().len() && (#[trigger] cs.drop_first()[k]).0 == c
                && cs.drop_first()[k].1 == find_child(cs.drop_first(), c)->Some_0;
        assert(cs[k0 + 1] == cs.drop_first()[k0]);
    }
}

proof fn lemma_find_child_update(cs: Seq<(char, TrieNode)>, j: int, c: char, x: TrieNode)
    requires
        0 <= j < cs.len(),
        cs[j].0 == c,
        forall|k: int| 0 <= k < j ==> (#[trigger] cs[k]).0 != c,
    ensures
        find_child(cs.update(j, (c, x)), c) == Some(x),
        forall|c2: char| c2 != c ==> find_child(cs.update(j, (c, x)), c2) == find_child(cs, c2),
    decreases j,
{
    let cs2 = cs.update(j, (c, x));
    if j == 0 {
        assert(cs2[0] == (c, x));
        assert(find_child(cs2, c) == Some(x));
        assert forall|c2: char| c2 != c implies find_child(cs2, c2) == find_child(cs, c2) by {
            assert(cs2.drop_first() =~= cs.drop_first());
            assert(find_child(cs2, c2) == find_child(cs2.drop_first(), c2));
            assert(find_child(cs, c2) == find_child(cs.drop_first(), c2));
        }
    } else {
        assert forall|k: int| 0 <= k < j - 1 implies (#[trigger] cs.drop_first()[k]).0 != c by {
            assert(cs.drop_first()[k] == cs[k + 1]);
        }
        assert(cs.drop_first()[j - 1] == cs[j]);
        lemma_find_child_update(cs.drop_first(), j - 1, c, x);
        assert(cs2.drop_first() =~= cs.drop_first().update(j - 1, (c, x)));
        assert(cs2[0] == cs[0]);
        assert(cs[0].0 != c);
        assert(find_child(cs2, c) == find_child(cs2.drop_first(), c));
        assert forall|c2: char| c2 != c implies find_child(cs2, c2) == find_child(cs, c2) by {
            if cs[0].0 == c2 {
                assert(find_child(cs2, c2) == Some(cs2[0].1));
                assert(find_child(cs, c2) == Some(cs[0].1));
            } else {
                assert(find_child(cs2, c2) == find_child(cs2.drop_first(), c2));
                assert(find_child(cs, c2) == find_child(cs.drop_first(), c2));
            }
        }
    }
}

proof fn lemma_find_child_push(cs: Seq<(char, TrieNode)>, c: char, x: TrieNode)
    requires
        forall|k: int| 0 <= k < cs.len() ==> (#[trigger] cs[k]).0 != c,
    ensures
        find_child(cs.push((c, x)), c) == Some(x),
        forall|c2: char| c2 != c ==> find_child(cs.push((c, x)), c2) == find_child(cs, c2),
    decreases cs.len(),
{
    let cs2 = cs.push((c, x));
    if cs.len() == 0 {
        assert(cs2[0] == (c, x));
        assert(find_child(cs2, c) == Some(x));
        assert forall|c2: char| c2 != c implies find_child(cs2, c2) == find_child(cs, c2) by {
            assert(cs2.drop_first().len() == 0);
            assert(find_child(cs2, c2) == find_child(cs2.drop_first(), c2));
        }
    } else {
        assert forall|k: int| 0 <= k < cs.drop_first().len() implies (#[trigger] cs.drop_first()[
            k
        ]).0 != c by {
            assert(cs.drop_first()[k] == cs[k + 1]);
        }
        lemma_find_child_push(cs.drop_first(), c, x);
        assert(cs2.drop_first() =~= cs.drop_first().push((c, x)));
        assert(cs2[0] == cs[0]);
        assert(cs[0].0 != c);
        assert(find_child(cs2, c) == find_child(cs2.drop_first(), c));
        assert forall|c2: char| c2 != c implies find_child(cs2, c2) == find_child(cs, c2) by {
            if cs[0].0 == c2 {
                assert(find_child(cs2, c2) == Some(cs2[0].1));
                assert(find_child(cs, c2) == Some(cs[0].1));
            } else {
                assert(find_child(cs2, c2) == find_child(cs2.drop_first(), c2));
                assert(find_child(cs, c2) == find_child(cs.drop_first(), c2));
            }
        }
    }
}

/// `q.skip(i)` equals `p.skip(f)` exactly when the heads agree and the tails
/// (one position further) agree.
proof fn lemma_skip_unfold(q: Seq<char>, i: int, p: Seq<char>, f: int)
    requires
        0 <= i < q.len(),
        0 <= f < p.len(),
    ensures
        (q.skip(i) == p.skip(f)) <==> (q[i] == p[f] && q.skip(i + 1) == p.skip(f + 1)),
{
    if q.skip(i) == p.skip(f) {
        assert(q.skip(i)[0] == q[i]);
        assert(p.skip(f)[0] == p[f]);
        assert(q.skip(i + 1) =~= q.skip(i).drop_first());
        assert(p.skip(f + 1) =~= p.skip(f).drop_first());
    }
    if q[i] == p[f] && q.skip(i + 1) == p.skip(f + 1) {
        assert(q.skip(i) =~= p.skip(f)) by {
            assert(q.skip(i).len() == q.len() - i);
            assert(q.skip(i + 1).len() == p.skip(f + 1).len());
            assert forall|t: int| 0 <= t < q.skip(i).len() implies q.skip(i)[t] == p.skip(f)[t] by {
                if t > 0 {
                    assert(q.skip(i + 1)[t - 1] == q.skip(i)[t]);
                    assert(p.skip(f + 1)[t - 1] == p.skip(f)[t]);
                }
            }
        }
    }
}

impl TrieNode {
    /// A node with no kind and no edges.
    fn new() -> (r: TrieNode)
        ensures
            r.kind is None,
            r.children@.len() == 0,
    {
        TrieNode { kind: None, children: Vec::new() }
    }

    /// The position of the first edge labelled `c`, if any.
    fn find_child_index(&self, c: char) -> (r: Option<usize>)
        ensures
            match r {
                Some(j) => j < self.children@.len() && self.children@[j as int].0 == c
                    && (forall|k: int| 0 <= k < j ==> (#[trigger] self.children@[k]).0 != c),
                None => forall|k: int|
                    0 <= k < self.children@.len() ==> (#[trigger] self.children@[k]).0 != c,
            },
    {
        let mut j: usize = 0;
        while j < self.children.len()
            invariant
                j <= self.children@.len(),
                forall|k: int| 0 <= k < j ==> (#[trigger] self.children@[k]).0 != c,
            decreases self.children@.len() - j,
        {
            if self.children[j].0 == c {
                return Some(j);
            }
            j = j + 1;
        }
        None
    }

    /// Registers `sequence` as an operator of kind `kind`. A sequence that is
    /// a prefix of an already registered one (or the other way round) leaves
    /// both registered.
    fn insert(&mut self, sequence: &str, kind: SyntaxKind)
        ensures
            forall|q: Seq<char>, i: int|
                0 <= i <= q.len() ==> #[trigger] trie_lookup(*final(self), q, i) == (if q.skip(i)
                    == sequence@ {
                    Some(kind)
                } else {
                    trie_lookup(*old(self), q, i)
                }),
            forall|d: nat|
                depth_le(*old(self), d) && sequence@.len() <= d ==> #[trigger] depth_le(
                    *final(self),
                    d,
                ),
    {
        let chars = str_to_chars(sequence);
        self.insert_chars(&chars, 0, kind);
        proof {
            assert(chars@.skip(0) =~= sequence@);
        }
    }

    fn insert_chars(&mut self, chars: &Vec<char>, from: usize, kind: SyntaxKind)
        requires
            from <= chars@.len(),
        ensures
            forall|q: Seq<char>, i: int|
                0 <= i <= q.len() ==> #[trigger] trie_lookup(*final(self), q, i) == (if q.skip(i)
                    == chars@.skip(from as int) {
                    Some(kind)
                } else {
                    trie_lookup(*old(self), q, i)
                }),
            forall|d: nat|
                depth_le(*old(self), d) && chars@.len() - from <= d ==> #[trigger] depth_le(
                    *final(self),
                    d,
                ),
        decreases chars@.len() - from,
    {
        if from == chars.len() {
            self.kind = Some(kind);
            proof {
                assert forall|q: Seq<char>, i: int| 0 <= i <= q.len() implies #[trigger] trie_lookup(
                    *self,
                    q,
                    i,
                ) == (if q.skip(i) == chars@.skip(from as int) {
                    Some(kind)
                } else {
                    trie_lookup(*old(self), q, i)
                }) by {
                    assert(chars@.skip(from as int) =~= Seq::<char>::empty());
                    if i == q.len() {
                        assert(q.skip(i) =~= Seq::<char>::empty());
                    } else {
                        assert(q.skip(i).len() > 0);
                        lemma_lookup_same_below(*old(self), *self, q, i);
                    }
                }
                assert forall|d: nat| depth_le(*old(self), d) && chars@.len() - from <= d implies
                    #[trigger] depth_le(*self, d) by {
                    lemma_depth_same_children(*old(self), *self, d);
                }
            }
        } else {
            let c = chars[from];
            let ghost pre = *self;
            match self.find_child_index(c) {
                Some(j) => {
                    let (c0, mut child) = self.children.remove(j);
                    let ghost old_child = child;
                    child.insert_chars(chars, from + 1, kind);
                    let ghost new_child = child;
                    self.children.insert(j, (c0, child));
                    proof {
                        assert(c0 == c);
                        assert(pre.children@[j as int] == (c, old_child));
                        assert(self.children@ =~= pre.children@.update(j as int, (c, new_child)));
                        lemma_find_child_at(pre.children@, j as int, c);
                        lemma_find_child_update(pre.children@, j as int, c, new_child);
                        lemma_insert_step_lookup(
                            pre,
                            *self,
                            old_child,
                            new_child,
                            c,
                            chars@,
                            from as int,
                            kind,
                        );
                        lemma_insert_step_depth(
                            pre,
                            *self,
                            old_child,
                            new_child,
                            c,
                            chars@,
                            from as int,
                        );
                    }
                }
                None => {
                    let mut child = TrieNode::new();
                    let ghost old_child = child;
                    child.insert_chars(chars, from + 1, kind);
                    let ghost new_child = child;
                    self.children.push((c, child));
                    proof {
                        assert(self.children@ == pre.children@.push((c, new_child)));
                        lemma_find_child_push(pre.children@, c, new_child);
                        lemma_find_child_none(pre.children@, c);
                        lemma_fresh_lookup_none(
                            old_child,
                            chars@,
                            from as int + 1,
                            kind,
                            new_child,
                        );
                        lemma_insert_step_lookup_push(
                            pre,
                            *self,
                            new_child,
                            c,
                            chars@,
                            from as int,
                            kind,
                        );
                        lemma_insert_step_depth_push(
                            pre,
                            *self,
                            old_child,
                            new_child,
                            c,
                            chars@,
                            from as int,
                        );
                    }
                }
            }
        }
    }
}

/// Two nodes with the same children look up the same below the surface.
proof fn lemma_lookup_same_below(a: TrieNode, b: TrieNode, q: Seq<char>, i: int)
    requires
        a.children == b.children,
        0 <= i < q.len(),
    ensures
        trie_lookup(a, q, i) == trie_lookup(b, q, i),
{
}

proof fn lemma_depth_same_children(a: TrieNode, b: TrieNode, d: nat)
    requires
        a.children == b.children,
        depth_le(a, d),
    ensures
        depth_le(b, d),
    decreases d,
{
}

/// After an insertion into a fresh (empty) node, lookups hit only the newly
/// registered suffix.
proof fn lemma_fresh_lookup_none(fresh: TrieNode, p: Seq<char>, f: int, kind: SyntaxKind, post: TrieNode)
    requires
        fresh.kind is None,
        fresh.children@.len() == 0,
        0 <= f <= p.len(),
        forall|q: Seq<char>, i: int|
            0 <= i <= q.len() ==> #[trigger] trie_lookup(post, q, i) == (if q.skip(i) == p.skip(f) {
                Some(kind)
            } else {
                trie_lookup(fresh, q, i)
            }),
    ensures
        forall|q: Seq<char>, i: int|
            0 <= i <= q.len() ==> #[trigger] trie_lookup(post, q, i) == (if q.skip(i) == p.skip(f) {
                Some(kind)
            } else {
                None
            }),
{
    assert forall|q: Seq<char>, i: int| 0 <= i <= q.len() && q.skip(i) != p.skip(f) implies
        trie_lookup(fresh, q, i) is None by {
        if i < q.len() {
            lemma_find_child_none(fresh.children@, q[i]);
        }
    }
}

/// Lifts the recursive insertion postcondition through one updated edge.
proof fn lemma_insert_step_lookup(
    pre: TrieNode,
    post: TrieNode,
    old_child: TrieNode,
    new_child: TrieNode,
    c: char,
    p: Seq<char>,
    f: int,
    kind: SyntaxKind,
)
    requires
        0 <= f < p.len(),
        p[f] == c,
        post.kind == pre.kind,
        find_child(pre.children@, c) == Some(old_child),
        find_child(post.children@, c) == Some(new_child),
        forall|c2: char| c2 != c ==> find_child(post.children@, c2) == find_child(pre.children@, c2),
        forall|q: Seq<char>, i: int|
            0 <= i <= q.len() ==> #[trigger] trie_lookup(new_child, q, i) == (if q.skip(i) == p.skip(
                f + 1,
            ) {
                Some(kind)
            } else {
                trie_lookup(old_child, q, i)
            }),
    ensures
        forall|q: Seq<char>, i: int|
            0 <= i <= q.len() ==> #[trigger] trie_lookup(post, q, i) == (if q.skip(i) == p.skip(f) {
                Some(kind)
            } else {
                trie_lookup(pre, q, i)
            }),
{
    assert forall|q: Seq<char>, i: int| 0 <= i <= q.len() implies #[trigger] trie_lookup(post, q, i)
        == (if q.skip(i) == p.skip(f) {
        Some(kind)
    } else {
        trie_lookup(pre, q, i)
    }) by {
        if i == q.len() {
            assert(q.skip(i) =~= Seq::<char>::empty());
            assert(q.skip(i).len() == 0 && p.skip(f).len() > 0);
        } else {
            lemma_skip_unfold(q, i, p, f);
            if q[i] == c {
                assert(trie_lookup(post, q, i) == trie_lookup(new_child, q, i + 1));
                assert(trie_lookup(pre, q, i) == trie_lookup(old_child, q, i + 1));
            } else {
                assert(find_child(post.children@, q[i]) == find_child(pre.children@, q[i]));
                match find_child(pre.children@, q[i]) {
                    Some(m) => {
                        assert(trie_lookup(post, q, i) == trie_lookup(m, q, i + 1));
                        assert(trie_lookup(pre, q, i) == trie_lookup(m, q, i + 1));
                    },
                    None => {},
                }
            }
        }
    }
}

/// Lifts the recursive insertion postcondition through one freshly added edge.
proof fn lemma_insert_step_lookup_push(
    pre: TrieNode,
    post: TrieNode,
    new_child: TrieNode,
    c: char,
    p: Seq<char>,
    f: int,
    kind: SyntaxKind,
)
    requires
        0 <= f < p.len(),
        p[f] == c,
        post.kind == pre.kind,
        find_child(pre.children@, c) is None,
        find_child(post.children@, c) == Some(new_child),
        forall|c2: char| c2 != c ==> find_child(post.children@, c2) == find_child(pre.children@, c2),
        forall|q: Seq<char>, i: int|
            0 <= i <= q.len() ==> #[trigger] trie_lookup(new_child, q, i) == (if q.skip(i) == p.skip(
                f + 1,
            ) {
                Some(kind)
            } else {
                None
            }),
    ensures
        forall|q: Seq<char>, i: int|
            0 <= i <= q.len() ==> #[trigger] trie_lookup(post, q, i) == (if q.skip(i) == p.skip(f) {
                Some(kind)
            } else {
                trie_lookup(pre, q, i)
            }),
{
    assert forall|q: Seq<char>, i: int| 0 <= i <= q.len() implies #[trigger] trie_lookup(post, q, i)
        == (if q.skip(i) == p.skip(f) {
        Some(kind)
    } else {
        trie_lookup(pre, q, i)
    }) by {
        if i == q.len() {
            assert(q.skip(i) =~= Seq::<char>::empty());
            assert(q.skip(i).len() == 0 && p.skip(f).len() > 0);
        } else {
            lemma_skip_unfold(q, i, p, f);
            if q[i] == c {
                assert(trie_lookup(post, q, i) == trie_lookup(new_child, q, i + 1));
                assert(trie_lookup(pre, q, i) is None);
            } else {
                assert(find_child(post.children@, q[i]) == find_child(pre.children@, q[i]));
                match find_child(pre.children@, q[i]) {
                    Some(m) => {
                        assert(trie_lookup(post, q, i) == trie_lookup(m, q, i + 1));
                        assert(trie_lookup(pre, q, i) == trie_lookup(m, q, i + 1));
                    },
                    None => {},
                }
            }
        }
    }
}

/// Depth is preserved when one child is replaced by a child of bounded depth.
proof fn lemma_insert_step_depth(
    pre: TrieNode,
    post: TrieNode,
    old_child: TrieNode,
    new_child: TrieNode,
    c: char,
    p: Seq<char>,
    f: int,
)
    requires
        0 <= f < p.len(),
        exists|j: int|
            0 <= j < pre.children@.len() && (#[trigger] pre.children@[j]) == (c, old_child)
                && post.children@ == pre.children@.update(j, (c, new_child)),
        forall|d: nat|
            depth_le(old_child, d) && p.len() - (f + 1) <= d ==> #[trigger] depth_le(new_child, d),
    ensures
        forall|d: nat|
            depth_le(pre, d) && p.len() - f <= d ==> #[trigger] depth_le(post, d),
{
    let j = choose|j: int|
        0 <= j < pre.children@.len() && (#[trigger] pre.children@[j]) == (c, old_child)
            && post.children@ == pre.children@.update(j, (c, new_child));
    assert forall|d: nat| depth_le(pre, d) && p.len() - f <= d implies #[trigger] depth_le(post, d) by {
        assert(d >= 1);
        assert(pre.children@[j].1 == old_child);
        assert(depth_le(old_child, (d - 1) as nat));
        assert(depth_le(new_child, (d - 1) as nat));
        assert forall|k: int| 0 <= k < post.children@.len() implies depth_le(
            #[trigger] post.children@[k].1,
            (d - 1) as nat,
        ) by {
            if k != j {
                assert(post.children@[k] == pre.children@[k]);
            }
        }
    }
}

// ---------------------------------------------------------------------------
// The registered operator table, as a pure description of the trie that
// `build_operator_trie` sets up.
// ---------------------------------------------------------------------------

/// The single-character operators and their kinds.
pub open spec fn op_kind_1(c: char) -> Option<SyntaxKind> {
    if c == '=' {
        Some(SyntaxKind::Equal)
    } else if c == ':' {
        Some(SyntaxKind::Colon)
    } else if c == ';' {
        Some(SyntaxKind::Semicolon)
    } else if c == '\n' {
        Some(SyntaxKind::NewLine)
    } else {
        None
    }
}

/// The two-character operators and their kinds.
pub open spec fn op_kind_2(c1: char, c2: char) -> Option<SyntaxKind> {
    if c1 == '=' && c2 == '=' {
        Some(SyntaxKind::EqualEqual)
    } else if c1 == '=' && c2 == '>' {
        Some(SyntaxKind::FatArrow)
    } else if c1 == '=' && c2 == '<' {
        Some(SyntaxKind::EqualLess)
    } else if c1 == ':' && c2 == '=' {
        Some(SyntaxKind::ColonEqual)
    } else if c1 == ':' && c2 == ':' {
        Some(SyntaxKind::DoubleColon)
    } else {
        None
    }
}

/// The kind registered for the exact operator sequence `q`, if any.
pub open spec fn op_lookup(q: Seq<char>) -> Option<SyntaxKind> {
    if q.len() == 1 {
        op_kind_1(q[0])
    } else if q.len() == 2 {
        op_kind_2(q[0], q[1])
    } else {
        None
    }
}

/// The longest registered operator that is a prefix of `s` at position `i`:
/// a two-character operator wins over its one-character prefix.
pub open spec fn op_match(s: Seq<char>, i: int) -> Option<(SyntaxKind, int)> {
    if 0 <= i && i + 1 < s.len() && op_kind_2(s[i], s[i + 1]) is Some {
        Some((op_kind_2(s[i], s[i + 1])->Some_0, 2))
    } else if 0 <= i && i < s.len() && op_kind_1(s[i]) is Some {
        Some((op_kind_1(s[i])->Some_0, 1))
    } else {
        None
    }
}

/// Registers every operator of the language. The registered sequences are
/// exactly those that `op_lookup` knows, and none is longer than two
/// characters.
fn build_operator_trie() -> (root: TrieNode)
    ensures
        forall|q: Seq<char>| #[trigger] trie_lookup(root, q, 0) == op_lookup(q),
        depth_le(root, 2),
{
    let mut root = TrieNode::new();
    proof {
        assert(depth_le(root, 2));
        assert forall|q: Seq<char>| #[trigger] trie_lookup(root, q, 0) is None by {
            if q.len() > 0 {
                lemma_find_child_none(root.children@, q[0]);
            }
        }
    }
    root.insert("=", SyntaxKind::Equal);
    root.insert("==", SyntaxKind::EqualEqual);
    root.insert("=>", SyntaxKind::FatArrow);
    root.insert("=<", SyntaxKind::EqualLess);
    root.insert(":=", SyntaxKind::ColonEqual);
    root.insert(":", SyntaxKind::Colon);
    root.insert("::", SyntaxKind::DoubleColon);
    root.insert(";", SyntaxKind::Semicolon);
    root.insert("\n", SyntaxKind::NewLine);
    proof {
        reveal_strlit("=");
        reveal_strlit("==");
        reveal_strlit("=>");
        reveal_strlit("=<");
        reveal_strlit(":=");
        reveal_strlit(":");
        reveal_strlit("::");
        reveal_strlit(";");
        reveal_strlit("\n");
        assert forall|q: Seq<char>| #[trigger] trie_lookup(root, q, 0) == op_lookup(q) by {
            assert(q.skip(0) =~= q);
            if q.len() == 1 {
                if q[0] == '=' {
                    assert(q =~= "="@);
                } else if q[0] == ':' {
                    assert(q =~= ":"@);
                } else if q[0] == ';' {
                    assert(q =~= ";"@);
                } else if q[0] == '\n' {
                    assert(q =~= "\n"@);
                }
            } else if q.len() == 2 {
                if q[0] == '=' && q[1] == '=' {
                    assert(q =~= "=="@);
                } else if q[0] == '=' && q[1] == '>' {
                    assert(q =~= "=>"@);
                } else if q[0] == '=' && q[1] == '<' {
                    assert(q =~= "=<"@);
                } else if q[0] == ':' && q[1] == '=' {
                    assert(q =~= ":="@);
                } else if q[0] == ':' && q[1] == ':' {
                    assert(q =~= "::"@);
                }
            }
        }
    }
    root
}

/// In a trie of depth at most two whose registered sequences are exactly the
/// operator table, the longest-prefix walk agrees with `op_match`.
proof fn lemma_trie_match_is_op_match(n: TrieNode, s: Seq<char>, i: int)
    requires
        0 <= i <= s.len(),
        depth_le(n, 2),
        forall|q: Seq<char>| #[trigger] trie_lookup(n, q, 0) == op_lookup(q),
    ensures
        trie_match(n, s, i) == op_match(s, i),
{
    assert(trie_lookup(n, Seq::<char>::empty(), 0) == op_lookup(Seq::<char>::empty()));
    assert(n.kind is None);
    if i == s.len() {
        assert(trie_match(n, s, i) is None);
    } else {
        let c1 = s[i];
        let q1 = seq![c1];
        assert(trie_lookup(n, q1, 0) == op_kind_1(c1));
        match find_child(n.children@, c1) {
            None => {
                assert(trie_lookup(n, q1, 0) is None);
                if i + 1 < s.len() {
                    let q2 = seq![c1, s[i + 1]];
                    assert(q2[0] == c1);
                    assert(trie_lookup(n, q2, 0) == op_kind_2(c1, s[i + 1]));
                    assert(trie_lookup(n, q2, 0) is None);
                }
                assert(trie_match(n, s, i) is None);
            },
            Some(m) => {
                lemma_find_child_mem(n.children@, c1);
                let k1 = choose|k: int|
                    0 <= k < n.children@.len() && (#[trigger] n.children@[k]).0 == c1
                        && n.children@[k].1 == find_child(n.children@, c1)->Some_0;
                assert(n.children@[k1].1 == m);
                assert(depth_le(m, 1));
                assert(q1[0] == c1);
                assert(trie_lookup(n, q1, 0) == trie_lookup(m, q1, 1));
                assert(trie_lookup(m, q1, 1) == m.kind);
                assert(m.kind == op_kind_1(c1));
                if i + 1 == s.len() {
                    assert(trie_match(m, s, i + 1) == (match m.kind {
                        Some(k) => Some((k, 0int)),
                        None => None,
                    }));
                } else {
                    let c2 = s[i + 1];
                    let q2 = seq![c1, c2];
                    assert(q2[0] == c1 && q2[1] == c2);
                    assert(trie_lookup(n, q2, 0) == op_kind_2(c1, c2));
                    assert(trie_lookup(n, q2, 0) == trie_lookup(m, q2, 1));
                    match find_child(m.children@, c2) {
                        None => {
                            assert(trie_lookup(m, q2, 1) is None);
                            assert(op_kind_2(c1, c2) is None);
                            assert(trie_match(m, s, i + 1) == (match m.kind {
                                Some(k) => Some((k, 0int)),
                                None => None,
                            }));
                        },
                        Some(g) => {
                            lemma_find_child_mem(m.children@, c2);
                            let k2 = choose|k: int|
                                0 <= k < m.children@.len() && (#[trigger] m.children@[k]).0 == c2
                                    && m.children@[k].1 == find_child(m.children@, c2)->Some_0;
                            assert(m.children@[k2].1 == g);
                            assert(depth_le(g, 0));
                            assert(trie_lookup(m, q2, 1) == trie_lookup(g, q2, 2));
                            assert(trie_lookup(g, q2, 2) == g.kind);
                            assert(g.kind == op_kind_2(c1, c2));
                            if i + 2 < s.len() {
                                assert(find_child(g.children@, s[i + 2]) is None);
                            }
                            assert(trie_match(g, s, i + 2) == (match g.kind {
                                Some(k) => Some((k, 0int)),
                                None => None,
                            }));
                        },
                    }
                }
            },
        }
    }
}

// ---------------------------------------------------------------------------
// Character classes and maximal runs.
// ---------------------------------------------------------------------------

/// Horizontal whitespace: whitespace other than the newline character.
pub open spec fn is_ws_char(c: char) -> bool {
    is_whitespace_char(c) && c != '\n'
}

/// A character that may start an identifier.
pub open spec fn is_ident_start(c: char) -> bool {
    is_alphabetic_char(c)
}

/// A character that may continue an identifier.
pub open spec fn is_ident_part(c: char) -> bool {
    is_alphanumeric_char(c) || c == '_'
}

/// The end of the maximal run of characters satisfying `pred`, starting at
/// `i`: the first position at or after `i` whose character fails `pred`, or
/// the end of the input.
pub open spec fn run_end(s: Seq<char>, i: int, pred: spec_fn(char) -> bool) -> int
    decreases s.len() - i,
{
    if i < 0 || i >= s.len() {
        i
    } else if pred(s[i]) {
        run_end(s, i + 1, pred)
    } else {
        i
    }
}

pub open spec fn ws_pred() -> spec_fn(char) -> bool {
    |c: char| is_ws_char(c)
}

pub open spec fn ident_pred() -> spec_fn(char) -> bool {
    |c: char| is_ident_part(c)
}

pub open spec fn not_quote_pred() -> spec_fn(char) -> bool {
    |c: char| c != '"'
}

pub proof fn lemma_run_end(s: Seq<char>, i: int, pred: spec_fn(char) -> bool)
    requires
        0 <= i <= s.len(),
    ensures
        i <= run_end(s, i, pred) <= s.len(),
        forall|j: int| i <= j < run_end(s, i, pred) ==> pred(s[j]),
        run_end(s, i, pred) < s.len() ==> !pred(s[run_end(s, i, pred)]),
    decreases s.len() - i,
{
    if i < s.len() && pred(s[i]) {
        lemma_run_end(s, i + 1, pred);
    }
}

// ---------------------------------------------------------------------------
// The scanner model: what one step of the scan produces, and the whole token
// stream.
// ---------------------------------------------------------------------------

/// The keyword classification of a maximal identifier run.
pub open spec fn keyword_kind(text: Seq<char>) -> SyntaxKind {
    if text == seq!['l', 'e', 't'] {
        SyntaxKind::Let
    } else if text == seq!['s', 't', 'r', 'i', 'n', 'g'] {
        SyntaxKind::Type
    } else {
        SyntaxKind::Ident
    }
}

/// One step of the scan at position `i`: the token produced and the position
/// after it. The sub-lexers apply in a fixed priority order: operators (by
/// longest match), horizontal whitespace, identifiers and keywords, string
/// literals, and a one-character error fallback.
pub open spec fn scan_token(s: Seq<char>, i: int) -> (TokenModel, int)
    recommends
        0 <= i < s.len(),
{
    match op_match(s, i) {
        Some(p) => (TokenModel { kind: p.0, text: s.subrange(i, i + p.1) }, i + p.1),
        None => {
            let c = s[i];
            if is_ws_char(c) {
                let e = run_end(s, i, ws_pred());
                (TokenModel { kind: SyntaxKind::Whitespace, text: s.subrange(i, e) }, e)
            } else if is_ident_start(c) {
                let e = run_end(s, i + 1, ident_pred());
                (TokenModel { kind: keyword_kind(s.subrange(i, e)), text: s.subrange(i, e) }, e)
            } else if c == '"' {
                let e = run_end(s, i + 1, not_quote_pred());
                if e < s.len() {
                    (TokenModel { kind: SyntaxKind::StringLiteral, text: s.subrange(i + 1, e) },
                    e + 1)
                } else {
                    (TokenModel { kind: SyntaxKind::Error, text: s.subrange(i + 1, e) }, e)
                }
            } else {
                (TokenModel { kind: SyntaxKind::Error, text: s.subrange(i, i + 1) }, i + 1)
            }
        },
    }
}

/// Every step of the scan consumes at least one character and stays within
/// the input.
pub proof fn lemma_scan_progress(s: Seq<char>, i: int)
    requires
        0 <= i < s.len(),
    ensures
        i < scan_token(s, i).1 <= s.len(),
{
    lemma_run_end(s, i, ws_pred());
    lemma_run_end(s, i + 1, ident_pred());
    lemma_run_end(s, i + 1, not_quote_pred());
    if op_match(s, i) is None && is_ws_char(s[i]) {
        assert(run_end(s, i, ws_pred()) == run_end(s, i + 1, ws_pred()));
        lemma_run_end(s, i + 1, ws_pred());
    }
}

/// The full token stream of `s` from position `i` on.
pub open spec fn lex_model(s: Seq<char>, i: int) -> Seq<TokenModel>
    decreases s.len() - i
        when 0 <= i <= s.len()
        via lex_model_dec
{
    if i >= s.len() {
        Seq::empty()
    } else {
        seq![scan_token(s, i).0] + lex_model(s, scan_token(s, i).1)
    }
}

#[via_fn]
proof fn lex_model_dec(s: Seq<char>, i: int) {
    if 0 <= i < s.len() {
        lemma_scan_progress(s, i);
    }
}

/// The input text reassembled from the emitted tokens.
pub open spec fn concat_texts(ts: Seq<TokenModel>) -> Seq<char>
    decreases ts.len(),
{
    if ts.len() == 0 {
        Seq::empty()
    } else {
        ts[0].text + concat_texts(ts.drop_first())
    }
}

/// Lossless scanning: on input without a double-quote character (so without
/// string literals, whose tokens carry their text with the delimiting quotes
/// stripped), concatenating the text of every emitted token reproduces the
/// input exactly.
pub proof fn lemma_lossless_scan(s: Seq<char>)
    requires
        forall|i: int| 0 <= i < s.len() ==> s[i] != '"',
    ensures
        concat_texts(lex_model(s, 0)) == s,
{
    lemma_lossless_scan_from(s, 0);
    assert(s.skip(0) =~= s);
}

proof fn lemma_lossless_scan_from(s: Seq<char>, i: int)
    requires
        0 <= i <= s.len(),
        forall|j: int| 0 <= j < s.len() ==> s[j] != '"',
    ensures
        concat_texts(lex_model(s, i)) == s.skip(i),
    decreases s.len() - i,
{
    if i >= s.len() {
        assert(s.skip(i) =~= Seq::<char>::empty());
    } else {
        lemma_scan_progress(s, i);
        let (t, next) = scan_token(s, i);
        lemma_run_end(s, i, ws_pred());
        lemma_run_end(s, i + 1, ident_pred());
        assert(t.text == s.subrange(i, next));
        lemma_lossless_scan_from(s, next);
        let ts = lex_model(s, i);
        assert(ts[0] == t);
        assert(ts.drop_first() =~= lex_model(s, next));
        assert(s.subrange(i, next) + s.skip(next) =~= s.skip(i));
    }
}

// ---------------------------------------------------------------------------
// The executable sub-lexers.
// ---------------------------------------------------------------------------

/// Walks the trie along `chars` from position `i`, reporting the deepest
/// kind-carrying node and how many characters lead to it.
fn lex_operator_from(n: &TrieNode, chars: &Vec<char>, i: usize) -> (r: Option<(SyntaxKind, usize)>)
    requires
        i <= chars@.len(),
    ensures
        match r {
            None => trie_match(*n, chars@, i as int) is None,
            Some(p) => trie_match(*n, chars@, i as int) == Some((p.0, p.1 as int)) && p.1 <= chars@
                .len() - i,
        },
    decreases chars@.len() - i,
{
    let deeper: Option<(SyntaxKind, usize)> = if i < chars.len() {
        match n.find_child_index(chars[i]) {
            Some(j) => {
                proof {
                    lemma_find_child_at(n.children@, j as int, chars@[i as int]);
                }
                match lex_operator_from(&n.children[j].1, chars, i + 1) {
                    Some(p) => Some((p.0, p.1 + 1)),
                    None => None,
                }
            },
            None => {
                proof {
                    lemma_find_child_none(n.children@, chars@[i as int]);
                }
                None
            },
        }
    } else {
        None
    };
    match deeper {
        Some(p) => Some(p),
        None => match n.kind {
            Some(k) => Some((k, 0)),
            None => None,
        },
    }
}

/// Longest-match operator lexing via the trie: returns the operator token at
/// `i` and the position after it, or nothing when no registered operator
/// starts at `i`.
fn lex_operator(trie: &TrieNode, chars: &Vec<char>, i: usize) -> (r: Option<(TokenData, usize)>)
    requires
        i < chars@.len(),
        depth_le(*trie, 2),
        forall|q: Seq<char>| #[trigger] trie_lookup(*trie, q, 0) == op_lookup(q),
    ensures
        match r {
            None => op_match(chars@, i as int) is None,
            Some(p) => op_match(chars@, i as int) == Some((p.0@.kind, p.1 - i)) && p.0@.text
                == chars@.subrange(i as int, p.1 as int) && i < p.1 <= chars@.len(),
        },
{
    proof {
        lemma_trie_match_is_op_match(*trie, chars@, i as int);
    }
    match lex_operator_from(trie, chars, i) {
        Some((k, l)) => {
            let n = chars.len();
            proof {
                assert(i + l <= n);
            }
            let text = chars_to_string(chars, i, i + l);
            Some((TokenData { kind: k, text }, i + l))
        },
        None => None,
    }
}

/// True when the character at `e` is horizontal whitespace.
fn is_ws_at(chars: &Vec<char>, e: usize) -> (b: bool)
    requires
        e < chars@.len(),
    ensures
        b == is_ws_char(chars@[e as int]),
{
    let c = chars[e];
    c.is_whitespace() && c != '\n'
}

/// True when the character at `e` may continue an identifier.
fn is_ident_part_at(chars: &Vec<char>, e: usize) -> (b: bool)
    requires
        e < chars@.len(),
    ensures
        b == is_ident_part(chars@[e as int]),
{
    let c = chars[e];
    c.is_alphanumeric() || c == '_'
}

/// True when the character at `e` is not a double quote.
fn is_not_quote_at(chars: &Vec<char>, e: usize) -> (b: bool)
    requires
        e < chars@.len(),
    ensures
        b == (chars@[e as int] != '"'),
{
    chars[e] != '"'
}

fn run_end_ws(chars: &Vec<char>, i: usize) -> (e: usize)
    requires
        i <= chars@.len(),
    ensures
        e == run_end(chars@, i as int, ws_pred()),
        i <= e <= chars@.len(),
{
    let mut e = i;
    while e < chars.len() && is_ws_at(chars, e)
        invariant
            i <= e <= chars@.len(),
            run_end(chars@, i as int, ws_pred()) == run_end(chars@, e as int, ws_pred()),
        decreases chars@.len() - e,
    {
        e = e + 1;
    }
    proof {
        lemma_run_end(chars@, i as int, ws_pred());
    }
    e
}

pub(crate) fn run_end_ident(chars: &Vec<char>, i: usize) -> (e: usize)
    requires
        i <= chars@.len(),
    ensures
        e == run_end(chars@, i as int, ident_pred()),
        i <= e <= chars@.len(),
{
    let mut e = i;
    while e < chars.len() && is_ident_part_at(chars, e)
        invariant
            i <= e <= chars@.len(),
            run_end(chars@, i as int, ident_pred()) == run_end(chars@, e as int, ident_pred()),
        decreases chars@.len() - e,
    {
        e = e + 1;
    }
    proof {
        lemma_run_end(chars@, i as int, ident_pred());
    }
    e
}

pub(crate) fn run_end_not_quote(chars: &Vec<char>, i: usize) -> (e: usize)
    requires
        i <= chars@.len(),
    ensures
        e == run_end(chars@, i as int, not_quote_pred()),
        i <= e <= chars@.len(),
{
    let mut e = i;
    while e < chars.len() && is_not_quote_at(chars, e)
        invariant
            i <= e <= chars@.len(),
            run_end(chars@, i as int, not_quote_pred()) == run_end(
                chars@,
                e as int,
                not_quote_pred(),
            ),
        decreases chars@.len() - e,
    {
        e = e + 1;
    }
    proof {
        lemma_run_end(chars@, i as int, not_quote_pred());
    }
    e
}

/// Lexes a maximal run of horizontal whitespace into one token.
fn lex_whitespace(chars: &Vec<char>, i: usize) -> (r: Option<(TokenData, usize)>)
    requires
        i < chars@.len(),
    ensures
        match r {
            None => !is_ws_char(chars@[i as int]),
            Some(p) => is_ws_char(chars@[i as int]) && p.1 == run_end(chars@, i as int, ws_pred())
                && p.0@.kind == SyntaxKind::Whitespace && p.0@.text == chars@.subrange(
                i as int,
                p.1 as int,
            ) && i < p.1 <= chars@.len(),
        },
{
    if !is_ws_at(chars, i) {
        return None;
    }
    let e = run_end_ws(chars, i);
    proof {
        lemma_run_end(chars@, i as int + 1, ws_pred());
    }
    let text = chars_to_string(chars, i, e);
    Some((TokenData { kind: SyntaxKind::Whitespace, text }, e))
}

/// Lexes a maximal alphanumeric-or-underscore run starting with an alphabetic
/// character, reclassifying the reserved words `let` and `string`.
fn lex_ident_or_keyword(chars: &Vec<char>, i: usize) -> (r: Option<(TokenData, usize)>)
    requires
        i < chars@.len(),
    ensures
        match r {
            None => !is_ident_start(chars@[i as int]),
            Some(p) => is_ident_start(chars@[i as int]) && p.1 == run_end(
                chars@,
                i as int + 1,
                ident_pred(),
            ) && p.0@.kind == keyword_kind(chars@.subrange(i as int, p.1 as int)) && p.0@.text
                == chars@.subrange(i as int, p.1 as int) && i < p.1 <= chars@.len(),
        },
{
    let c = chars[i];
    if !c.is_alphabetic() {
        return None;
    }
    let n = chars.len();
    proof {
        assert(i + 1 <= n);
    }
    let e = run_end_ident(chars, i + 1);
    let text = chars_to_string(chars, i, e);
    let kind = keyword_classify(chars, i, e);
    Some((TokenData { kind, text }, e))
}

/// Reclassifies a maximal identifier run as a keyword when it matches a
/// reserved word exactly.
pub(crate) fn keyword_classify(chars: &Vec<char>, i: usize, e: usize) -> (k: SyntaxKind)
    requires
        i <= e <= chars@.len(),
    ensures
        k == keyword_kind(chars@.subrange(i as int, e as int)),
{
    let ghost t = chars@.subrange(i as int, e as int);
    if e - i == 3 && chars[i] == 'l' && chars[i + 1] == 'e' && chars[i + 2] == 't' {
        proof {
            assert(t =~= seq!['l', 'e', 't']);
        }
        SyntaxKind::Let
    } else if e - i == 6 && chars[i] == 's' && chars[i + 1] == 't' && chars[i + 2] == 'r' && chars[i
        + 3] == 'i' && chars[i + 4] == 'n' && chars[i + 5] == 'g' {
        proof {
            assert(t =~= seq!['s', 't', 'r', 'i', 'n', 'g']);
        }
        SyntaxKind::Type
    } else {
        proof {
            if t == seq!['l', 'e', 't'] {
                assert(t.len() == 3 && t[0] == 'l' && t[1] == 'e' && t[2] == 't');
                assert(chars@[i as int] == 'l');
                assert(false);
            }
            if t == seq!['s', 't', 'r', 'i', 'n', 'g'] {
                assert(t.len() == 6 && t[0] == 's' && t[1] == 't' && t[2] == 'r' && t[3] == 'i'
                    && t[4] == 'n' && t[5] == 'g');
                assert(false);
            }
        }
        SyntaxKind::Ident
    }
}

/// Lexes a string literal: the characters between the opening quote and the
/// closing quote, verbatim. When the input ends before a closing quote the
/// collected content is emitted as an error token.
fn lex_string_literal(chars: &Vec<char>, i: usize) -> (r: Option<(TokenData, usize)>)
    requires
        i < chars@.len(),
    ensures
        match r {
            None => chars@[i as int] != '"',
            Some(p) => {
                let e = run_end(chars@, i as int + 1, not_quote_pred());
                chars@[i as int] == '"' && p.0@.text == chars@.subrange(i as int + 1, e) && (if e
                    < chars@.len() {
                    p.0@.kind == SyntaxKind::StringLiteral && p.1 == e + 1
                } else {
                    p.0@.kind == SyntaxKind::Error && p.1 == e
                }) && i < p.1 <= chars@.len()
            },
        },
{
    if chars[i] != '"' {
        return None;
    }
    let n = chars.len();
    proof {
        assert(i + 1 <= n);
    }
    let e = run_end_not_quote(chars, i + 1);
    let text = chars_to_string(chars, i + 1, e);
    if e < chars.len() {
        Some((TokenData { kind: SyntaxKind::StringLiteral, text }, e + 1))
    } else {
        Some((TokenData { kind: SyntaxKind::Error, text }, e))
    }
}

/// One scanner step: tries the sub-lexers in priority order; the fallback
/// turns a single unrecognized character into an error token.
fn scan_one(trie: &TrieNode, chars: &Vec<char>, i: usize) -> (r: (TokenData, usize))
    requires
        i < chars@.len(),
        depth_le(*trie, 2),
        forall|q: Seq<char>| #[trigger] trie_lookup(*trie, q, 0) == op_lookup(q),
    ensures
        r.0@ == scan_token(chars@, i as int).0,
        r.1 == scan_token(chars@, i as int).1,
        i < r.1 <= chars@.len(),
{
    if let Some(p) = lex_operator(trie, chars, i) {
        return p;
    }
    if let Some(p) = lex_whitespace(chars, i) {
        return p;
    }
    if let Some(p) = lex_ident_or_keyword(chars, i) {
        return p;
    }
    if let Some(p) = lex_string_literal(chars, i) {
        return p;
    }
    let n = chars.len();
    proof {
        assert(i + 1 <= n);
    }
    let text = chars_to_string(chars, i, i + 1);
    (TokenData { kind: SyntaxKind::Error, text }, i + 1)
}

/// The table-driven scanner: converts the source text into an ordered token
/// stream, dispatching at each position to the sub-lexers in priority order.
/// Scanning always terminates, never fails, and emits at least one token on
/// nonempty input.
pub fn table_lex(source: &str) -> (tokens: Vec<Token>)
    ensures
        views_of_tokens(tokens@) == lex_model(source@, 0),
        source@.len() > 0 ==> tokens@.len() > 0,
{
    let chars = str_to_chars(source);
    let trie = build_operator_trie();
    let mut tokens: Vec<Token> = Vec::new();
    let mut i: usize = 0;
    while i < chars.len()
        invariant
            chars@ == source@,
            i <= chars@.len(),
            depth_le(trie, 2),
            forall|q: Seq<char>| #[trigger] trie_lookup(trie, q, 0) == op_lookup(q),
            views_of_tokens(tokens@) + lex_model(chars@, i as int) == lex_model(chars@, 0),
            tokens@.len() > 0 <==> i > 0,
        decreases chars@.len() - i,
    {
        let ghost pre_tokens = tokens@;
        let ghost pre_i = i as int;
        let (tok, next) = scan_one(&trie, &chars, i);
        tokens.push(tok);
        i = next;
        proof {
            assert(views_of_tokens(tokens@) =~= views_of_tokens(pre_tokens) + seq![tok@]);
            assert(lex_model(chars@, pre_i) == seq![tok@] + lex_model(chars@, i as int));
            assert((views_of_tokens(pre_tokens) + seq![tok@]) + lex_model(chars@, i as int)
                =~= views_of_tokens(pre_tokens) + (seq![tok@] + lex_model(chars@, i as int)));
        }
    }
    proof {
        assert(lex_model(chars@, i as int) =~= Seq::<TokenModel>::empty());
        assert(views_of_tokens(tokens@) + Seq::<TokenModel>::empty() =~= views_of_tokens(tokens@));
    }
    tokens
}

/// Depth grows to cover a freshly pushed chain of bounded depth.
proof fn lemma_insert_step_depth_push(
    pre: TrieNode,
    post: TrieNode,
    fresh: TrieNode,
    new_child: TrieNode,
    c: char,
    p: Seq<char>,
    f: int,
)
    requires
        0 <= f < p.len(),
        fresh.kind is None,
        fresh.children@.len() == 0,
        post.children@ == pre.children@.push((c, new_child)),
        forall|d: nat|
            depth_le(fresh, d) && p.len() - (f + 1) <= d ==> #[trigger] depth_le(new_child, d),
    ensures
        forall|d: nat|
            depth_le(pre, d) && p.len() - f <= d ==> #[trigger] depth_le(post, d),
{
    assert forall|d: nat| depth_le(pre, d) && p.len() - f <= d implies #[trigger] depth_le(post, d) by {
        assert(d >= 1);
        assert(depth_le(fresh, (d - 1) as nat));
        assert(depth_le(new_child, (d - 1) as nat));
        assert forall|k: int| 0 <= k < post.children@.len() implies depth_le(
            #[trigger] post.children@[k].1,
            (d - 1) as nat,
        ) by {
            if k < pre.children@.len() {
                assert(post.children@[k] == pre.children@[k]);
                assert(depth_le(pre, d));
            }
        }
    }
}

} // verus!
