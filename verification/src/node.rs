use vstd::prelude::*;

use crate::kind::SyntaxKind;
use crate::lex::Token;

verus! {

/// One element of the concrete syntax tree: a leaf token or an interior node.
#[derive(Debug)]
pub enum SyntaxElement {
    Token(Token),
    Node(SyntaxNode),
}

pub type SyntaxNode = SyntaxNodeData;

/// An interior node of the concrete syntax tree: a structural kind and the
/// ordered elements below it.
#[derive(Debug)]
pub struct SyntaxNodeData {
    pub kind: SyntaxKind,
    pub children: Vec<SyntaxElement>,
}

/// The tokens among `cs`, in order, with interior nodes left out.
pub open spec fn spec_tokens(cs: Seq<SyntaxElement>) -> Seq<Token>
    decreases cs.len(),
{
    if cs.len() == 0 {
        Seq::empty()
    } else {
        match cs.last() {
            SyntaxElement::Token(t) => spec_tokens(cs.drop_last()).push(t),
            SyntaxElement::Node(_) => spec_tokens(cs.drop_last()),
        }
    }
}

/// The interior nodes among `cs`, in order, with tokens left out.
pub open spec fn spec_child_nodes(cs: Seq<SyntaxElement>) -> Seq<SyntaxNodeData>
    decreases cs.len(),
{
    if cs.len() == 0 {
        Seq::empty()
    } else {
        match cs.last() {
            SyntaxElement::Token(_) => spec_child_nodes(cs.drop_last()),
            SyntaxElement::Node(n) => spec_child_nodes(cs.drop_last()).push(n),
        }
    }
}

impl SyntaxNodeData {
    /// A node of the given kind over the given children.
    pub fn new(kind: SyntaxKind, children: Vec<SyntaxElement>) -> (r: SyntaxNodeData)
        ensures
            r.kind == kind,
            r.children == children,
    {
        SyntaxNodeData { kind, children }
    }

    /// The direct token children of this node, in order.
    pub fn tokens(&self) -> (r: Vec<&Token>)
        ensures
            r@.len() == spec_tokens(self.children@).len(),
            forall|j: int| 0 <= j < r@.len() ==> *r@[j] == spec_tokens(self.children@)[j],
    {
        let mut r: Vec<&Token> = Vec::new();
        let mut i: usize = 0;
        while i < self.children.len()
            invariant
                i <= self.children@.len(),
                r@.len() == spec_tokens(self.children@.take(i as int)).len(),
                forall|j: int|
                    0 <= j < r@.len() ==> *r@[j] == spec_tokens(self.children@.take(i as int))[j],
            decreases self.children@.len() - i,
        {
            let ghost pre = self.children@.take(i as int);
            proof {
                assert(self.children@.take(i + 1).drop_last() =~= pre);
                assert(self.children@.take(i + 1).last() == self.children@[i as int]);
            }
            match &self.children[i] {
                SyntaxElement::Token(t) => {
                    r.push(t);
                },
                SyntaxElement::Node(_) => {},
            }
            i = i + 1;
        }
        proof {
            assert(self.children@.take(self.children@.len() as int) =~= self.children@);
        }
        r
    }

    /// The direct interior-node children of this node, in order.
    pub fn child_nodes(&self) -> (r: Vec<&SyntaxNode>)
        ensures
            r@.len() == spec_child_nodes(self.children@).len(),
            forall|j: int| 0 <= j < r@.len() ==> *r@[j] == spec_child_nodes(self.children@)[j],
    {
        let mut r: Vec<&SyntaxNode> = Vec::new();
        let mut i: usize = 0;
        while i < self.children.len()
            invariant
                i <= self.children@.len(),
                r@.len() == spec_child_nodes(self.children@.take(i as int)).len(),
                forall|j: int|
                    0 <= j < r@.len() ==> *r@[j] == spec_child_nodes(
                        self.children@.take(i as int),
                    )[j],
            decreases self.children@.len() - i,
        {
            let ghost pre = self.children@.take(i as int);
            proof {
                assert(self.children@.take(i + 1).drop_last() =~= pre);
                assert(self.children@.take(i + 1).last() == self.children@[i as int]);
            }
            match &self.children[i] {
                SyntaxElement::Token(_) => {},
                SyntaxElement::Node(n) => {
                    r.push(n);
                },
            }
            i = i + 1;
        }
        proof {
            assert(self.children@.take(self.children@.len() as int) =~= self.children@);
        }
        r
    }

    /// The structural kind of this node.
    pub fn kind(&self) -> (k: SyntaxKind)
        ensures
            k == self.kind,
    {
        self.kind
    }
}

} // verus!
