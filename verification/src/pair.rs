//! The parse tree that the grammar produces: nodes tagged with a rule.

use vstd::prelude::*;
use vstd::string::StringSliceAdditionalSpecFns;

verus! {

/// The rules of the grammar that tag a node of the parse tree.
#[derive(Clone, Copy, Debug, PartialEq, Eq, Structural)]
pub enum Rule {
    /// The whole input: a sequence of expressions up to the end of input.
    Expressions,
    /// A name, `=`, and the expression bound to it.
    Assignment,
    /// A name.
    Identifier,
    /// An integer literal.
    Number,
    /// The end of the input.
    EndOfInput,
}

/// A node of the parse tree: the rule that matched, the text it matched,
/// the byte offset at which the match begins, and the nodes matched inside.
#[derive(Debug, PartialEq, Eq)]
pub struct Pair<'a> {
    pub rule: Rule,
    pub text: &'a str,
    pub start: usize,
    pub inner: Vec<Pair<'a>>,
}

/// The mathematical model of a `Pair`.
pub struct Node {
    pub rule: Rule,
    pub text: Seq<u8>,
    pub start: int,
    pub inner: Seq<Node>,
}

impl Node {
    /// The byte offset at which the match ends.
    pub open spec fn end(self) -> int {
        self.start + self.text.len()
    }

    /// The same tree, found `by` bytes further into a text.
    pub open spec fn moved(self, by: int) -> Node
        decreases self,
    {
        Node {
            rule: self.rule,
            text: self.text,
            start: self.start + by,
            inner: moved_all(self.inner, by),
        }
    }
}

/// The same trees, found `by` bytes further into a text.
pub open spec fn moved_all(nodes: Seq<Node>, by: int) -> Seq<Node>
    decreases nodes,
{
    Seq::new(
        nodes.len(),
        |i: int|
            if 0 <= i < nodes.len() {
                nodes[i].moved(by)
            } else {
                arbitrary()
            },
    )
}

/// The models of a sequence of pairs, in order.
pub open spec fn nodes_of(pairs: Seq<Pair>) -> Seq<Node>
    decreases pairs,
{
    Seq::new(
        pairs.len(),
        |i: int|
            if 0 <= i < pairs.len() {
                pairs[i].view()
            } else {
                arbitrary()
            },
    )
}

impl<'a> Pair<'a> {
    pub open spec fn view(&self) -> Node
        decreases self,
    {
        Node {
            rule: self.rule,
            text: self.text.spec_bytes(),
            start: self.start as int,
            inner: nodes_of(self.inner@),
        }
    }
}

} // verus!
