//! The syntax tree, and how it is built from the parse tree.

use crate::error::{Failure, ParseError};
use crate::grammar::{
    expression_at, expression_is_shaped, expression_spans, expressions, is_name,
    is_syntax_error, name_end, number_end, parse_tree, statements_are_shaped, statements_at,
    token, EQUALS,
};
use crate::language::{parses_iff_written, writes_all};
use crate::number::{read, reading, Reading};
use crate::pair::{nodes_of, Node, Pair, Rule};
use crate::scan::{is_sign, run_end, run_end_is_maximal, Class};
use crate::text::same_text;
use vstd::prelude::*;
use vstd::string::StringSliceAdditionalSpecFns;

verus! {

/// A node of the syntax tree. Names are pieces of the text that was parsed.
#[derive(Debug, PartialEq, Eq)]
pub enum AstNode<'a> {
    /// The root: the expressions of a text, in the order of the text.
    Expressions(Vec<AstNode<'a>>),
    /// A name, and the expression whose value is bound to it.
    Assignment(&'a str, Box<AstNode<'a>>),
    /// An integer literal.
    Number(i64),
    /// A name.
    Identifier(&'a str),
}

/// The mathematical model of an `AstNode`: names are sequences of bytes,
/// numbers are integers.
pub enum Tree {
    Expressions(Seq<Tree>),
    Assignment(Seq<u8>, Box<Tree>),
    Number(int),
    Identifier(Seq<u8>),
}

/// The models of a sequence of syntax trees, in order.
pub open spec fn trees_of(nodes: Seq<AstNode>) -> Seq<Tree>
    decreases nodes,
{
    Seq::new(
        nodes.len(),
        |i: int|
            if 0 <= i < nodes.len() {
                nodes[i].view()
            } else {
                arbitrary()
            },
    )
}

impl<'a> AstNode<'a> {
    pub open spec fn view(&self) -> Tree
        decreases self,
    {
        match self {
            AstNode::Expressions(items) => Tree::Expressions(trees_of(items@)),
            AstNode::Assignment(name, value) => Tree::Assignment(
                name.spec_bytes(),
                Box::new(value.view()),
            ),
            AstNode::Number(n) => Tree::Number(*n as int),
            AstNode::Identifier(name) => Tree::Identifier(name.spec_bytes()),
        }
    }
}

impl<'a> AstNode<'a> {
    /// Whether two syntax trees are equal: the same kinds of nodes in the
    /// same places, with the same names and numbers.
    pub fn same(&self, other: &AstNode<'_>) -> (r: bool)
        ensures
            r == (self@ == other@),
        decreases self,
    {
        match self {
            AstNode::Expressions(mine) => match other {
                AstNode::Expressions(theirs) => {
                    if mine.len() != theirs.len() {
                        assert(trees_of(mine@).len() != trees_of(theirs@).len());
                        return false;
                    }
                    let mut i: usize = 0;
                    while i < mine.len()
                        invariant
                            i <= mine@.len(),
                            mine@.len() == theirs@.len(),
                            *self == AstNode::Expressions(*mine),
                            *other == AstNode::Expressions(*theirs),
                            forall|k: int| 0 <= k < i ==> mine@[k]@ == theirs@[k]@,
                        decreases mine@.len() - i,
                    {
                        if !mine[i].same(&theirs[i]) {
                            assert(trees_of(mine@)[i as int] != trees_of(theirs@)[i as int]);
                            return false;
                        }
                        i = i + 1;
                    }
                    assert(trees_of(mine@) =~= trees_of(theirs@));
                    true
                },
                _ => false,
            },
            AstNode::Assignment(name, value) => match other {
                AstNode::Assignment(other_name, other_value) => same_text(name, other_name)
                    && value.same(other_value),
                _ => false,
            },
            AstNode::Number(n) => match other {
                AstNode::Number(m) => *n == *m,
                _ => false,
            },
            AstNode::Identifier(name) => match other {
                AstNode::Identifier(other_name) => same_text(name, other_name),
                _ => false,
            },
        }
    }
}

/// The failure of a node that has no place in an expression.
pub open spec fn misplaced(node: Node) -> Failure {
    Failure::StructuralInvariant { position: node.start, rule: node.rule }
}

/// What a node read as a number gives: the value of its text, or the
/// failure of reading it, at the place of the node.
pub open spec fn number_built(node: Node) -> Result<Tree, Failure> {
    match reading(node.text) {
        Reading::Value(n) => Ok(Tree::Number(n as int)),
        Reading::Overflow => Err(Failure::Overflow { position: node.start }),
        Reading::Malformed => Err(Failure::MalformedLiteral { position: node.start }),
    }
}

/// What a node read as an assignment gives: the text of its first inner
/// node as the name, bound to what its second inner node gives as an
/// expression. A node with fewer than two inner nodes is misplaced.
pub open spec fn assignment_built(node: Node) -> Result<Tree, Failure>
    decreases node, 0int,
{
    if node.inner.len() < 2 {
        Err(misplaced(node))
    } else {
        match built(node.inner[1]) {
            Ok(value) => Ok(Tree::Assignment(node.inner[0].text, Box::new(value))),
            Err(failure) => Err(failure),
        }
    }
}

/// What a node read as an expression gives, by its rule. A node of another
/// rule than number, identifier and assignment is misplaced.
pub open spec fn built(node: Node) -> Result<Tree, Failure>
    decreases node, 1int,
{
    match node.rule {
        Rule::Number => number_built(node),
        Rule::Identifier => Ok(Tree::Identifier(node.text)),
        Rule::Assignment => assignment_built(node),
        _ => Err(misplaced(node)),
    }
}

/// What the nodes give as expressions, in order and without the nodes of
/// the end of input; the failure of the first node that fails.
pub open spec fn built_all(nodes: Seq<Node>) -> Result<Seq<Tree>, Failure>
    decreases nodes.len(),
{
    if nodes.len() == 0 {
        Ok(seq![])
    } else if nodes[0].rule == Rule::EndOfInput {
        built_all(nodes.drop_first())
    } else {
        match built(nodes[0]) {
            Err(failure) => Err(failure),
            Ok(first) => match built_all(nodes.drop_first()) {
                Err(failure) => Err(failure),
                Ok(rest) => Ok(seq![first] + rest),
            },
        }
    }
}

/// The syntax tree of the text `s`: the expressions of its parse tree.
/// A text that leaves the grammar has none, and neither has one with an
/// integer literal that does not fit in 64 bits.
pub open spec fn parsed(s: Seq<u8>) -> Result<Tree, Failure> {
    match parse_tree(s) {
        Err(failure) => Err(failure),
        Ok(root) => match built_all(root.inner) {
            Err(failure) => Err(failure),
            Ok(items) => Ok(Tree::Expressions(items)),
        },
    }
}

/// Whether every tree of the sequence is an expression.
pub open spec fn are_expressions(items: Seq<Tree>) -> bool {
    forall|i: int| 0 <= i < items.len() ==> (#[trigger] items[i]).is_expression()
}

impl Tree {
    /// Whether the tree is an expression as the grammar writes them: a
    /// name that is an identifier, a number of 64 bits, or such a name
    /// bound to an expression.
    pub open spec fn is_expression(self) -> bool
        decreases self,
    {
        match self {
            Tree::Expressions(_) => false,
            Tree::Assignment(name, value) => is_name(name) && value.is_expression(),
            Tree::Number(n) => i64::MIN <= n <= i64::MAX,
            Tree::Identifier(name) => is_name(name),
        }
    }

    /// Whether the tree is the syntax tree of a text: a sequence of
    /// expressions.
    pub open spec fn is_root(self) -> bool {
        &&& self is Expressions
        &&& are_expressions(self->Expressions_0)
    }
}

/// Whether `failure` says that at `position` of `s` begins an integer
/// literal that does not fit in 64 bits.
pub open spec fn overflows_at(s: Seq<u8>, failure: Failure) -> bool {
    &&& failure is Overflow
    &&& 0 <= failure.position() < number_end(s, failure.position()) <= s.len()
    &&& reading(s.subrange(failure.position(), number_end(s, failure.position())))
        == Reading::Overflow
}

/// What the grammar finds at `from` builds into an expression, or fails
/// on a literal in it that does not fit in 64 bits.
pub proof fn built_of_expression_at(s: Seq<u8>, from: int, or_end: bool)
    requires
        expression_at(s, from, or_end) is Ok,
    ensures
        match built(expression_at(s, from, or_end)->Ok_0) {
            Ok(tree) => tree.is_expression(),
            Err(failure) => overflows_at(s, failure),
        },
    decreases s.len() - from,
{
    let name = name_end(s, from);
    let number = number_end(s, from);
    let node = expression_at(s, from, or_end)->Ok_0;
    expression_spans(s, from, or_end);
    expression_is_shaped(s, from, or_end);
    if name > from {
        let sign = run_end(s, Class::Space, name);
        if 0 <= sign < s.len() && s[sign] == EQUALS {
            let value_at = run_end(s, Class::Space, sign + 1);
            run_end_is_maximal(s, Class::Name, from + 1);
            run_end_is_maximal(s, Class::Space, name);
            run_end_is_maximal(s, Class::Space, sign + 1);
            built_of_expression_at(s, value_at, false);
            assert(node.inner[1] == expression_at(s, value_at, false)->Ok_0);
            assert(built(node) == assignment_built(node));
        } else {
            assert(node == token(Rule::Identifier, s, from, name));
            assert(built(node) == Ok::<Tree, Failure>(Tree::Identifier(node.text)));
        }
    } else {
        let digits = if is_sign(s[from]) {
            from + 1
        } else {
            from
        };
        run_end_is_maximal(s, Class::Digit, digits);
        assert(node == token(Rule::Number, s, from, number));
        assert(built(node) == number_built(node));
    }
}

/// What the grammar finds from `from` on builds into expressions, or fails
/// on a literal that does not fit in 64 bits.
pub proof fn built_of_statements_at(s: Seq<u8>, from: int)
    requires
        0 <= from <= s.len(),
        statements_at(s, from) is Ok,
    ensures
        match built_all(statements_at(s, from)->Ok_0) {
            Ok(items) => are_expressions(items),
            Err(failure) => overflows_at(s, failure),
        },
    decreases s.len() - from,
{
    let at = run_end(s, Class::Space, from);
    run_end_is_maximal(s, Class::Space, from);
    if at < s.len() {
        let first = expression_at(s, at, true)->Ok_0;
        let rest = statements_at(s, first.end())->Ok_0;
        let nodes = seq![first] + rest;
        expression_spans(s, at, true);
        expression_is_shaped(s, at, true);
        built_of_expression_at(s, at, true);
        built_of_statements_at(s, first.end());
        assert(statements_at(s, from) == Ok::<Seq<Node>, Failure>(nodes));
        assert(nodes.drop_first() =~= rest);
        assert(nodes[0] == first);
        assert(first.rule != Rule::EndOfInput);
        if let Ok(tree) = built(first) {
            if let Ok(trees) = built_all(rest) {
                let items = seq![tree] + trees;
                assert forall|i: int| 0 <= i < items.len() implies (
                #[trigger] items[i]).is_expression() by {
                    if i > 0 {
                        assert(items[i] == trees[i - 1]);
                    }
                }
            }
        }
    } else {
        let nodes = statements_at(s, from)->Ok_0;
        assert(nodes.drop_first() =~= seq![]);
        assert(built_all(nodes.drop_first()) == Ok::<Seq<Tree>, Failure>(seq![]));
        assert(built_all(nodes) == Ok::<Seq<Tree>, Failure>(seq![]));
    }
}

/// The syntax tree of a text is a sequence of expressions. A text without
/// one fails in one of two ways: it leaves the grammar at a byte that
/// begins no token or at its end, or a literal in it does not fit in 64
/// bits.
pub proof fn parsed_is_well_formed(s: Seq<u8>)
    ensures
        match parsed(s) {
            Ok(tree) => tree.is_root(),
            Err(failure) => is_syntax_error(s, 0, failure) || overflows_at(s, failure),
        },
{
    statements_are_shaped(s, 0);
    if statements_at(s, 0) is Ok {
        built_of_statements_at(s, 0);
    }
}

/// `front`, then the trees of `rest`; the failure of `rest`, if it is one.
pub open spec fn trees_after(front: Seq<Tree>, rest: Result<Seq<Tree>, Failure>) -> Result<
    Seq<Tree>,
    Failure,
> {
    match rest {
        Ok(trees) => Ok(front + trees),
        Err(failure) => Err(failure),
    }
}

/// Builds a number from a node: the value of the node's text.
pub fn parse_number<'a>(pair: &Pair<'a>) -> (r: Result<AstNode<'a>, ParseError>)
    ensures
        match r {
            Ok(ast) => number_built(pair@) == Ok::<Tree, Failure>(ast@),
            Err(e) => number_built(pair@) == Err::<Tree, Failure>(e@),
        },
{
    match read(pair.text.as_bytes()) {
        Reading::Value(n) => Ok(AstNode::Number(n)),
        Reading::Overflow => Err(ParseError::Overflow { position: pair.start }),
        Reading::Malformed => Err(ParseError::MalformedLiteral { position: pair.start }),
    }
}

/// Builds an identifier from a node: the node's text as it stands.
pub fn parse_identifier<'a>(pair: &Pair<'a>) -> (ast: AstNode<'a>)
    ensures
        ast@ == Tree::Identifier(pair@.text),
{
    AstNode::Identifier(pair.text)
}

/// Builds an assignment from a node: the text of the first inner node is
/// the name, the second inner node is built as an expression.
pub fn parse_assignment<'a>(pair: &Pair<'a>) -> (r: Result<AstNode<'a>, ParseError>)
    ensures
        match r {
            Ok(ast) => assignment_built(pair@) == Ok::<Tree, Failure>(ast@),
            Err(e) => assignment_built(pair@) == Err::<Tree, Failure>(e@),
        },
    decreases pair, 0int,
{
    if pair.inner.len() < 2 {
        return Err(ParseError::StructuralInvariant { position: pair.start, rule: pair.rule });
    }
    let name = pair.inner[0].text;
    assert(pair@.inner[0] == pair.inner@[0]@);
    assert(pair@.inner[1] == pair.inner@[1]@);
    match parse_expression(&pair.inner[1]) {
        Ok(value) => Ok(AstNode::Assignment(name, Box::new(value))),
        Err(e) => Err(e),
    }
}

/// Builds an expression from a node, by the node's rule.
pub fn parse_expression<'a>(pair: &Pair<'a>) -> (r: Result<AstNode<'a>, ParseError>)
    ensures
        match r {
            Ok(ast) => built(pair@) == Ok::<Tree, Failure>(ast@),
            Err(e) => built(pair@) == Err::<Tree, Failure>(e@),
        },
    decreases pair, 1int,
{
    match pair.rule {
        Rule::Number => parse_number(pair),
        Rule::Identifier => Ok(parse_identifier(pair)),
        Rule::Assignment => parse_assignment(pair),
        _ => Err(ParseError::StructuralInvariant { position: pair.start, rule: pair.rule }),
    }
}

/// Parses a text: reads it by the grammar and builds the syntax tree of
/// its expressions, in the order of the text. The texts that parse are
/// those that write expressions whose numbers fit in 64 bits, and the tree
/// holds the expressions written. A text that leaves the grammar gives a
/// syntax error, and a text with an integer literal that does not fit in
/// 64 bits an overflow; no other error comes from here.
pub fn parse<'a>(code: &'a str) -> (r: Result<AstNode<'a>, ParseError>)
    ensures
        match r {
            Ok(ast) => parsed(code.spec_bytes()) == Ok::<Tree, Failure>(ast@),
            Err(e) => parsed(code.spec_bytes()) == Err::<Tree, Failure>(e@),
        },
        r matches Ok(ast) ==> ast@.is_root() && writes_all(
            code.spec_bytes(),
            ast@->Expressions_0,
        ),
        r matches Err(e) ==> is_syntax_error(code.spec_bytes(), 0, e@) || overflows_at(
            code.spec_bytes(),
            e@,
        ),
        r is Ok <==> exists|items: Seq<Tree>|
            writes_all(code.spec_bytes(), items) && are_expressions(items),
{
    proof {
        parsed_is_well_formed(code.spec_bytes());
        parses_iff_written(code.spec_bytes());
    }
    let root = match expressions(code) {
        Ok(root) => root,
        Err(e) => {
            return Err(e);
        },
    };
    let ghost nodes = nodes_of(root.inner@);
    let mut items: Vec<AstNode<'a>> = Vec::new();
    let mut i: usize = 0;
    assert(nodes.skip(0) =~= nodes);
    assert(trees_of(items@) + built_all(nodes)->Ok_0 =~= built_all(nodes)->Ok_0);
    while i < root.inner.len()
        invariant
            i <= root.inner@.len(),
            nodes == nodes_of(root.inner@),
            parse_tree(code.spec_bytes()) == Ok::<Node, Failure>(root@),
            built_all(nodes) == trees_after(trees_of(items@), built_all(nodes.skip(i as int))),
        decreases root.inner@.len() - i,
    {
        let pair = &root.inner[i];
        let ghost front = trees_of(items@);
        let ghost rest = built_all(nodes.skip(i + 1));
        assert(nodes.skip(i as int).drop_first() =~= nodes.skip(i + 1));
        assert(nodes.skip(i as int)[0] == pair@);
        match pair.rule {
            Rule::EndOfInput => {},
            _ => {
                match parse_expression(pair) {
                    Err(e) => {
                        proof {
                            parsed_is_well_formed(code.spec_bytes());
                            parses_iff_written(code.spec_bytes());
                        }
                        return Err(e);
                    },
                    Ok(item) => {
                        items.push(item);
                        assert(trees_of(items@) =~= front + seq![item@]);
                        assert(rest is Ok ==> (front + seq![item@]) + rest->Ok_0 =~= front + (seq![
                            item@,
                        ] + rest->Ok_0));
                    },
                }
            },
        }
        i = i + 1;
    }
    assert(nodes.skip(i as int) =~= seq![]);
    assert(trees_of(items@) + seq![] =~= trees_of(items@));
    Ok(AstNode::Expressions(items))
}

/// Whether `input` parses, and parses to `output`.
pub fn assert_parses_to(input: &str, output: AstNode<'_>) -> (r: bool)
    ensures
        r == (parsed(input.spec_bytes()) == Ok::<Tree, Failure>(output@)),
{
    match parse(input) {
        Ok(ast) => ast.same(&output),
        Err(_) => false,
    }
}

} // verus!
