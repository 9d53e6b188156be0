//! The grammar of the language, on bytes.
//!
//! ```text
//! expressions = expression* end-of-input
//! expression  = assignment | number | identifier
//! assignment  = identifier "=" expression
//! identifier  = (letter | "_") (letter | digit | "_")*
//! number      = ("+" | "-")? digit+
//! ```
//!
//! Blank bytes may stand before and after every token of `expressions` and
//! `assignment`; none may stand inside an identifier or a number. A token
//! extends as far as it can. An identifier followed by `=` begins an
//! assignment, and then an expression has to follow.

use crate::ast::Tree;
use crate::error::{Failure, ParseError};
use crate::language::{accepted_iff_written, writes_all};
use crate::number::{digits_of, is_literal};
use crate::pair::{nodes_of, Node, Pair, Rule};
use crate::scan::{
    begins_name, is_digit, is_name_part, is_name_start, is_sign, is_space, run_end,
    run_end_is_maximal, scan, signs, Class,
};
use crate::text::slice;
use vstd::prelude::*;
use vstd::string::StringSliceAdditionalSpecFns;

verus! {

/// The byte `=`.
pub const EQUALS: u8 = 0x3d;

/// Where the identifier that begins at `from` ends; `from` itself if none
/// begins there.
pub open spec fn name_end(s: Seq<u8>, from: int) -> int {
    if 0 <= from < s.len() && is_name_start(s[from]) {
        run_end(s, Class::Name, from + 1)
    } else {
        from
    }
}

/// Where the number that begins at `from` ends; `from` itself if none
/// begins there.
pub open spec fn number_end(s: Seq<u8>, from: int) -> int {
    let digits = if 0 <= from < s.len() && is_sign(s[from]) {
        from + 1
    } else {
        from
    };
    if 0 <= digits < s.len() && is_digit(s[digits]) {
        run_end(s, Class::Digit, digits)
    } else {
        from
    }
}

/// A token ends inside the text, at or after the place where it begins.
pub proof fn tokens_end_inside(s: Seq<u8>, from: int)
    requires
        0 <= from <= s.len(),
    ensures
        from <= name_end(s, from) <= s.len(),
        from <= number_end(s, from) <= s.len(),
{
    if from < s.len() {
        run_end_is_maximal(s, Class::Name, from + 1);
        let digits = if is_sign(s[from]) {
            from + 1
        } else {
            from
        };
        run_end_is_maximal(s, Class::Digit, digits);
    }
}

/// The node of a token: the bytes of `s` from `from` up to `to`.
pub open spec fn token(rule: Rule, s: Seq<u8>, from: int, to: int) -> Node {
    Node { rule, text: s.subrange(from, to), start: from, inner: seq![] }
}

/// The rules that can begin an expression.
pub open spec fn expression_starts() -> Seq<Rule> {
    seq![Rule::Identifier, Rule::Number]
}

/// The rules that can follow a complete expression of the sequence.
pub open spec fn statement_starts() -> Seq<Rule> {
    seq![Rule::Identifier, Rule::Number, Rule::EndOfInput]
}

/// The failure to find an expression at `at`. `or_end` says that the end
/// of input would have done as well.
pub open spec fn nothing_at(at: int, or_end: bool) -> Failure {
    Failure::Syntax {
        position: at,
        expected: if or_end {
            statement_starts()
        } else {
            expression_starts()
        },
    }
}

/// The expression that begins at `from`, which is no blank byte, or the
/// place where the text leaves the grammar. `or_end` says what else the
/// grammar allows at `from`: the end of input, or nothing.
pub open spec fn expression_at(s: Seq<u8>, from: int, or_end: bool) -> Result<Node, Failure>
    decreases s.len() - from,
{
    let name = name_end(s, from);
    let number = number_end(s, from);
    if name > from {
        let sign = run_end(s, Class::Space, name);
        if 0 <= sign < s.len() && s[sign] == EQUALS {
            let value_at = run_end(s, Class::Space, sign + 1);
            proof {
                run_end_is_maximal(s, Class::Name, from + 1);
                run_end_is_maximal(s, Class::Space, name);
                run_end_is_maximal(s, Class::Space, sign + 1);
            }
            match expression_at(s, value_at, false) {
                Ok(value) => Ok(
                    Node {
                        rule: Rule::Assignment,
                        text: s.subrange(from, value.end()),
                        start: from,
                        inner: seq![token(Rule::Identifier, s, from, name), value],
                    },
                ),
                Err(failure) => Err(failure),
            }
        } else {
            Ok(token(Rule::Identifier, s, from, name))
        }
    } else if number > from {
        Ok(token(Rule::Number, s, from, number))
    } else {
        Err(nothing_at(from, or_end))
    }
}

/// An expression found at `from` begins there with an ASCII byte, is not
/// empty, ends inside the text with an ASCII byte, and its text is the
/// bytes between.
pub proof fn expression_spans(s: Seq<u8>, from: int, or_end: bool)
    requires
        expression_at(s, from, or_end) is Ok,
    ensures
        ({
            let node = expression_at(s, from, or_end)->Ok_0;
            &&& node.start == from
            &&& 0 <= from < node.end() <= s.len()
            &&& node.text == s.subrange(from, node.end())
            &&& s[from] < 0x80
            &&& s[node.end() - 1] < 0x80
        }),
    decreases s.len() - from,
{
    let name = name_end(s, from);
    let number = number_end(s, from);
    if name > from {
        run_end_is_maximal(s, Class::Name, from + 1);
        let sign = run_end(s, Class::Space, name);
        run_end_is_maximal(s, Class::Space, name);
        if 0 <= sign < s.len() && s[sign] == EQUALS {
            let value_at = run_end(s, Class::Space, sign + 1);
            run_end_is_maximal(s, Class::Space, sign + 1);
            expression_spans(s, value_at, false);
        } else {
            assert(name - 1 == from || is_name_part(s[name - 1]));
        }
    } else if number > from {
        let digits = if is_sign(s[from]) {
            from + 1
        } else {
            from
        };
        run_end_is_maximal(s, Class::Digit, digits);
        assert(is_digit(s[number - 1]));
    }
}

/// Whether the text is an identifier: a letter or `_`, then letters,
/// digits and `_`.
pub open spec fn is_name(text: Seq<u8>) -> bool {
    &&& text.len() > 0
    &&& is_name_start(text[0])
    &&& forall|i: int| 0 < i < text.len() ==> is_name_part(#[trigger] text[i])
}

/// Whether a node has the shape of an expression: an identifier or a
/// number with the text of one and nothing inside, or an assignment with
/// an identifier and an expression inside.
pub open spec fn is_expression(node: Node) -> bool
    decreases node,
{
    match node.rule {
        Rule::Identifier => is_name(node.text) && node.inner.len() == 0,
        Rule::Number => is_literal(node.text) && node.inner.len() == 0,
        Rule::Assignment => {
            &&& node.inner.len() == 2
            &&& node.inner[0].rule == Rule::Identifier
            &&& is_name(node.inner[0].text)
            &&& node.inner[0].inner.len() == 0
            &&& is_expression(node.inner[1])
        },
        _ => false,
    }
}

/// Whether no token begins at `at`: neither an identifier nor a number.
pub open spec fn no_token_at(s: Seq<u8>, at: int) -> bool {
    name_end(s, at) == at && number_end(s, at) == at
}

/// What the grammar finds at `from` has the shape of an expression; where
/// it finds none, it fails with a syntax error at or after `from`, inside
/// the text or at its end, where no token begins: at `from` itself, or
/// after a `=` and the blank bytes that follow it.
pub proof fn expression_is_shaped(s: Seq<u8>, from: int, or_end: bool)
    requires
        0 <= from <= s.len(),
    ensures
        match expression_at(s, from, or_end) {
            Ok(node) => is_expression(node),
            Err(failure) => {
                &&& failure is Syntax
                &&& from <= failure.position() <= s.len()
                &&& no_token_at(s, failure.position())
                &&& failure == nothing_at(failure.position(), or_end && failure.position() == from)
                &&& failure.position() > from ==> failure.position() == s.len() || !is_space(
                    s[failure.position()],
                )
            },
        },
    decreases s.len() - from,
{
    let name = name_end(s, from);
    let number = number_end(s, from);
    tokens_end_inside(s, from);
    if name > from {
        run_end_is_maximal(s, Class::Name, from + 1);
        let sign = run_end(s, Class::Space, name);
        run_end_is_maximal(s, Class::Space, name);
        let target = token(Rule::Identifier, s, from, name);
        assert(is_name(target.text));
        if 0 <= sign < s.len() && s[sign] == EQUALS {
            let value_at = run_end(s, Class::Space, sign + 1);
            run_end_is_maximal(s, Class::Space, sign + 1);
            expression_is_shaped(s, value_at, false);
        }
    } else if number > from {
        let digits = if is_sign(s[from]) {
            from + 1
        } else {
            from
        };
        run_end_is_maximal(s, Class::Digit, digits);
        let text = s.subrange(from, number);
        assert(digits_of(text) =~= s.subrange(digits, number));
    }
}

/// The nodes of the expressions from `from` to the end of `s`, in order,
/// closed by the node of the end of input; or the place where the text
/// leaves the grammar.
pub open spec fn statements_at(s: Seq<u8>, from: int) -> Result<Seq<Node>, Failure>
    decreases s.len() - from,
{
    let at = run_end(s, Class::Space, from);
    if at >= s.len() {
        Ok(seq![token(Rule::EndOfInput, s, s.len() as int, s.len() as int)])
    } else {
        match expression_at(s, at, true) {
            Err(failure) => Err(failure),
            Ok(first) => {
                proof {
                    if 0 <= from {
                        run_end_is_maximal(s, Class::Space, from);
                    }
                    expression_spans(s, at, true);
                }
                match statements_at(s, first.end()) {
                    Err(failure) => Err(failure),
                    Ok(rest) => Ok(seq![first] + rest),
                }
            },
        }
    }
}

/// Whether the nodes have the shape of what `expressions` holds inside:
/// expressions, closed by one node of the end of input.
pub open spec fn is_statements(nodes: Seq<Node>) -> bool {
    &&& nodes.len() >= 1
    &&& nodes.last().rule == Rule::EndOfInput
    &&& forall|i: int| 0 <= i < nodes.len() - 1 ==> is_expression(#[trigger] nodes[i])
}

/// Whether `failure` is a syntax error of the text `s` at or after
/// `from`: it points at a byte that is not blank and begins no token, or at
/// the end of the text. At the end of the text an expression was expected,
/// after a `=`; elsewhere an expression, after a `=`, or an expression or
/// the end of input.
pub open spec fn is_syntax_error(s: Seq<u8>, from: int, failure: Failure) -> bool {
    &&& failure is Syntax
    &&& from <= failure.position() <= s.len()
    &&& no_token_at(s, failure.position())
    &&& failure.position() < s.len() ==> !is_space(s[failure.position()])
    &&& failure->Syntax_expected == expression_starts() || {
        &&& failure->Syntax_expected == statement_starts()
        &&& failure.position() < s.len()
    }
}

/// The nodes that the grammar finds from `from` on are expressions closed
/// by the end of input; where it fails, it fails with a syntax error at or
/// after `from`.
pub proof fn statements_are_shaped(s: Seq<u8>, from: int)
    requires
        0 <= from <= s.len(),
    ensures
        match statements_at(s, from) {
            Ok(nodes) => is_statements(nodes),
            Err(failure) => is_syntax_error(s, from, failure),
        },
    decreases s.len() - from,
{
    let at = run_end(s, Class::Space, from);
    run_end_is_maximal(s, Class::Space, from);
    if at < s.len() {
        expression_is_shaped(s, at, true);
        if let Ok(first) = expression_at(s, at, true) {
            expression_spans(s, at, true);
            statements_are_shaped(s, first.end());
            if let Ok(rest) = statements_at(s, first.end()) {
                let nodes = seq![first] + rest;
                assert forall|i: int| 0 <= i < nodes.len() - 1 implies is_expression(
                    #[trigger] nodes[i],
                ) by {
                    if i > 0 {
                        assert(nodes[i] == rest[i - 1]);
                    }
                }
            }
        }
    }
}

/// The parse tree of the text `s`: its root, tagged `Expressions`, spans
/// the whole text and holds the nodes of its expressions, then the node of
/// the end of input.
pub open spec fn parse_tree(s: Seq<u8>) -> Result<Node, Failure> {
    match statements_at(s, 0) {
        Ok(nodes) => Ok(Node { rule: Rule::Expressions, text: s, start: 0, inner: nodes }),
        Err(failure) => Err(failure),
    }
}

/// The root of a parse tree holds expressions, closed by the end of input;
/// a text without a parse tree has a syntax error.
pub proof fn parse_tree_is_shaped(s: Seq<u8>)
    ensures
        match parse_tree(s) {
            Ok(root) => is_statements(root.inner),
            Err(failure) => is_syntax_error(s, 0, failure),
        },
{
    statements_are_shaped(s, 0);
}

/// `front`, then the nodes of `rest`; the failure of `rest`, if it is one.
pub open spec fn after(front: Seq<Node>, rest: Result<Seq<Node>, Failure>) -> Result<
    Seq<Node>,
    Failure,
> {
    match rest {
        Ok(nodes) => Ok(front + nodes),
        Err(failure) => Err(failure),
    }
}

/// Finds the end of the identifier that begins at `from`.
fn name(bytes: &[u8], from: usize) -> (to: usize)
    requires
        from <= bytes@.len(),
    ensures
        to == name_end(bytes@, from as int),
        from <= to <= bytes@.len(),
{
    if from < bytes.len() && begins_name(bytes[from]) {
        scan(bytes, Class::Name, from + 1)
    } else {
        from
    }
}

/// Finds the end of the number that begins at `from`.
fn number(bytes: &[u8], from: usize) -> (to: usize)
    requires
        from <= bytes@.len(),
    ensures
        to == number_end(bytes@, from as int),
        from <= to <= bytes@.len(),
{
    let digits: usize = if from < bytes.len() && signs(bytes[from]) {
        from + 1
    } else {
        from
    };
    if digits < bytes.len() && Class::Digit.holds(bytes[digits]) {
        scan(bytes, Class::Digit, digits)
    } else {
        from
    }
}

/// Builds the pair of the token of `code` between `from` and `to`.
fn leaf<'a>(rule: Rule, code: &'a str, from: usize, to: usize) -> (pair: Pair<'a>)
    requires
        from <= to <= code.spec_bytes().len(),
        from < to ==> code.spec_bytes()[from as int] < 0x80 && code.spec_bytes()[to - 1] < 0x80,
        from == to ==> to == code.spec_bytes().len(),
    ensures
        pair@ == token(rule, code.spec_bytes(), from as int, to as int),
{
    let pair = Pair { rule, text: slice(code, from, to), start: from, inner: Vec::new() };
    assert(pair@.inner =~= seq![]);
    pair
}

/// Reads the expression of `code` that begins at `from`.
fn expression<'a>(code: &'a str, from: usize, or_end: bool) -> (r: Result<Pair<'a>, ParseError>)
    requires
        from <= code.spec_bytes().len(),
    ensures
        match r {
            Ok(pair) => expression_at(code.spec_bytes(), from as int, or_end) == Ok::<
                Node,
                Failure,
            >(pair@),
            Err(e) => expression_at(code.spec_bytes(), from as int, or_end) == Err::<
                Node,
                Failure,
            >(e@),
        },
    decreases code.spec_bytes().len() - from,
{
    let bytes = code.as_bytes();
    let ghost s = code.spec_bytes();
    let name_to: usize = name(bytes, from);
    if name_to > from {
        proof {
            run_end_is_maximal(s, Class::Name, from + 1);
            assert(name_to - 1 == from || is_name_part(s[name_to - 1]));
        }
        let sign: usize = scan(bytes, Class::Space, name_to);
        if sign < bytes.len() && bytes[sign] == EQUALS {
            let value_at: usize = scan(bytes, Class::Space, sign + 1);
            match expression(code, value_at, false) {
                Ok(value) => {
                    proof {
                        expression_spans(s, value_at as int, false);
                    }
                    let to: usize = value_at + value.text.len();
                    let target = leaf(Rule::Identifier, code, from, name_to);
                    let text = slice(code, from, to);
                    let mut inner: Vec<Pair<'a>> = Vec::new();
                    inner.push(target);
                    inner.push(value);
                    let pair = Pair { rule: Rule::Assignment, text, start: from, inner };
                    assert(pair@.inner =~= seq![
                        token(Rule::Identifier, s, from as int, name_to as int),
                        expression_at(s, value_at as int, false)->Ok_0,
                    ]);
                    Ok(pair)
                },
                Err(e) => Err(e),
            }
        } else {
            Ok(leaf(Rule::Identifier, code, from, name_to))
        }
    } else {
        let number_to: usize = number(bytes, from);
        if number_to > from {
            proof {
                let digits = if is_sign(s[from as int]) {
                    from + 1
                } else {
                    from as int
                };
                run_end_is_maximal(s, Class::Digit, digits);
                assert(is_digit(s[number_to - 1]));
            }
            Ok(leaf(Rule::Number, code, from, number_to))
        } else if or_end {
            let expected = vec![Rule::Identifier, Rule::Number, Rule::EndOfInput];
            assert(expected@ =~= statement_starts());
            Err(ParseError::Syntax { position: from, expected })
        } else {
            let expected = vec![Rule::Identifier, Rule::Number];
            assert(expected@ =~= expression_starts());
            Err(ParseError::Syntax { position: from, expected })
        }
    }
}

/// Reads `code` as a sequence of expressions and returns the root of its
/// parse tree: the pairs of the expressions in the order of the text, then
/// the pair of the end of input. The texts that have a parse tree are those
/// that write a sequence of expressions; any other text gives the syntax
/// error at the first byte that fits no rule.
pub fn expressions<'a>(code: &'a str) -> (r: Result<Pair<'a>, ParseError>)
    ensures
        match r {
            Ok(root) => parse_tree(code.spec_bytes()) == Ok::<Node, Failure>(root@),
            Err(e) => parse_tree(code.spec_bytes()) == Err::<Node, Failure>(e@),
        },
        r matches Ok(root) ==> is_statements(root@.inner),
        r matches Err(e) ==> is_syntax_error(code.spec_bytes(), 0, e@),
        r is Ok <==> exists|items: Seq<Tree>| writes_all(code.spec_bytes(), items),
{
    let bytes = code.as_bytes();
    let ghost s = code.spec_bytes();
    proof {
        parse_tree_is_shaped(s);
        accepted_iff_written(s);
    }
    let mut inner: Vec<Pair<'a>> = Vec::new();
    let mut from: usize = 0;
    assert(nodes_of(inner@) + statements_at(s, 0)->Ok_0 =~= statements_at(s, 0)->Ok_0);
    loop
        invariant
            s == code.spec_bytes(),
            bytes@ == s,
            from <= s.len(),
            statements_at(s, 0) == after(nodes_of(inner@), statements_at(s, from as int)),
        decreases s.len() - from,
    {
        let at: usize = scan(bytes, Class::Space, from);
        if at >= bytes.len() {
            let ghost front = nodes_of(inner@);
            let end = leaf(Rule::EndOfInput, code, bytes.len(), bytes.len());
            inner.push(end);
            assert(nodes_of(inner@) =~= front + seq![end@]);
            let root = Pair { rule: Rule::Expressions, text: code, start: 0, inner };
            proof {
                parse_tree_is_shaped(s);
                accepted_iff_written(s);
            }
            return Ok(root);
        }
        match expression(code, at, true) {
            Err(e) => {
                proof {
                    parse_tree_is_shaped(s);
                    accepted_iff_written(s);
                }
                return Err(e);
            },
            Ok(first) => {
                proof {
                    expression_spans(s, at as int, true);
                }
                let ghost front = nodes_of(inner@);
                let ghost rest = statements_at(s, first@.end());
                from = at + first.text.len();
                inner.push(first);
                assert(nodes_of(inner@) =~= front + seq![first@]);
                assert(rest is Ok ==> (front + seq![first@]) + rest->Ok_0 =~= front + (seq![
                    first@,
                ] + rest->Ok_0));
            },
        }
    }
}

} // verus!
