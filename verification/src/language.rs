//! The language, said without a parser: which texts write which syntax
//! trees, and that these are the texts that parse to them.

use crate::ast::{
    are_expressions, assignment_built, built, built_all, number_built, parsed, Tree,
};
use crate::embedding::{expression_moves, run_moves, statements_move};
use crate::error::Failure;
use crate::grammar::{
    expression_at, expression_is_shaped, expression_spans, is_expression, is_name,
    is_statements, name_end, number_end, parse_tree, statements_are_shaped, statements_at,
    token, tokens_end_inside, EQUALS,
};
use crate::laws::{
    all_blank, assignment_is_read, begins_with_equals, literal_is_read, name_is_read,
};
use crate::number::{digits_of, is_literal, literal_value};
use crate::pair::{moved_all, Node, Rule};
use crate::scan::{
    is_digit, is_name_part, is_sign, is_space, run_end, run_end_is_maximal, run_end_is_unique,
    Class,
};
use vstd::prelude::*;

verus! {

/// Whether `text` is `name`, the blank bytes `before`, `=`, the blank bytes
/// `behind`, and `back`.
pub open spec fn assigns(
    text: Seq<u8>,
    name: Seq<u8>,
    before: Seq<u8>,
    behind: Seq<u8>,
    back: Seq<u8>,
) -> bool {
    &&& all_blank(before)
    &&& all_blank(behind)
    &&& text == name + before + seq![EQUALS] + behind + back
}

/// Whether `text` writes the expression `tree`: an identifier is written
/// as its name, a number as a literal of its value, and an assignment as
/// its name, `=` with any blank bytes around it, and a text that writes its
/// value.
pub open spec fn writes(text: Seq<u8>, tree: Tree) -> bool
    decreases tree,
{
    match tree {
        Tree::Expressions(_) => false,
        Tree::Identifier(name) => text == name && is_name(name),
        Tree::Number(n) => is_literal(text) && literal_value(text) == n,
        Tree::Assignment(name, value) => {
            &&& is_name(name)
            &&& exists|before: Seq<u8>, behind: Seq<u8>, back: Seq<u8>|
                #[trigger] assigns(text, name, before, behind, back) && writes(back, *value)
        },
    }
}

/// Whether `rest` can stand right behind a text that writes `tree` without
/// changing what that text writes: behind a number stands no digit, and
/// behind an identifier no byte that an identifier can hold and, after any
/// blank bytes, no `=`. An assignment ends with its value.
pub open spec fn may_follow(tree: Tree, rest: Seq<u8>) -> bool
    decreases tree,
{
    match tree {
        Tree::Expressions(_) => false,
        Tree::Identifier(_) => {
            &&& rest.len() == 0 || !is_name_part(rest[0])
            &&& !begins_with_equals(rest)
        },
        Tree::Number(_) => rest.len() == 0 || !is_digit(rest[0]),
        Tree::Assignment(_, value) => may_follow(*value, rest),
    }
}

/// Whether `text` is the blank bytes `gap`, then `first`, then `rest`.
pub open spec fn sequenced(text: Seq<u8>, gap: Seq<u8>, first: Seq<u8>, rest: Seq<u8>) -> bool {
    all_blank(gap) && text == gap + first + rest
}

/// Whether `text` writes the expressions `items`, in order: blank bytes or
/// none, a text that writes the first of them, and a text that may follow
/// it and writes the others; or nothing but blank bytes when there are
/// none.
pub open spec fn writes_all(text: Seq<u8>, items: Seq<Tree>) -> bool
    decreases items.len(),
{
    if items.len() == 0 {
        all_blank(text)
    } else {
        exists|gap: Seq<u8>, first: Seq<u8>, rest: Seq<u8>|
            #[trigger] sequenced(text, gap, first, rest) && writes(first, items[0]) && may_follow(
                items[0],
                rest,
            ) && writes_all(rest, items.drop_first())
    }
}

/// A text that writes an expression begins with a byte that begins a
/// token.
pub proof fn written_begins_a_token(text: Seq<u8>, tree: Tree)
    requires
        writes(text, tree),
    ensures
        text.len() > 0,
        !is_space(text[0]),
        text[0] != EQUALS,
{
    match tree {
        Tree::Assignment(name, value) => {
            let (before, behind, back) = choose|before: Seq<u8>, behind: Seq<u8>, back: Seq<u8>|
                #[trigger] assigns(text, name, before, behind, back) && writes(back, *value);
            assert(text[0] == name[0]);
        },
        Tree::Number(n) => {
            let digits = digits_of(text);
            assert(is_digit(digits[0]));
        },
        _ => {},
    }
}

/// The expression that a node stands for, whatever the size of its
/// numbers: what it builds into where its numbers fit in 64 bits.
pub open spec fn drawn(node: Node) -> Tree
    decreases node,
{
    match node.rule {
        Rule::Number => Tree::Number(literal_value(node.text)),
        Rule::Identifier => Tree::Identifier(node.text),
        Rule::Assignment => if node.inner.len() >= 2 {
            Tree::Assignment(node.inner[0].text, Box::new(drawn(node.inner[1])))
        } else {
            Tree::Expressions(seq![])
        },
        _ => Tree::Expressions(seq![]),
    }
}

/// The expressions that the nodes of a root stand for: all but the node
/// of the end of input that closes them.
pub open spec fn drawn_all(nodes: Seq<Node>) -> Seq<Tree> {
    Seq::new((nodes.len() - 1) as nat, |i: int| drawn(nodes[i]))
}

/// A node stands for the same expression wherever in a text it is found.
pub proof fn drawn_wherever(node: Node, by: int)
    ensures
        drawn(node.moved(by)) == drawn(node),
    decreases node,
{
    if node.inner.len() >= 2 {
        drawn_wherever(node.inner[1], by);
        assert(node.moved(by).inner[1] == node.inner[1].moved(by));
        assert(node.moved(by).inner[0] == node.inner[0].moved(by));
    }
}

/// A node with the shape of an expression builds into the expression that
/// it stands for, if the numbers of that expression fit in 64 bits, and
/// else fails with an overflow.
pub proof fn built_is_drawn(node: Node)
    requires
        is_expression(node),
    ensures
        match built(node) {
            Ok(tree) => tree == drawn(node) && tree.is_expression(),
            Err(failure) => failure is Overflow && !drawn(node).is_expression(),
        },
    decreases node,
{
    match node.rule {
        Rule::Assignment => {
            built_is_drawn(node.inner[1]);
            assert(built(node) == assignment_built(node));
        },
        Rule::Number => {
            assert(built(node) == number_built(node));
        },
        _ => {},
    }
}

/// The nodes of a root build into the expressions that they stand for, if
/// the numbers of these fit in 64 bits, and else fail with an overflow.
pub proof fn built_all_is_drawn(nodes: Seq<Node>)
    requires
        is_statements(nodes),
    ensures
        match built_all(nodes) {
            Ok(items) => items == drawn_all(nodes) && are_expressions(items),
            Err(failure) => failure is Overflow && !are_expressions(drawn_all(nodes)),
        },
    decreases nodes.len(),
{
    let rest = nodes.drop_first();
    if nodes.len() == 1 {
        assert(rest =~= seq![]);
        assert(built_all(rest) == Ok::<Seq<Tree>, Failure>(seq![]));
        assert(drawn_all(nodes) =~= seq![]);
    } else {
        assert(is_expression(nodes[0]));
        built_is_drawn(nodes[0]);
        assert(is_statements(rest)) by {
            assert(rest.last() == nodes.last());
            assert forall|i: int| 0 <= i < rest.len() - 1 implies is_expression(
                #[trigger] rest[i],
            ) by {
                assert(rest[i] == nodes[i + 1]);
            }
        }
        built_all_is_drawn(rest);
        assert(drawn_all(nodes) =~= seq![drawn(nodes[0])] + drawn_all(rest));
        let all = drawn_all(nodes);
        let others = drawn_all(rest);
        if are_expressions(all) {
            assert(all[0].is_expression());
            assert forall|i: int| 0 <= i < others.len() implies (
            #[trigger] others[i]).is_expression() by {
                assert(others[i] == all[i + 1]);
            }
        }
        if drawn(nodes[0]).is_expression() && are_expressions(others) {
            assert forall|i: int| 0 <= i < all.len() implies (
            #[trigger] all[i]).is_expression() by {
                if i > 0 {
                    assert(all[i] == others[i - 1]);
                }
            }
        }
    }
}

/// What is written is read: a text that writes an expression, before a
/// text that may follow it, is read as one node that stands for that
/// expression.
pub proof fn written_is_read(text: Seq<u8>, tree: Tree, rest: Seq<u8>, or_end: bool)
    requires
        writes(text, tree),
        may_follow(tree, rest),
    ensures
        expression_at(text + rest, 0, or_end) is Ok,
        expression_at(text + rest, 0, or_end)->Ok_0.text == text,
        expression_at(text + rest, 0, or_end)->Ok_0.start == 0,
        drawn(expression_at(text + rest, 0, or_end)->Ok_0) == tree,
    decreases tree,
{
    match tree {
        Tree::Expressions(_) => {},
        Tree::Identifier(name) => {
            name_is_read(name, rest, or_end);
        },
        Tree::Number(n) => {
            literal_is_read(text, rest, or_end);
        },
        Tree::Assignment(name, value) => {
            let (before, behind, back) = choose|before: Seq<u8>, behind: Seq<u8>, back: Seq<u8>|
                #[trigger] assigns(text, name, before, behind, back) && writes(back, *value);
            written_begins_a_token(back, *value);
            written_is_read(back, *value, rest, false);
            assignment_is_read(name, before, behind, back, rest, or_end);
            let inner = expression_at(back + rest, 0, false)->Ok_0;
            let node = expression_at(text + rest, 0, or_end)->Ok_0;
            drawn_wherever(inner, text.len() - back.len());
            assert(node.inner[1] == inner.moved(text.len() - back.len()));
        },
    }
}

/// What is read is written: the text of an expression that the grammar
/// finds writes the expression that its node stands for, and what stands
/// behind it may follow it.
pub proof fn read_is_written(s: Seq<u8>, from: int, or_end: bool)
    requires
        expression_at(s, from, or_end) is Ok,
    ensures
        ({
            let node = expression_at(s, from, or_end)->Ok_0;
            writes(node.text, drawn(node)) && may_follow(drawn(node), s.skip(node.end()))
        }),
    decreases s.len() - from,
{
    let node = expression_at(s, from, or_end)->Ok_0;
    let rest = s.skip(node.end());
    let name = name_end(s, from);
    let number = number_end(s, from);
    expression_spans(s, from, or_end);
    expression_is_shaped(s, from, or_end);
    tokens_end_inside(s, from);
    if name > from {
        run_end_is_maximal(s, Class::Name, from + 1);
        run_end_is_maximal(s, Class::Space, name);
        let sign = run_end(s, Class::Space, name);
        if sign < s.len() && s[sign] == EQUALS {
            let value_at = run_end(s, Class::Space, sign + 1);
            run_end_is_maximal(s, Class::Space, sign + 1);
            let value = expression_at(s, value_at, false)->Ok_0;
            expression_spans(s, value_at, false);
            assert(node.inner[1] == value);
            read_is_written(s, value_at, false);
            let before = s.subrange(name, sign);
            let behind = s.subrange(sign + 1, value_at);
            let target = s.subrange(from, name);
            assert(node.text =~= target + before + seq![EQUALS] + behind + value.text);
            assert(assigns(node.text, target, before, behind, value.text));
        } else {
            assert(node == token(Rule::Identifier, s, from, name));
            assert(s =~= s.take(name) + rest);
            run_moves(s.take(name), rest, Class::Space, 0);
            if rest.len() > 0 {
                assert(rest[0] == s[name]);
            }
            let stop = run_end(rest, Class::Space, 0);
            if stop < rest.len() {
                assert(rest[stop] == s[name + stop]);
            }
        }
    } else {
        let digits = if is_sign(s[from]) {
            from + 1
        } else {
            from
        };
        run_end_is_maximal(s, Class::Digit, digits);
        assert(node == token(Rule::Number, s, from, number));
        if rest.len() > 0 {
            assert(rest[0] == s[number]);
        }
    }
}

/// All that is read is written: the text from `from` on writes the
/// expressions that the nodes found there stand for.
pub proof fn all_read_are_written(s: Seq<u8>, from: int)
    requires
        0 <= from <= s.len(),
        statements_at(s, from) is Ok,
    ensures
        writes_all(s.skip(from), drawn_all(statements_at(s, from)->Ok_0)),
    decreases s.len() - from,
{
    let text = s.skip(from);
    let nodes = statements_at(s, from)->Ok_0;
    let at = run_end(s, Class::Space, from);
    run_end_is_maximal(s, Class::Space, from);
    if at >= s.len() {
        assert(drawn_all(nodes) =~= seq![]);
        assert forall|i: int| 0 <= i < text.len() implies is_space(#[trigger] text[i]) by {
            assert(Class::Space.has(s[from + i]));
        }
    } else {
        let first = expression_at(s, at, true)->Ok_0;
        let others = statements_at(s, first.end())->Ok_0;
        expression_spans(s, at, true);
        statements_are_shaped(s, first.end());
        assert(nodes == seq![first] + others);
        let items = drawn_all(nodes);
        read_is_written(s, at, true);
        all_read_are_written(s, first.end());
        let gap = s.subrange(from, at);
        let rest = s.skip(first.end());
        assert forall|i: int| 0 <= i < gap.len() implies is_space(#[trigger] gap[i]) by {
            assert(Class::Space.has(s[from + i]));
        }
        assert(text =~= gap + first.text + rest);
        assert(items.drop_first() =~= drawn_all(others));
        assert(items[0] == drawn(first));
        assert(sequenced(text, gap, first.text, rest));
    }
}

/// All that is written is read: a text that writes expressions is read as
/// nodes that stand for these expressions.
pub proof fn all_written_are_read(text: Seq<u8>, items: Seq<Tree>)
    requires
        writes_all(text, items),
    ensures
        statements_at(text, 0) is Ok,
        drawn_all(statements_at(text, 0)->Ok_0) == items,
    decreases items.len(),
{
    if items.len() == 0 {
        assert forall|k: int| 0 <= k < text.len() implies Class::Space.has(#[trigger] text[k]) by {}
        run_end_is_unique(text, Class::Space, 0, text.len() as int);
        let nodes = statements_at(text, 0)->Ok_0;
        assert(drawn_all(nodes) =~= items);
    } else {
        let (gap, first, rest) = choose|gap: Seq<u8>, first: Seq<u8>, rest: Seq<u8>|
            #[trigger] sequenced(text, gap, first, rest) && writes(first, items[0]) && may_follow(
                items[0],
                rest,
            ) && writes_all(rest, items.drop_first());
        let others = items.drop_first();
        let g = gap.len() as int;
        let by = g + first.len();
        assert(text =~= gap + (first + rest));
        assert(text =~= (gap + first) + rest);
        written_begins_a_token(first, items[0]);
        written_is_read(first, items[0], rest, true);
        all_written_are_read(rest, others);
        // the blank bytes are passed over
        assert forall|k: int| 0 <= k < g implies Class::Space.has(#[trigger] text[k]) by {
            assert(text[k] == gap[k]);
        }
        assert(text[g] == first[0]);
        run_end_is_unique(text, Class::Space, 0, g);
        // the first expression is read, and then the others
        let node = expression_at(first + rest, 0, true)->Ok_0;
        let nodes = statements_at(rest, 0)->Ok_0;
        expression_moves(gap, first + rest, 0, true);
        statements_move(gap + first, rest, 0);
        statements_are_shaped(rest, 0);
        assert(node.moved(g).end() == by);
        let all = seq![node.moved(g)] + moved_all(nodes, by);
        assert(statements_at(text, 0) == Ok::<Seq<Node>, Failure>(all));
        // and they stand for the same expressions as apart
        drawn_wherever(node, g);
        assert forall|i: int| 0 <= i < items.len() implies drawn_all(all)[i] == items[i] by {
            if i > 0 {
                drawn_wherever(nodes[i - 1], by);
                assert(all[i] == nodes[i - 1].moved(by));
                assert(items[i] == others[i - 1]);
                assert(drawn_all(nodes)[i - 1] == drawn(nodes[i - 1]));
            }
        }
        assert(drawn_all(all) =~= items);
    }
}

/// The texts that the grammar accepts are the texts that write a sequence
/// of expressions; every other text has a syntax error.
pub proof fn accepted_iff_written(s: Seq<u8>)
    ensures
        parse_tree(s) is Ok <==> exists|items: Seq<Tree>| writes_all(s, items),
{
    if parse_tree(s) is Ok {
        all_read_are_written(s, 0);
        assert(s.skip(0) =~= s);
        assert(writes_all(s, drawn_all(statements_at(s, 0)->Ok_0)));
    }
    if exists|items: Seq<Tree>| writes_all(s, items) {
        let items = choose|items: Seq<Tree>| writes_all(s, items);
        all_written_are_read(s, items);
    }
}

/// The texts that parse to a syntax tree are the texts that write its
/// expressions, and a syntax tree holds only numbers of 64 bits. A text
/// that writes expressions with a number beyond that does not parse.
pub proof fn parsed_iff_written(s: Seq<u8>, items: Seq<Tree>)
    ensures
        parsed(s) == Ok::<Tree, Failure>(Tree::Expressions(items)) <==> writes_all(s, items)
            && are_expressions(items),
        writes_all(s, items) && !are_expressions(items) ==> parsed(s) is Err && parsed(
            s,
        )->Err_0 is Overflow,
{
    statements_are_shaped(s, 0);
    if statements_at(s, 0) is Ok {
        built_all_is_drawn(statements_at(s, 0)->Ok_0);
        all_read_are_written(s, 0);
        assert(s.skip(0) =~= s);
    }
    if writes_all(s, items) {
        all_written_are_read(s, items);
    }
}

/// A text parses if and only if it writes expressions whose numbers fit
/// in 64 bits, and then it parses to the expressions that it writes.
pub proof fn parses_iff_written(s: Seq<u8>)
    ensures
        parsed(s) is Ok <==> exists|items: Seq<Tree>|
            writes_all(s, items) && are_expressions(items),
        parsed(s) is Ok ==> writes_all(s, parsed(s)->Ok_0->Expressions_0),
{
    if parsed(s) is Ok {
        let items = parsed(s)->Ok_0->Expressions_0;
        parsed_iff_written(s, items);
    }
    if exists|items: Seq<Tree>| writes_all(s, items) && are_expressions(items) {
        let items = choose|items: Seq<Tree>| writes_all(s, items) && are_expressions(items);
        parsed_iff_written(s, items);
    }
}

} // verus!
