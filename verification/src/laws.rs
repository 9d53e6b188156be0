//! Laws of parsing: what holds of texts put together, and of the place of a
//! syntax error.

use crate::ast::{
    assignment_built, built, built_all, built_of_statements_at, number_built, parsed, trees_after,
    Tree,
};
use crate::embedding::{
    expression_moves, run_moves, stands_apart, statements_are_cut, statements_move,
    statements_stay, wanted_end,
};
use crate::error::Failure;
use crate::grammar::{
    expression_at, is_name, name_end, number_end, parse_tree, statements_are_shaped,
    statements_at, EQUALS,
};
use crate::number::{digits_of, is_literal};
use crate::pair::{moved_all, Node, Rule};
use crate::scan::{
    is_digit, is_name_part, is_sign, is_space, run_end, run_end_is_maximal, run_end_is_unique,
    Class,
};
use vstd::prelude::*;

verus! {

/// What was built, from nodes found `by` bytes further into a text: the
/// same tree, or the same failure further on.
pub open spec fn moved_tree(made: Result<Tree, Failure>, by: int) -> Result<Tree, Failure> {
    match made {
        Ok(tree) => Ok(tree),
        Err(failure) => Err(failure.moved(by)),
    }
}

/// What was built, from nodes found `by` bytes further into a text: the
/// same trees, or the same failure further on.
pub open spec fn moved_trees(made: Result<Seq<Tree>, Failure>, by: int) -> Result<
    Seq<Tree>,
    Failure,
> {
    match made {
        Ok(trees) => Ok(trees),
        Err(failure) => Err(failure.moved(by)),
    }
}

/// A node builds into the same expression wherever in a text it is found.
pub proof fn built_wherever(node: Node, by: int)
    ensures
        built(node.moved(by)) == moved_tree(built(node), by),
        assignment_built(node.moved(by)) == moved_tree(assignment_built(node), by),
    decreases node,
{
    if node.inner.len() >= 2 {
        built_wherever(node.inner[1], by);
        assert(node.moved(by).inner[1] == node.inner[1].moved(by));
        assert(node.moved(by).inner[0] == node.inner[0].moved(by));
    }
    assert(number_built(node.moved(by)) == moved_tree(number_built(node), by));
}

/// Nodes build into the same expressions wherever in a text they are
/// found.
pub proof fn built_all_wherever(nodes: Seq<Node>, by: int)
    ensures
        built_all(moved_all(nodes, by)) == moved_trees(built_all(nodes), by),
    decreases nodes.len(),
{
    if nodes.len() > 0 {
        built_wherever(nodes[0], by);
        built_all_wherever(nodes.drop_first(), by);
        assert(moved_all(nodes, by).drop_first() =~= moved_all(nodes.drop_first(), by));
    }
}

/// Building a sequence of nodes builds its front and then its back; the
/// first failure is the failure of the whole.
pub proof fn built_all_in_parts(front: Seq<Node>, back: Seq<Node>)
    ensures
        built_all(front + back) == match built_all(front) {
            Ok(trees) => trees_after(trees, built_all(back)),
            Err(failure) => Err(failure),
        },
    decreases front.len(),
{
    if front.len() == 0 {
        assert(front + back =~= back);
        if let Ok(trees) = built_all(back) {
            assert(seq![] + trees =~= trees);
        }
    } else {
        let rest = front.drop_first();
        built_all_in_parts(rest, back);
        assert((front + back).drop_first() =~= rest + back);
        assert((front + back)[0] == front[0]);
        if front[0].rule != Rule::EndOfInput {
            if let Ok(first) = built(front[0]) {
                if let Ok(trees) = built_all(rest) {
                    if let Ok(more) = built_all(back) {
                        assert(seq![first] + (trees + more) =~= (seq![first] + trees) + more);
                    }
                }
            }
        }
    }
}

/// Whether every byte is blank.
pub open spec fn all_blank(gap: Seq<u8>) -> bool {
    forall|i: int| 0 <= i < gap.len() ==> is_space(#[trigger] gap[i])
}

/// Whether the first byte of the text that is not blank is `=`.
pub open spec fn begins_with_equals(b: Seq<u8>) -> bool {
    run_end(b, Class::Space, 0) < b.len() && b[run_end(b, Class::Space, 0)] == EQUALS
}

/// The rule of identifiers: a text that is an identifier is read as one
/// identifier, with that text, whatever follows it that cannot go on with
/// the identifier or make an assignment of it.
pub proof fn name_is_read(name: Seq<u8>, rest: Seq<u8>, or_end: bool)
    requires
        is_name(name),
        rest.len() == 0 || !is_name_part(rest[0]),
        !begins_with_equals(rest),
    ensures
        expression_at(name + rest, 0, or_end) == Ok::<Node, Failure>(
            Node { rule: Rule::Identifier, text: name, start: 0, inner: seq![] },
        ),
{
    let t = name + rest;
    let n = name.len() as int;
    assert(t[0] == name[0]);
    assert forall|k: int| 1 <= k < n implies Class::Name.has(#[trigger] t[k]) by {
        assert(t[k] == name[k]);
    }
    if rest.len() > 0 {
        assert(t[n] == rest[0]);
    }
    run_end_is_unique(t, Class::Name, 1, n);
    run_moves(name, rest, Class::Space, 0);
    run_end_is_maximal(rest, Class::Space, 0);
    let sign = n + run_end(rest, Class::Space, 0);
    if sign < t.len() {
        assert(t[sign] == rest[sign - n]);
    }
    assert(t.subrange(0, n) =~= name);
}

/// The rule of numbers: a text that is an integer literal is read as one
/// number, with that text, whatever follows it that is no digit.
pub proof fn literal_is_read(text: Seq<u8>, rest: Seq<u8>, or_end: bool)
    requires
        is_literal(text),
        rest.len() == 0 || !is_digit(rest[0]),
    ensures
        expression_at(text + rest, 0, or_end) == Ok::<Node, Failure>(
            Node { rule: Rule::Number, text, start: 0, inner: seq![] },
        ),
{
    let t = text + rest;
    let n = text.len() as int;
    let digits: int = if is_sign(text[0]) {
        1
    } else {
        0
    };
    assert(t[0] == text[0]);
    assert forall|k: int| digits <= k < n implies Class::Digit.has(#[trigger] t[k]) by {
        assert(t[k] == text[k]);
        assert(text[k] == digits_of(text)[k - digits]);
    }
    assert(t[digits] == digits_of(text)[0]);
    if rest.len() > 0 {
        assert(t[n] == rest[0]);
    }
    run_end_is_unique(t, Class::Digit, digits, n);
    assert(name_end(t, 0) == 0);
    assert(t.subrange(0, n) =~= text);
}

/// The rule of assignments: an identifier, blank bytes or none, `=`, blank
/// bytes or none, and a text that is read as one expression are read as the
/// assignment of that expression to the identifier, whatever follows.
pub proof fn assignment_is_read(
    name: Seq<u8>,
    before: Seq<u8>,
    behind: Seq<u8>,
    back: Seq<u8>,
    rest: Seq<u8>,
    or_end: bool,
)
    requires
        is_name(name),
        all_blank(before),
        all_blank(behind),
        back.len() > 0,
        !is_space(back[0]),
        expression_at(back + rest, 0, false) is Ok,
        expression_at(back + rest, 0, false)->Ok_0.end() == back.len(),
    ensures
        ({
            let t = name + before + seq![EQUALS] + behind + back;
            let value = expression_at(back + rest, 0, false)->Ok_0;
            expression_at(t + rest, 0, or_end) == Ok::<Node, Failure>(
                Node {
                    rule: Rule::Assignment,
                    text: t,
                    start: 0,
                    inner: seq![
                        Node { rule: Rule::Identifier, text: name, start: 0, inner: seq![] },
                        value.moved(t.len() - back.len()),
                    ],
                },
            )
        }),
{
    let front = name + before + seq![EQUALS] + behind;
    let t = front + back;
    let whole = t + rest;
    let n = name.len() as int;
    let sign = n + before.len();
    let value_at = sign + 1 + behind.len();
    let value = expression_at(back + rest, 0, false)->Ok_0;
    assert(whole =~= front + (back + rest));
    expression_moves(front, back + rest, 0, false);
    assert(whole[0] == name[0]);
    assert forall|k: int| 1 <= k < n implies Class::Name.has(#[trigger] whole[k]) by {
        assert(whole[k] == name[k]);
    }
    assert forall|k: int| n <= k < sign implies Class::Space.has(#[trigger] whole[k]) by {
        assert(whole[k] == before[k - n]);
    }
    assert(whole[sign] == EQUALS);
    assert forall|k: int| sign + 1 <= k < value_at implies Class::Space.has(
        #[trigger] whole[k],
    ) by {
        assert(whole[k] == behind[k - sign - 1]);
    }
    assert(whole[value_at] == back[0]);
    if sign > n {
        assert(whole[n] == before[0]);
    }
    run_end_is_unique(whole, Class::Name, 1, n);
    assert(name_end(whole, 0) == n);
    run_end_is_unique(whole, Class::Space, n, sign);
    run_end_is_unique(whole, Class::Space, sign + 1, value_at);
    assert(expression_at(whole, value_at, false) == Ok::<Node, Failure>(value.moved(value_at)));
    assert(value.moved(value_at).end() == t.len());
    assert(whole.subrange(0, t.len() as int) =~= t);
    assert(whole.subrange(0, n) =~= name);
}

/// A text whose expressions can be read does not begin, after its blank
/// bytes, with `=`.
pub proof fn readable_text_begins_no_assignment(b: Seq<u8>)
    requires
        statements_at(b, 0) is Ok,
    ensures
        run_end(b, Class::Space, 0) < b.len() ==> b[run_end(b, Class::Space, 0)] != EQUALS,
{
    let at = run_end(b, Class::Space, 0);
    run_end_is_maximal(b, Class::Space, 0);
    if at < b.len() && b[at] == EQUALS {
        assert(name_end(b, at) == at);
        assert(number_end(b, at) == at);
        assert(expression_at(b, at, true) is Err);
    }
}

/// What parsing gives for a text that follows another: the expressions of
/// the text before it, then its own; or its own failure, further on by
/// the length of what stands before it.
pub open spec fn continued(front: Seq<Tree>, made: Result<Tree, Failure>, by: int) -> Result<
    Tree,
    Failure,
> {
    match made {
        Ok(tree) => Ok(Tree::Expressions(front + tree->Expressions_0)),
        Err(failure) => Err(failure.moved(by)),
    }
}

/// A text that follows a text that parses, with a blank byte between them,
/// is parsed as it is alone, and its expressions follow those of the text
/// before it. This holds of every text that does not begin with `=`, which
/// would bind what follows to the last name before it.
pub proof fn parsed_after(a: Seq<u8>, blank: u8, b: Seq<u8>)
    requires
        is_space(blank),
        parsed(a) is Ok,
        !begins_with_equals(b),
    ensures
        parsed(a + seq![blank] + b) == continued(
            parsed(a)->Ok_0->Expressions_0,
            parsed(b),
            a.len() as int + 1,
        ),
{
    let gap = seq![blank];
    let tail = gap + b;
    let t = a + gap + b;
    let by: int = a.len() as int + 1;
    assert(t =~= a + tail);
    assert(t =~= (a + gap) + b);
    let first = statements_at(a, 0)->Ok_0;
    let front = built_all(first)->Ok_0;
    // what follows `a` stands apart from it
    run_end_is_maximal(b, Class::Space, 0);
    run_moves(gap, b, Class::Space, 0);
    assert(run_end(tail, Class::Space, 0) == run_end(tail, Class::Space, 1));
    let stop = run_end(tail, Class::Space, 0);
    if stop < tail.len() {
        assert(tail[stop] == b[stop - 1]);
    }
    assert(stands_apart(tail));
    // the reading of `a` goes on into what follows
    statements_stay(a, tail, 0);
    // across the blank byte
    run_moves(a, tail, Class::Space, 0);
    run_moves(a + gap, b, Class::Space, 0);
    assert(run_end(t, Class::Space, a.len() as int) == run_end(t, Class::Space, by));
    assert(statements_at(t, a.len() as int) == statements_at(t, by));
    // and reads `b` as it is read alone
    statements_move(a + gap, b, 0);
    // the nodes of `a` build as they do apart, without the end of input
    statements_are_shaped(a, 0);
    built_all_in_parts(first.drop_last(), seq![first.last()]);
    assert(first.drop_last() + seq![first.last()] =~= first);
    assert(built_all(seq![first.last()]) == Ok::<Seq<Tree>, Failure>(seq![])) by {
        let rest = seq![first.last()].drop_first();
        assert(rest =~= seq![]);
        assert(built_all(rest) == Ok::<Seq<Tree>, Failure>(seq![]));
        assert(seq![first.last()][0].rule == Rule::EndOfInput);
    }
    assert(front + seq![] =~= front);
    // and so do the nodes of `b`
    if let Ok(second) = statements_at(b, 0) {
        let moved = moved_all(second, by);
        assert(statements_at(t, 0) == Ok::<Seq<Node>, Failure>(first.drop_last() + moved));
        built_all_wherever(second, by);
        built_all_in_parts(first.drop_last(), moved);
    }
}

/// Two texts that parse, written one after the other with a blank byte
/// between them, parse to the expressions of the first followed by the
/// expressions of the second.
pub proof fn parsed_in_sequence(a: Seq<u8>, blank: u8, b: Seq<u8>)
    requires
        is_space(blank),
        parsed(a) is Ok,
        parsed(b) is Ok,
    ensures
        parsed(a + seq![blank] + b) == Ok::<Tree, Failure>(
            Tree::Expressions(parsed(a)->Ok_0->Expressions_0 + parsed(b)->Ok_0->Expressions_0),
        ),
{
    readable_text_begins_no_assignment(b);
    parsed_after(a, blank, b);
}

/// A syntax error points at the furthest place that reading reached:
/// nothing fails before it. The text cut off at the failure is well formed
/// where the end of input would have done, and where an expression is
/// wanting after a `=`, it lacks only that expression, at its end.
pub proof fn syntax_error_is_furthest(s: Seq<u8>)
    requires
        parsed(s) is Err,
        parsed(s)->Err_0 is Syntax,
    ensures
        ({
            let failure = parsed(s)->Err_0;
            let head = s.take(failure.position());
            if wanted_end(failure) {
                parse_tree(head) is Ok
            } else {
                parse_tree(head) == Err::<Node, Failure>(failure)
            }
        }),
{
    statements_are_shaped(s, 0);
    if statements_at(s, 0) is Ok {
        built_of_statements_at(s, 0);
    } else {
        let failure = statements_at(s, 0)->Err_0;
        statements_are_cut(s, 0, failure.position());
    }
}

} // verus!
