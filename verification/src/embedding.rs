//! How the reading of a text carries over to a longer text that holds it.

use crate::error::Failure;
use crate::grammar::{
    after, expression_at, expression_is_shaped, expression_spans, expression_starts, name_end,
    number_end, statement_starts, statements_are_shaped, statements_at, token, tokens_end_inside,
    EQUALS,
};
use crate::pair::{moved_all, Node, Rule};
use crate::scan::{
    is_digit, is_name_start, is_sign, is_space, run_end, run_end_is_maximal, run_end_is_unique,
    Class,
};
use vstd::prelude::*;

verus! {

/// A run that ends inside `a` ends at the same place when `b` follows `a`.
pub proof fn run_stays(a: Seq<u8>, b: Seq<u8>, class: Class, from: int)
    requires
        0 <= from <= a.len(),
        run_end(a, class, from) < a.len(),
    ensures
        run_end(a + b, class, from) == run_end(a, class, from),
{
    run_end_is_maximal(a, class, from);
    let to = run_end(a, class, from);
    assert forall|k: int| from <= k < to implies class.has(#[trigger] (a + b)[k]) by {
        assert((a + b)[k] == a[k]);
    }
    assert((a + b)[to] == a[to]);
    run_end_is_unique(a + b, class, from, to);
}

/// A run that reaches the end of `a` goes on with the run at the start of
/// `b` when `b` follows `a`.
pub proof fn run_goes_on(a: Seq<u8>, b: Seq<u8>, class: Class, from: int)
    requires
        0 <= from <= a.len(),
        run_end(a, class, from) == a.len(),
    ensures
        run_end(a + b, class, from) == a.len() + run_end(b, class, 0),
{
    run_end_is_maximal(a, class, from);
    run_end_is_maximal(b, class, 0);
    let to = a.len() + run_end(b, class, 0);
    assert forall|k: int| from <= k < to implies class.has(#[trigger] (a + b)[k]) by {
        if k < a.len() {
            assert((a + b)[k] == a[k]);
        } else {
            assert((a + b)[k] == b[k - a.len()]);
        }
    }
    if to < (a + b).len() {
        assert((a + b)[to] == b[to - a.len()]);
    }
    run_end_is_unique(a + b, class, from, to);
}

/// A run of `b` is found in `a + b` further on by the length of `a`.
pub proof fn run_moves(a: Seq<u8>, b: Seq<u8>, class: Class, from: int)
    requires
        0 <= from <= b.len(),
    ensures
        run_end(a + b, class, a.len() + from) == a.len() + run_end(b, class, from),
{
    run_end_is_maximal(b, class, from);
    let to = a.len() + run_end(b, class, from);
    assert forall|k: int| a.len() + from <= k < to implies class.has(#[trigger] (a + b)[k]) by {
        assert((a + b)[k] == b[k - a.len()]);
    }
    if to < (a + b).len() {
        assert((a + b)[to] == b[to - a.len()]);
    }
    run_end_is_unique(a + b, class, a.len() + from, to);
}

/// Whether a text can follow another without touching its last token:
/// it is empty, or it begins with a blank byte and its first byte that is
/// not blank, if it has one, is not `=`.
pub open spec fn stands_apart(b: Seq<u8>) -> bool {
    b.len() == 0 || {
        &&& is_space(b[0])
        &&& run_end(b, Class::Space, 0) < b.len() ==> b[run_end(b, Class::Space, 0)] != EQUALS
    }
}

/// An identifier of `a` ends at the same place when a text that begins
/// with a blank byte follows.
pub proof fn name_stays(a: Seq<u8>, b: Seq<u8>, from: int)
    requires
        0 <= from <= a.len(),
        b.len() > 0 ==> is_space(b[0]),
    ensures
        name_end(a + b, from) == name_end(a, from),
{
    if from < a.len() {
        assert((a + b)[from] == a[from]);
        if is_name_start(a[from]) {
            if run_end(a, Class::Name, from + 1) < a.len() {
                run_stays(a, b, Class::Name, from + 1);
            } else {
                run_end_is_maximal(a, Class::Name, from + 1);
                run_goes_on(a, b, Class::Name, from + 1);
            }
        }
    } else if b.len() > 0 {
        assert((a + b)[from] == b[0]);
    }
}

/// A number of `a` ends at the same place when a text that begins with a
/// blank byte follows.
pub proof fn number_stays(a: Seq<u8>, b: Seq<u8>, from: int)
    requires
        0 <= from <= a.len(),
        b.len() > 0 ==> is_space(b[0]),
    ensures
        number_end(a + b, from) == number_end(a, from),
{
    if from < a.len() {
        assert((a + b)[from] == a[from]);
        let digits = if is_sign(a[from]) {
            from + 1
        } else {
            from
        };
        if digits < a.len() {
            assert((a + b)[digits] == a[digits]);
            if is_digit(a[digits]) {
                if run_end(a, Class::Digit, digits) < a.len() {
                    run_stays(a, b, Class::Digit, digits);
                } else {
                    run_end_is_maximal(a, Class::Digit, digits);
                    run_goes_on(a, b, Class::Digit, digits);
                }
            }
        } else if b.len() > 0 {
            assert((a + b)[digits] == b[0]);
        }
    } else if b.len() > 0 {
        assert((a + b)[from] == b[0]);
    }
}

/// An identifier of `b` is found in `a + b` further on by the length of
/// `a`.
pub proof fn name_moves(a: Seq<u8>, b: Seq<u8>, from: int)
    requires
        0 <= from <= b.len(),
    ensures
        name_end(a + b, a.len() + from) == a.len() + name_end(b, from),
{
    if from < b.len() {
        assert((a + b)[a.len() + from] == b[from]);
        run_moves(a, b, Class::Name, from + 1);
    }
}

/// A number of `b` is found in `a + b` further on by the length of `a`.
pub proof fn number_moves(a: Seq<u8>, b: Seq<u8>, from: int)
    requires
        0 <= from <= b.len(),
    ensures
        number_end(a + b, a.len() + from) == a.len() + number_end(b, from),
{
    if from < b.len() {
        assert((a + b)[a.len() + from] == b[from]);
        let digits = if is_sign(b[from]) {
            from + 1
        } else {
            from
        };
        if digits < b.len() {
            assert((a + b)[a.len() + digits] == b[digits]);
            run_moves(a, b, Class::Digit, digits);
        }
    }
}

/// An expression of `a` is read in the same way when a text that stands
/// apart follows.
pub proof fn expression_stays(a: Seq<u8>, b: Seq<u8>, from: int, or_end: bool)
    requires
        0 <= from <= a.len(),
        expression_at(a, from, or_end) is Ok,
        stands_apart(b),
    ensures
        expression_at(a + b, from, or_end) == expression_at(a, from, or_end),
    decreases a.len() - from,
{
    let t = a + b;
    if b.len() == 0 {
        assert(t =~= a);
    } else {
        let name = name_end(a, from);
        name_stays(a, b, from);
        number_stays(a, b, from);
        expression_spans(a, from, or_end);
        if name > from {
            run_end_is_maximal(a, Class::Name, from + 1);
            run_end_is_maximal(a, Class::Space, name);
            let sign = run_end(a, Class::Space, name);
            if sign < a.len() {
                run_stays(a, b, Class::Space, name);
                assert(t[sign] == a[sign]);
                if a[sign] == EQUALS {
                    let value_at = run_end(a, Class::Space, sign + 1);
                    run_end_is_maximal(a, Class::Space, sign + 1);
                    expression_spans(a, value_at, false);
                    run_stays(a, b, Class::Space, sign + 1);
                    expression_stays(a, b, value_at, false);
                    let value = expression_at(a, value_at, false)->Ok_0;
                    assert(t.subrange(from, value.end()) =~= a.subrange(from, value.end()));
                    assert(t.subrange(from, name) =~= a.subrange(from, name));
                } else {
                    assert(t.subrange(from, name) =~= a.subrange(from, name));
                }
            } else {
                run_goes_on(a, b, Class::Space, name);
                run_end_is_maximal(b, Class::Space, 0);
                let sign_after = a.len() + run_end(b, Class::Space, 0);
                if sign_after < t.len() {
                    assert(t[sign_after] == b[sign_after - a.len()]);
                }
                assert(t.subrange(from, name) =~= a.subrange(from, name));
            }
        } else {
            let number = number_end(a, from);
            tokens_end_inside(a, from);
            assert(t.subrange(from, number) =~= a.subrange(from, number));
        }
    }
}

/// What was read, found `by` bytes further into a text.
pub open spec fn moved_node(read: Result<Node, Failure>, by: int) -> Result<Node, Failure> {
    match read {
        Ok(node) => Ok(node.moved(by)),
        Err(failure) => Err(failure.moved(by)),
    }
}

/// What was read, found `by` bytes further into a text.
pub open spec fn moved_nodes(read: Result<Seq<Node>, Failure>, by: int) -> Result<
    Seq<Node>,
    Failure,
> {
    match read {
        Ok(nodes) => Ok(moved_all(nodes, by)),
        Err(failure) => Err(failure.moved(by)),
    }
}

/// A token of `b` is found in `a + b` further on by the length of `a`.
pub proof fn token_moves(rule: Rule, a: Seq<u8>, b: Seq<u8>, from: int, to: int)
    requires
        0 <= from <= to <= b.len(),
    ensures
        token(rule, a + b, a.len() + from, a.len() + to) == token(rule, b, from, to).moved(
            a.len() as int,
        ),
{
    assert((a + b).subrange(a.len() + from, a.len() + to) =~= b.subrange(from, to));
    assert(moved_all(seq![], a.len() as int) =~= seq![]);
}

/// What is read in `b` at `from` is read in `a + b` further on by the
/// length of `a`.
pub proof fn expression_moves(a: Seq<u8>, b: Seq<u8>, from: int, or_end: bool)
    requires
        0 <= from <= b.len(),
    ensures
        expression_at(a + b, a.len() + from, or_end) == moved_node(
            expression_at(b, from, or_end),
            a.len() as int,
        ),
    decreases b.len() - from,
{
    let t = a + b;
    let by = a.len() as int;
    let name = name_end(b, from);
    let number = number_end(b, from);
    name_moves(a, b, from);
    number_moves(a, b, from);
    tokens_end_inside(b, from);
    if name > from {
        let sign = run_end(b, Class::Space, name);
        run_end_is_maximal(b, Class::Space, name);
        run_moves(a, b, Class::Space, name);
        token_moves(Rule::Identifier, a, b, from, name);
        if sign < b.len() {
            assert(t[by + sign] == b[sign]);
            if b[sign] == EQUALS {
                let value_at = run_end(b, Class::Space, sign + 1);
                run_end_is_maximal(b, Class::Space, sign + 1);
                run_moves(a, b, Class::Space, sign + 1);
                expression_moves(a, b, value_at, false);
                if let Ok(value) = expression_at(b, value_at, false) {
                    expression_spans(b, value_at, false);
                    let node = expression_at(b, from, or_end)->Ok_0;
                    let moved = expression_at(t, by + from, or_end)->Ok_0;
                    assert(value.moved(by).end() == by + value.end());
                    assert(t.subrange(by + from, by + value.end()) =~= b.subrange(
                        from,
                        value.end(),
                    ));
                    assert(moved.inner =~= moved_all(node.inner, by));
                }
            }
        }
    } else if number > from {
        token_moves(Rule::Number, a, b, from, number);
    }
}

/// The expressions of `a` are read in the same way when a text that
/// stands apart follows; where `a` ends, the reading goes on into what
/// follows.
pub proof fn statements_stay(a: Seq<u8>, b: Seq<u8>, from: int)
    requires
        0 <= from <= a.len(),
        statements_at(a, from) is Ok,
        stands_apart(b),
        b.len() > 0,
    ensures
        statements_at(a + b, from) == after(
            statements_at(a, from)->Ok_0.drop_last(),
            statements_at(a + b, a.len() as int),
        ),
    decreases a.len() - from,
{
    let t = a + b;
    let at = run_end(a, Class::Space, from);
    let end = statements_at(t, a.len() as int);
    run_end_is_maximal(a, Class::Space, from);
    if at == a.len() {
        run_goes_on(a, b, Class::Space, from);
        run_moves(a, b, Class::Space, 0);
        let front = statements_at(a, from)->Ok_0.drop_last();
        assert(front =~= seq![]);
        if let Ok(nodes) = end {
            assert(front + nodes =~= nodes);
        }
    } else {
        run_stays(a, b, Class::Space, from);
        let first = expression_at(a, at, true)->Ok_0;
        let rest = statements_at(a, first.end())->Ok_0;
        expression_stays(a, b, at, true);
        expression_spans(a, at, true);
        statements_stay(a, b, first.end());
        statements_are_shaped(a, first.end());
        assert((seq![first] + rest).drop_last() =~= seq![first] + rest.drop_last());
        if let Ok(nodes) = end {
            assert(seq![first] + (rest.drop_last() + nodes) =~= (seq![first] + rest.drop_last())
                + nodes);
        }
    }
}

/// What is read in `b` from `from` on is read in `a + b` further on by the
/// length of `a`.
pub proof fn statements_move(a: Seq<u8>, b: Seq<u8>, from: int)
    requires
        0 <= from <= b.len(),
    ensures
        statements_at(a + b, a.len() + from) == moved_nodes(
            statements_at(b, from),
            a.len() as int,
        ),
    decreases b.len() - from,
{
    let t = a + b;
    let by = a.len() as int;
    let at = run_end(b, Class::Space, from);
    run_end_is_maximal(b, Class::Space, from);
    run_moves(a, b, Class::Space, from);
    if at >= b.len() {
        token_moves(Rule::EndOfInput, a, b, b.len() as int, b.len() as int);
        let last = token(Rule::EndOfInput, b, b.len() as int, b.len() as int);
        assert(moved_all(seq![last], by) =~= seq![last.moved(by)]);
    } else {
        expression_moves(a, b, at, true);
        if let Ok(first) = expression_at(b, at, true) {
            expression_spans(b, at, true);
            statements_move(a, b, first.end());
            if let Ok(rest) = statements_at(b, first.end()) {
                assert(moved_all(seq![first] + rest, by) =~= seq![first.moved(by)] + moved_all(
                    rest,
                    by,
                ));
            }
        }
    }
}

/// In a text cut off at `cut`, a run ends where it ends in the whole text,
/// or at the cut.
pub proof fn run_is_cut(s: Seq<u8>, class: Class, from: int, cut: int)
    requires
        0 <= from <= cut <= s.len(),
    ensures
        run_end(s.take(cut), class, from) == if run_end(s, class, from) <= cut {
            run_end(s, class, from)
        } else {
            cut
        },
{
    run_end_is_maximal(s, class, from);
    let head = s.take(cut);
    let to = if run_end(s, class, from) <= cut {
        run_end(s, class, from)
    } else {
        cut
    };
    assert forall|k: int| from <= k < to implies class.has(#[trigger] head[k]) by {
        assert(head[k] == s[k]);
    }
    if to < cut {
        assert(head[to] == s[to]);
    }
    run_end_is_unique(head, class, from, to);
}

/// A token that ends before `cut` is the same token in the text cut off
/// at `cut`.
pub proof fn tokens_are_cut(s: Seq<u8>, from: int, cut: int)
    requires
        0 <= from <= cut <= s.len(),
    ensures
        name_end(s, from) <= cut ==> name_end(s.take(cut), from) == name_end(s, from),
        number_end(s, from) <= cut ==> number_end(s.take(cut), from) == number_end(s, from),
{
    let head = s.take(cut);
    tokens_end_inside(s, from);
    if from < cut {
        assert(head[from] == s[from]);
        if is_name_start(s[from]) {
            run_is_cut(s, Class::Name, from + 1, cut);
        }
        let digits = if is_sign(s[from]) {
            from + 1
        } else {
            from
        };
        if digits < cut {
            assert(head[digits] == s[digits]);
            run_is_cut(s, Class::Digit, digits, cut);
        } else if digits < s.len() && is_digit(s[digits]) {
            run_end_is_maximal(s, Class::Digit, digits);
        }
    } else if from < s.len() {
        if is_name_start(s[from]) {
            run_end_is_maximal(s, Class::Name, from + 1);
        }
        let digits = if is_sign(s[from]) {
            from + 1
        } else {
            from
        };
        if digits < s.len() && is_digit(s[digits]) {
            run_end_is_maximal(s, Class::Digit, digits);
        }
    }
}

/// What is read before `cut`, an expression that ends there at the latest
/// or a failure at `cut` itself, is read in the same way in the text cut
/// off at `cut`.
pub proof fn expression_is_cut(s: Seq<u8>, from: int, or_end: bool, cut: int)
    requires
        0 <= from <= cut <= s.len(),
        match expression_at(s, from, or_end) {
            Ok(node) => node.end() <= cut,
            Err(failure) => failure.position() == cut,
        },
    ensures
        expression_at(s.take(cut), from, or_end) == expression_at(s, from, or_end),
    decreases s.len() - from,
{
    let head = s.take(cut);
    let name = name_end(s, from);
    let number = number_end(s, from);
    tokens_end_inside(s, from);
    expression_is_shaped(s, from, or_end);
    if expression_at(s, from, or_end) is Ok {
        expression_spans(s, from, or_end);
    }
    if name > from {
        run_end_is_maximal(s, Class::Name, from + 1);
        run_end_is_maximal(s, Class::Space, name);
        let sign = run_end(s, Class::Space, name);
        if sign < s.len() && s[sign] == EQUALS {
            let value_at = run_end(s, Class::Space, sign + 1);
            run_end_is_maximal(s, Class::Space, sign + 1);
            expression_is_shaped(s, value_at, false);
            if expression_at(s, value_at, false) is Ok {
                expression_spans(s, value_at, false);
            }
            tokens_are_cut(s, from, cut);
            run_is_cut(s, Class::Space, name, cut);
            assert(head[sign] == s[sign]);
            run_is_cut(s, Class::Space, sign + 1, cut);
            expression_is_cut(s, value_at, false, cut);
            if let Ok(value) = expression_at(s, value_at, false) {
                assert(head.subrange(from, value.end()) =~= s.subrange(from, value.end()));
            }
            assert(head.subrange(from, name) =~= s.subrange(from, name));
        } else {
            tokens_are_cut(s, from, cut);
            run_is_cut(s, Class::Space, name, cut);
            if sign < cut {
                assert(head[sign] == s[sign]);
            }
            assert(head.subrange(from, name) =~= s.subrange(from, name));
        }
    } else if number > from {
        tokens_are_cut(s, from, cut);
        assert(head.subrange(from, number) =~= s.subrange(from, number));
    } else {
        tokens_are_cut(s, from, cut);
    }
}

/// Whether a syntax error came where the end of input would have done.
pub open spec fn wanted_end(failure: Failure) -> bool {
    failure is Syntax && failure->Syntax_expected == statement_starts()
}

/// A text that fails at `cut`, cut off there, is read to its end where the
/// end of input would have done, and fails in the same way at its end
/// where an expression is wanting.
pub proof fn statements_are_cut(s: Seq<u8>, from: int, cut: int)
    requires
        0 <= from <= cut <= s.len(),
        statements_at(s, from) is Err,
        statements_at(s, from)->Err_0.position() == cut,
    ensures
        wanted_end(statements_at(s, from)->Err_0) ==> statements_at(s.take(cut), from) is Ok,
        !wanted_end(statements_at(s, from)->Err_0) ==> statements_at(s.take(cut), from)
            == statements_at(s, from),
    decreases s.len() - from,
{
    let head = s.take(cut);
    let at = run_end(s, Class::Space, from);
    run_end_is_maximal(s, Class::Space, from);
    expression_is_shaped(s, at, true);
    assert(statement_starts().len() != expression_starts().len());
    match expression_at(s, at, true) {
        Err(failure) => {
            run_is_cut(s, Class::Space, from, cut);
            if at < cut {
                expression_is_cut(s, at, true, cut);
            }
        },
        Ok(first) => {
            expression_spans(s, at, true);
            statements_are_shaped(s, first.end());
            run_is_cut(s, Class::Space, from, cut);
            expression_is_cut(s, at, true, cut);
            statements_are_cut(s, first.end(), cut);
        },
    }
}

} // verus!
