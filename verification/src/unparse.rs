//! Writing a syntax tree out as a text that parses back to it.

use crate::ast::{
    are_expressions, assignment_built, built, built_all, number_built, parsed,
    parsed_is_well_formed, trees_of, AstNode, Tree,
};
use crate::error::Failure;
use crate::grammar::{expression_at, statements_at, token, EQUALS};
use crate::laws::{
    all_blank, assignment_is_read, built_wherever, literal_is_read, name_is_read,
    parsed_in_sequence,
};
use crate::number::{all_digits, digits_value, is_literal, literal_value, MINUS};
use crate::pair::{Node, Rule};
use crate::scan::{is_digit, is_space, run_end, Class};
use vstd::prelude::*;
use vstd::string::{is_ascii, StringExecFns, StringSliceAdditionalSpecFns};
use vstd::utf8::encode_utf8;

verus! {

/// The byte of a space.
pub const SPACE: u8 = 0x20;

/// The byte of a line feed.
pub const LINE_FEED: u8 = 0x0a;

/// The decimal digits of a natural number, without leading zeros.
pub open spec fn decimal(n: nat) -> Seq<u8>
    decreases n,
{
    if n < 10 {
        seq![(0x30 + n) as u8]
    } else {
        decimal(n / 10).push((0x30 + n % 10) as u8)
    }
}

/// The literal of an integer: `-` before the digits of a negative one.
pub open spec fn number_text(n: int) -> Seq<u8> {
    if n < 0 {
        seq![MINUS] + decimal((-n) as nat)
    } else {
        decimal(n as nat)
    }
}

/// The text of a sequence of trees: each on a line of its own.
pub open spec fn lines(items: Seq<Tree>) -> Seq<u8>
    decreases items,
{
    if items.len() == 0 {
        seq![]
    } else {
        unparsed(items[0]) + seq![LINE_FEED] + lines(items.drop_first())
    }
}

/// The text of a tree: a number as its literal, a name as it is, an
/// assignment as the name, ` = ` and the text of the value, a sequence of
/// expressions as the lines of their texts.
pub open spec fn unparsed(tree: Tree) -> Seq<u8>
    decreases tree,
{
    match tree {
        Tree::Expressions(items) => lines(items),
        Tree::Assignment(name, value) => name + seq![SPACE, EQUALS, SPACE] + unparsed(*value),
        Tree::Number(n) => number_text(n),
        Tree::Identifier(name) => name,
    }
}

/// The bytes of two texts in a row are the bytes of the first, then the
/// bytes of the second.
pub proof fn bytes_in_a_row(a: Seq<char>, b: Seq<char>)
    ensures
        encode_utf8(a + b) == encode_utf8(a) + encode_utf8(b),
    decreases a.len(),
{
    if a.len() == 0 {
        assert(a + b =~= b);
        assert(encode_utf8(a) + encode_utf8(b) =~= encode_utf8(b));
    } else {
        bytes_in_a_row(a.drop_first(), b);
        assert((a + b).drop_first() =~= a.drop_first() + b);
        assert(encode_utf8(a + b) =~= encode_utf8(a) + encode_utf8(b));
    }
}

/// Appends a piece of text.
fn write(out: &mut String, piece: &str)
    ensures
        encode_utf8(final(out)@) == encode_utf8(old(out)@) + piece.spec_bytes(),
{
    proof {
        bytes_in_a_row(out@, piece@);
    }
    out.append(piece);
}

/// The text of one decimal digit.
fn digit(d: u64) -> (text: &'static str)
    requires
        d < 10,
    ensures
        text.spec_bytes() == seq![(0x30 + d) as u8],
{
    broadcast use vstd::string::is_ascii_spec_bytes;

    proof {
        reveal_strlit("0");
        reveal_strlit("1");
        reveal_strlit("2");
        reveal_strlit("3");
        reveal_strlit("4");
        reveal_strlit("5");
        reveal_strlit("6");
        reveal_strlit("7");
        reveal_strlit("8");
        reveal_strlit("9");
    }
    let text = if d == 0 {
        "0"
    } else if d == 1 {
        "1"
    } else if d == 2 {
        "2"
    } else if d == 3 {
        "3"
    } else if d == 4 {
        "4"
    } else if d == 5 {
        "5"
    } else if d == 6 {
        "6"
    } else if d == 7 {
        "7"
    } else if d == 8 {
        "8"
    } else {
        "9"
    };
    assert(is_ascii(text));
    assert(text.spec_bytes() =~= seq![(0x30 + d) as u8]);
    text
}

/// Appends the decimal digits of `n`.
fn write_decimal(out: &mut String, n: u64)
    ensures
        encode_utf8(final(out)@) == encode_utf8(old(out)@) + decimal(n as nat),
    decreases n,
{
    let ghost before = encode_utf8(out@);
    if n >= 10 {
        write_decimal(out, n / 10);
    }
    write(out, digit(n % 10));
    proof {
        if n >= 10 {
            let front = decimal((n / 10) as nat);
            let last = seq![(0x30 + n % 10) as u8];
            assert((before + front) + last =~= before + front.push((0x30 + n % 10) as u8));
        }
    }
}

/// Appends the literal of `n`.
fn write_number(out: &mut String, n: i64)
    ensures
        encode_utf8(final(out)@) == encode_utf8(old(out)@) + number_text(n as int),
{
    broadcast use vstd::string::is_ascii_spec_bytes;

    let ghost before = encode_utf8(out@);
    if n < 0 {
        proof {
            reveal_strlit("-");
        }
        let sign = "-";
        assert(is_ascii(sign));
        assert(sign.spec_bytes() =~= seq![MINUS]);
        let size: u64 = (-(n + 1)) as u64 + 1;
        write(out, sign);
        write_decimal(out, size);
        assert((before + seq![MINUS]) + decimal(size as nat) =~= before + (seq![MINUS] + decimal(
            size as nat,
        )));
    } else {
        write_decimal(out, n as u64);
    }
}

/// Appends the text of a tree.
fn write_tree(out: &mut String, ast: &AstNode<'_>)
    ensures
        encode_utf8(final(out)@) == encode_utf8(old(out)@) + unparsed(ast@),
    decreases ast,
{
    broadcast use vstd::string::is_ascii_spec_bytes;

    let ghost before = encode_utf8(out@);
    match ast {
        AstNode::Expressions(items) => {
            let ghost trees = trees_of(items@);
            let mut i: usize = 0;
            assert(trees.skip(0) =~= trees);
            assert(before + seq![] =~= before);
            while i < items.len()
                invariant
                    i <= items@.len(),
                    trees == trees_of(items@),
                    *ast == AstNode::Expressions(*items),
                    encode_utf8(out@) + lines(trees.skip(i as int)) == before + lines(trees),
                decreases items@.len() - i,
            {
                let ghost so_far = encode_utf8(out@);
                let ghost line = unparsed(trees[i as int]);
                proof {
                    reveal_strlit("\n");
                    assert(trees.skip(i as int).drop_first() =~= trees.skip(i + 1));
                }
                let end = "\n";
                assert(is_ascii(end));
                assert(end.spec_bytes() =~= seq![LINE_FEED]);
                let item = &items[i];
                assert(decreases_to!(ast => ast->Expressions_0@[i as int]));
                write_tree(out, item);
                write(out, end);
                assert(((so_far + line) + seq![LINE_FEED]) + lines(trees.skip(i + 1)) =~= so_far
                    + (line + seq![LINE_FEED] + lines(trees.skip(i + 1))));
                i = i + 1;
            }
            assert(trees.skip(i as int) =~= seq![]);
            assert(encode_utf8(out@) + seq![] =~= encode_utf8(out@));
        },
        AstNode::Assignment(name, value) => {
            proof {
                reveal_strlit(" = ");
            }
            let binds = " = ";
            assert(is_ascii(binds));
            assert(binds.spec_bytes() =~= seq![SPACE, EQUALS, SPACE]);
            write(out, name);
            write(out, binds);
            write_tree(out, value);
            assert(((before + name.spec_bytes()) + seq![SPACE, EQUALS, SPACE]) + unparsed(value@)
                =~= before + (name.spec_bytes() + seq![SPACE, EQUALS, SPACE] + unparsed(value@)));
        },
        AstNode::Number(n) => {
            write_number(out, *n);
        },
        AstNode::Identifier(name) => {
            write(out, name);
        },
    }
}

/// Writes a syntax tree out as text: a number as its decimal literal, a
/// name as it is, an assignment as the name, ` = ` and the value, and a
/// sequence of expressions with each on a line of its own.
pub fn unparse(ast: &AstNode<'_>) -> (text: String)
    ensures
        encode_utf8(text@) == unparsed(ast@),
{
    let mut text = String::new();
    assert(encode_utf8(text@) =~= seq![]);
    write_tree(&mut text, ast);
    assert(seq![] + unparsed(ast@) =~= unparsed(ast@));
    text
}

/// The digits written for a number are digits, and they write that
/// number.
pub proof fn decimal_reads_back(n: nat)
    ensures
        decimal(n).len() > 0,
        all_digits(decimal(n)),
        digits_value(decimal(n)) == n,
    decreases n,
{
    if n < 10 {
        assert(decimal(n).drop_last() =~= seq![]);
        assert(digits_value(decimal(n).drop_last()) == 0);
    } else {
        decimal_reads_back(n / 10);
        assert(decimal(n).drop_last() =~= decimal(n / 10));
    }
}

/// The literal written for an integer is a literal of that value, and it
/// begins with `-` or a digit.
pub proof fn number_text_reads_back(n: int)
    ensures
        is_literal(number_text(n)),
        literal_value(number_text(n)) == n,
        number_text(n)[0] == MINUS || is_digit(number_text(n)[0]),
{
    let text = number_text(n);
    if n < 0 {
        let digits = decimal((-n) as nat);
        decimal_reads_back((-n) as nat);
        assert(text.drop_first() =~= digits);
    } else {
        decimal_reads_back(n as nat);
        assert(is_digit(text[0]));
    }
}

/// The text written for an expression is read as one expression that
/// takes the whole text and builds into the expression again.
pub proof fn expression_reads_back(tree: Tree, or_end: bool)
    requires
        tree.is_expression(),
    ensures
        unparsed(tree).len() > 0,
        !is_space(unparsed(tree)[0]),
        expression_at(unparsed(tree), 0, or_end) is Ok,
        expression_at(unparsed(tree), 0, or_end)->Ok_0.end() == unparsed(tree).len(),
        built(expression_at(unparsed(tree), 0, or_end)->Ok_0) == Ok::<Tree, Failure>(tree),
    decreases tree,
{
    let t = unparsed(tree);
    match tree {
        Tree::Expressions(_) => {},
        Tree::Number(n) => {
            number_text_reads_back(n);
            literal_is_read(t, seq![], or_end);
            assert(t + seq![] =~= t);
            let node = expression_at(t, 0, or_end)->Ok_0;
            assert(built(node) == number_built(node));
        },
        Tree::Identifier(name) => {
            name_is_read(name, seq![], or_end);
            assert(name + seq![] =~= name);
        },
        Tree::Assignment(name, value) => {
            let back = unparsed(*value);
            let by = name.len() as int + 3;
            expression_reads_back(*value, false);
            assert(all_blank(seq![SPACE]));
            assert(name + seq![SPACE] + seq![EQUALS] + seq![SPACE] + back =~= t);
            assert(back + seq![] =~= back);
            assert(t + seq![] =~= t);
            assignment_is_read(name, seq![SPACE], seq![SPACE], back, seq![], or_end);
            let inner = expression_at(back, 0, false)->Ok_0;
            let node = expression_at(t, 0, or_end)->Ok_0;
            built_wherever(inner, by);
            assert(node.inner[1] == inner.moved(by));
            assert(built(node) == assignment_built(node));
        },
    }
}

/// A sequence of expressions, written out, parses back to itself.
pub proof fn lines_parse_back(items: Seq<Tree>)
    requires
        are_expressions(items),
    ensures
        parsed(lines(items)) == Ok::<Tree, Failure>(Tree::Expressions(items)),
    decreases items.len(),
{
    if items.len() == 0 {
        let empty: Seq<u8> = seq![];
        let nodes = statements_at(empty, 0)->Ok_0;
        assert(nodes.drop_first() =~= seq![]);
        assert(built_all(nodes.drop_first()) == Ok::<Seq<Tree>, Failure>(seq![]));
        assert(built_all(nodes) == Ok::<Seq<Tree>, Failure>(seq![]));
        assert(items =~= seq![]);
    } else {
        let first = items[0];
        let rest = items.drop_first();
        let text = unparsed(first);
        lines_parse_back(rest);
        expression_reads_back(first, true);
        // the first expression alone
        let node = expression_at(text, 0, true)->Ok_0;
        let end = token(Rule::EndOfInput, text, text.len() as int, text.len() as int);
        assert(run_end(text, Class::Space, 0) == 0);
        assert(run_end(text, Class::Space, text.len() as int) == text.len());
        assert(statements_at(text, text.len() as int) == Ok::<Seq<Node>, Failure>(seq![end]));
        let nodes = seq![node] + seq![end];
        assert(statements_at(text, 0) == Ok::<Seq<Node>, Failure>(nodes));
        assert(nodes.drop_first() =~= seq![end]);
        assert(seq![end].drop_first() =~= seq![]);
        assert(built_all(seq![end].drop_first()) == Ok::<Seq<Tree>, Failure>(seq![]));
        assert(built_all(seq![end]) == Ok::<Seq<Tree>, Failure>(seq![]));
        assert(seq![first] + seq![] =~= seq![first]);
        assert(built_all(nodes) == Ok::<Seq<Tree>, Failure>(seq![first]));
        assert(parsed(text) == Ok::<Tree, Failure>(Tree::Expressions(seq![first])));
        // and then the others
        parsed_in_sequence(text, LINE_FEED, lines(rest));
        assert(seq![first] + rest =~= items);
    }
}

/// The text written for a syntax tree parses, and parses to that tree.
pub proof fn unparsed_parses_back(tree: Tree)
    requires
        tree.is_root(),
    ensures
        parsed(unparsed(tree)) == Ok::<Tree, Failure>(tree),
{
    lines_parse_back(tree->Expressions_0);
}

/// Round trip: the syntax tree of a text, written out and parsed again,
/// is the same tree.
pub proof fn round_trip(s: Seq<u8>)
    requires
        parsed(s) is Ok,
    ensures
        parsed(unparsed(parsed(s)->Ok_0)) == parsed(s),
{
    parsed_is_well_formed(s);
    unparsed_parses_back(parsed(s)->Ok_0);
}

/// The literal of an integer parses to that integer if it fits in 64 bits;
/// the literal of any other integer, however close to the bounds, is an
/// overflow and never another number.
pub proof fn literal_parses_or_overflows(n: int)
    ensures
        parsed(number_text(n)) == if i64::MIN <= n <= i64::MAX {
            Ok::<Tree, Failure>(Tree::Expressions(seq![Tree::Number(n)]))
        } else {
            Err::<Tree, Failure>(Failure::Overflow { position: 0 })
        },
{
    let text = number_text(n);
    number_text_reads_back(n);
    literal_is_read(text, seq![], true);
    assert(text + seq![] =~= text);
    let node = expression_at(text, 0, true)->Ok_0;
    let end = token(Rule::EndOfInput, text, text.len() as int, text.len() as int);
    assert(run_end(text, Class::Space, 0) == 0);
    assert(run_end(text, Class::Space, text.len() as int) == text.len());
    assert(statements_at(text, text.len() as int) == Ok::<Seq<Node>, Failure>(seq![end]));
    let nodes = seq![node] + seq![end];
    assert(statements_at(text, 0) == Ok::<Seq<Node>, Failure>(nodes));
    assert(built(node) == number_built(node));
    assert(nodes.drop_first() =~= seq![end]);
    assert(seq![end].drop_first() =~= seq![]);
    assert(built_all(seq![end].drop_first()) == Ok::<Seq<Tree>, Failure>(seq![]));
    assert(built_all(seq![end]) == Ok::<Seq<Tree>, Failure>(seq![]));
    assert(seq![Tree::Number(n)] + seq![] =~= seq![Tree::Number(n)]);
}

} // verus!
