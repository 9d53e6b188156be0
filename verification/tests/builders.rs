use plasma::grammar::expressions;
use plasma::number::{read, Reading};
use plasma::{
    parse_assignment, parse_expression, parse_identifier, parse_number, AstNode, Pair, ParseError,
    Rule,
};

fn leaf(rule: Rule, text: &str, start: usize) -> Pair<'_> {
    Pair {
        rule,
        text,
        start,
        inner: vec![],
    }
}

#[test]
fn the_grammar_gives_the_tree_of_an_assignment() {
    assert_eq!(
        expressions("foobar = 1337"),
        Ok(Pair {
            rule: Rule::Expressions,
            text: "foobar = 1337",
            start: 0,
            inner: vec![
                Pair {
                    rule: Rule::Assignment,
                    text: "foobar = 1337",
                    start: 0,
                    inner: vec![
                        leaf(Rule::Identifier, "foobar", 0),
                        leaf(Rule::Number, "1337", 9),
                    ],
                },
                leaf(Rule::EndOfInput, "", 13),
            ],
        })
    );
}

#[test]
fn the_grammar_leaves_blanks_out_of_the_nodes() {
    assert_eq!(
        expressions("  a \n -2\t"),
        Ok(Pair {
            rule: Rule::Expressions,
            text: "  a \n -2\t",
            start: 0,
            inner: vec![
                leaf(Rule::Identifier, "a", 2),
                leaf(Rule::Number, "-2", 6),
                leaf(Rule::EndOfInput, "", 9),
            ],
        })
    );
}

#[test]
fn the_grammar_nests_assignments() {
    assert_eq!(
        expressions("a=b =c"),
        Ok(Pair {
            rule: Rule::Expressions,
            text: "a=b =c",
            start: 0,
            inner: vec![
                Pair {
                    rule: Rule::Assignment,
                    text: "a=b =c",
                    start: 0,
                    inner: vec![
                        leaf(Rule::Identifier, "a", 0),
                        Pair {
                            rule: Rule::Assignment,
                            text: "b =c",
                            start: 2,
                            inner: vec![
                                leaf(Rule::Identifier, "b", 2),
                                leaf(Rule::Identifier, "c", 5),
                            ],
                        },
                    ],
                },
                leaf(Rule::EndOfInput, "", 6),
            ],
        })
    );
}

#[test]
fn the_grammar_checks_no_range() {
    assert_eq!(
        expressions("99999999999999999999"),
        Ok(Pair {
            rule: Rule::Expressions,
            text: "99999999999999999999",
            start: 0,
            inner: vec![
                leaf(Rule::Number, "99999999999999999999", 0),
                leaf(Rule::EndOfInput, "", 20),
            ],
        })
    );
}

#[test]
fn a_number_is_built_from_the_text_of_the_node() {
    assert_eq!(
        parse_number(&leaf(Rule::Number, "1337", 0)),
        Ok(AstNode::Number(1337))
    );
    assert_eq!(
        parse_number(&leaf(Rule::Number, "-42", 5)),
        Ok(AstNode::Number(-42))
    );
    assert_eq!(
        parse_number(&leaf(Rule::Identifier, "+7", 5)),
        Ok(AstNode::Number(7))
    );
}

#[test]
fn a_number_out_of_range_is_an_overflow() {
    assert_eq!(
        parse_number(&leaf(Rule::Number, "9223372036854775808", 3)),
        Err(ParseError::Overflow { position: 3 })
    );
    assert_eq!(
        parse_number(&leaf(Rule::Number, "-9223372036854775809", 0)),
        Err(ParseError::Overflow { position: 0 })
    );
}

#[test]
fn a_text_that_is_no_literal_is_malformed() {
    for text in ["", "+", "-", "12a", "a12", "1 2", " 1", "1 ", "--1", "1.5", "0x10", "\u{663}"] {
        assert_eq!(
            parse_number(&leaf(Rule::Number, text, 7)),
            Err(ParseError::MalformedLiteral { position: 7 }),
            "on {:?}",
            text
        );
    }
    assert_eq!(
        parse_number(&leaf(Rule::Number, "99999999999999999999x", 1)),
        Err(ParseError::MalformedLiteral { position: 1 })
    );
}

#[test]
fn an_identifier_is_the_text_of_the_node() {
    assert_eq!(
        parse_identifier(&leaf(Rule::Identifier, "foobar", 0)),
        AstNode::Identifier("foobar")
    );
    assert_eq!(
        parse_identifier(&leaf(Rule::Number, "12", 0)),
        AstNode::Identifier("12")
    );
}

#[test]
fn an_assignment_takes_its_name_and_builds_its_value() {
    let pair = Pair {
        rule: Rule::Assignment,
        text: "x = 1",
        start: 0,
        inner: vec![leaf(Rule::Identifier, "x", 0), leaf(Rule::Number, "1", 4)],
    };
    let expected = Ok(AstNode::Assignment("x", Box::new(AstNode::Number(1))));
    assert_eq!(parse_assignment(&pair), expected);
    assert_eq!(parse_expression(&pair), expected);
}

#[test]
fn an_assignment_reads_only_its_first_two_nodes() {
    let pair = Pair {
        rule: Rule::Assignment,
        text: "x = y z",
        start: 0,
        inner: vec![
            leaf(Rule::Identifier, "x", 0),
            leaf(Rule::Identifier, "y", 4),
            leaf(Rule::Expressions, "z", 6),
        ],
    };
    assert_eq!(
        parse_assignment(&pair),
        Ok(AstNode::Assignment("x", Box::new(AstNode::Identifier("y"))))
    );
}

#[test]
fn an_assignment_without_its_nodes_breaks_the_structure() {
    let empty = Pair {
        rule: Rule::Assignment,
        text: "x =",
        start: 2,
        inner: vec![],
    };
    let half = Pair {
        rule: Rule::Assignment,
        text: "x =",
        start: 2,
        inner: vec![leaf(Rule::Identifier, "x", 2)],
    };
    let expected = Err(ParseError::StructuralInvariant {
        position: 2,
        rule: Rule::Assignment,
    });
    assert_eq!(parse_assignment(&empty), expected);
    assert_eq!(parse_assignment(&half), expected);
    assert_eq!(parse_expression(&half), expected);
}

#[test]
fn a_failure_in_the_value_is_the_failure_of_the_assignment() {
    let pair = Pair {
        rule: Rule::Assignment,
        text: "x = 99999999999999999999",
        start: 0,
        inner: vec![
            leaf(Rule::Identifier, "x", 0),
            leaf(Rule::Number, "99999999999999999999", 4),
        ],
    };
    assert_eq!(
        parse_expression(&pair),
        Err(ParseError::Overflow { position: 4 })
    );
}

#[test]
fn a_node_of_another_rule_is_no_expression() {
    assert_eq!(
        parse_expression(&leaf(Rule::EndOfInput, "", 9)),
        Err(ParseError::StructuralInvariant {
            position: 9,
            rule: Rule::EndOfInput,
        })
    );
    let nested = Pair {
        rule: Rule::Assignment,
        text: "x = ",
        start: 0,
        inner: vec![
            leaf(Rule::Identifier, "x", 0),
            leaf(Rule::Expressions, "", 4),
        ],
    };
    assert_eq!(
        parse_expression(&nested),
        Err(ParseError::StructuralInvariant {
            position: 4,
            rule: Rule::Expressions,
        })
    );
}

#[test]
fn reading_gives_the_value_of_the_digits() {
    assert_eq!(read(b"0"), Reading::Value(0));
    assert_eq!(read(b"1337"), Reading::Value(1337));
    assert_eq!(read(b"+1337"), Reading::Value(1337));
    assert_eq!(read(b"-1337"), Reading::Value(-1337));
    assert_eq!(read(b"000123"), Reading::Value(123));
    assert_eq!(read(b"9223372036854775807"), Reading::Value(i64::MAX));
    assert_eq!(read(b"-9223372036854775808"), Reading::Value(i64::MIN));
    assert_eq!(read(b"9223372036854775808"), Reading::Overflow);
    assert_eq!(read(b"+9223372036854775808"), Reading::Overflow);
    assert_eq!(read(b"-9223372036854775809"), Reading::Overflow);
    assert_eq!(read(b"92233720368547758070"), Reading::Overflow);
    assert_eq!(read(b"18446744073709551616"), Reading::Overflow);
    assert_eq!(read(b"-"), Reading::Malformed);
    assert_eq!(read(b""), Reading::Malformed);
    assert_eq!(read(b"12 "), Reading::Malformed);
}

#[test]
fn every_error_tells_its_position() {
    assert_eq!(
        ParseError::Syntax {
            position: 3,
            expected: vec![Rule::Identifier, Rule::Number],
        }
        .position(),
        3
    );
    assert_eq!(ParseError::Overflow { position: 5 }.position(), 5);
    assert_eq!(ParseError::MalformedLiteral { position: 7 }.position(), 7);
    assert_eq!(
        ParseError::StructuralInvariant {
            position: 11,
            rule: Rule::EndOfInput,
        }
        .position(),
        11
    );
    assert_eq!(plasma::parse("x = \n $").map_err(|e| e.position()), Err(6));
}
