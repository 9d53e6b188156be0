use plasma::{assert_parses_to, parse, AstNode, ParseError, Rule};

#[test]
fn it_parses_nothing() {
    assert!(assert_parses_to("", AstNode::Expressions(vec![])));
}

#[test]
fn it_parses_numbers() {
    assert!(assert_parses_to(
        "1337",
        AstNode::Expressions(vec![AstNode::Number(1337)])
    ));
}

#[test]
fn it_parses_variables() {
    assert!(assert_parses_to(
        "foobar",
        AstNode::Expressions(vec![AstNode::Identifier("foobar")])
    ));
}

#[test]
fn it_parses_assignments() {
    assert!(assert_parses_to(
        "foobar = 1337",
        AstNode::Expressions(vec![AstNode::Assignment(
            "foobar",
            Box::new(AstNode::Number(1337))
        )])
    ));
}

#[test]
fn parse_returns_the_tree_itself() {
    assert_eq!(parse(""), Ok(AstNode::Expressions(vec![])));
    assert_eq!(
        parse("1337"),
        Ok(AstNode::Expressions(vec![AstNode::Number(1337)]))
    );
    assert_eq!(
        parse("foobar"),
        Ok(AstNode::Expressions(vec![AstNode::Identifier("foobar")]))
    );
    assert_eq!(
        parse("foobar = 1337"),
        Ok(AstNode::Expressions(vec![AstNode::Assignment(
            "foobar",
            Box::new(AstNode::Number(1337))
        )]))
    );
}

#[test]
fn assert_parses_to_tells_a_different_tree() {
    assert!(!assert_parses_to(
        "1337",
        AstNode::Expressions(vec![AstNode::Number(1338)])
    ));
    assert!(!assert_parses_to(
        "foobar",
        AstNode::Expressions(vec![AstNode::Identifier("foobaz")])
    ));
    assert!(!assert_parses_to("1337", AstNode::Expressions(vec![])));
    assert!(!assert_parses_to("1337", AstNode::Number(1337)));
    assert!(!assert_parses_to(
        "a = 1",
        AstNode::Expressions(vec![AstNode::Assignment(
            "a",
            Box::new(AstNode::Identifier("1"))
        )])
    ));
    assert!(!assert_parses_to("= 5", AstNode::Expressions(vec![])));
}

#[test]
fn statements_keep_the_order_of_the_text() {
    assert_eq!(
        parse("a = 1\nb\n  42\t c = d\r\n-7"),
        Ok(AstNode::Expressions(vec![
            AstNode::Assignment("a", Box::new(AstNode::Number(1))),
            AstNode::Identifier("b"),
            AstNode::Number(42),
            AstNode::Assignment("c", Box::new(AstNode::Identifier("d"))),
            AstNode::Number(-7),
        ]))
    );
}

#[test]
fn blank_text_has_no_expressions() {
    assert_eq!(parse(" \t\r\n "), Ok(AstNode::Expressions(vec![])));
}

#[test]
fn assignments_nest_to_the_right() {
    assert_eq!(
        parse("a = b = 5"),
        Ok(AstNode::Expressions(vec![AstNode::Assignment(
            "a",
            Box::new(AstNode::Assignment("b", Box::new(AstNode::Number(5))))
        )]))
    );
}

#[test]
fn blanks_around_the_equals_sign_are_optional() {
    let expected = Ok(AstNode::Expressions(vec![AstNode::Assignment(
        "x",
        Box::new(AstNode::Number(1)),
    )]));
    assert_eq!(parse("x=1"), expected);
    assert_eq!(parse("x =1"), expected);
    assert_eq!(parse("x= 1"), expected);
    assert_eq!(parse("x\n=\n1"), expected);
}

#[test]
fn tokens_that_cannot_run_together_need_no_blank() {
    assert_eq!(
        parse("12abc"),
        Ok(AstNode::Expressions(vec![
            AstNode::Number(12),
            AstNode::Identifier("abc"),
        ]))
    );
    assert_eq!(
        parse("1-2+3"),
        Ok(AstNode::Expressions(vec![
            AstNode::Number(1),
            AstNode::Number(-2),
            AstNode::Number(3),
        ]))
    );
}

#[test]
fn names_may_hold_digits_and_underscores() {
    assert_eq!(
        parse("_ _a1 Z9_z"),
        Ok(AstNode::Expressions(vec![
            AstNode::Identifier("_"),
            AstNode::Identifier("_a1"),
            AstNode::Identifier("Z9_z"),
        ]))
    );
}

#[test]
fn signed_literals() {
    assert_eq!(
        parse("+5 -5 007 -0"),
        Ok(AstNode::Expressions(vec![
            AstNode::Number(5),
            AstNode::Number(-5),
            AstNode::Number(7),
            AstNode::Number(0),
        ]))
    );
}

#[test]
fn the_largest_and_smallest_literals_fit() {
    assert_eq!(
        parse("9223372036854775807"),
        Ok(AstNode::Expressions(vec![AstNode::Number(i64::MAX)]))
    );
    assert_eq!(
        parse("-9223372036854775808"),
        Ok(AstNode::Expressions(vec![AstNode::Number(i64::MIN)]))
    );
    assert_eq!(
        parse("+0000000000000000000000009223372036854775807"),
        Ok(AstNode::Expressions(vec![AstNode::Number(i64::MAX)]))
    );
}

#[test]
fn one_past_the_largest_literal_overflows() {
    assert_eq!(
        parse("9223372036854775808"),
        Err(ParseError::Overflow { position: 0 })
    );
    assert_eq!(
        parse("x = 9223372036854775808"),
        Err(ParseError::Overflow { position: 4 })
    );
    assert_eq!(
        parse("1 99999999999999999999999999999999"),
        Err(ParseError::Overflow { position: 2 })
    );
}

#[test]
fn one_past_the_smallest_literal_overflows() {
    assert_eq!(
        parse("-9223372036854775809"),
        Err(ParseError::Overflow { position: 0 })
    );
    assert_eq!(
        parse("ok\n-18446744073709551616"),
        Err(ParseError::Overflow { position: 3 })
    );
}

#[test]
fn a_missing_name_is_a_syntax_error_at_the_equals_sign() {
    assert_eq!(
        parse("= 5"),
        Err(ParseError::Syntax {
            position: 0,
            expected: vec![Rule::Identifier, Rule::Number, Rule::EndOfInput],
        })
    );
    assert_eq!(
        parse("1\n = 5"),
        Err(ParseError::Syntax {
            position: 3,
            expected: vec![Rule::Identifier, Rule::Number, Rule::EndOfInput],
        })
    );
}

#[test]
fn a_missing_value_is_a_syntax_error_at_the_end() {
    assert_eq!(
        parse("foo ="),
        Err(ParseError::Syntax {
            position: 5,
            expected: vec![Rule::Identifier, Rule::Number],
        })
    );
    assert_eq!(
        parse("foo =  "),
        Err(ParseError::Syntax {
            position: 7,
            expected: vec![Rule::Identifier, Rule::Number],
        })
    );
    assert_eq!(
        parse("a = b = $"),
        Err(ParseError::Syntax {
            position: 8,
            expected: vec![Rule::Identifier, Rule::Number],
        })
    );
}

#[test]
fn a_sign_without_digits_is_a_syntax_error_at_the_sign() {
    assert_eq!(
        parse("7 -"),
        Err(ParseError::Syntax {
            position: 2,
            expected: vec![Rule::Identifier, Rule::Number, Rule::EndOfInput],
        })
    );
    assert_eq!(
        parse("x = +-1"),
        Err(ParseError::Syntax {
            position: 4,
            expected: vec![Rule::Identifier, Rule::Number],
        })
    );
}

#[test]
fn bytes_outside_ascii_fit_no_rule() {
    assert_eq!(
        parse("ab\u{e9} = 1"),
        Err(ParseError::Syntax {
            position: 2,
            expected: vec![Rule::Identifier, Rule::Number, Rule::EndOfInput],
        })
    );
    assert_eq!(
        parse("x = \u{1f600}"),
        Err(ParseError::Syntax {
            position: 4,
            expected: vec![Rule::Identifier, Rule::Number],
        })
    );
}

#[test]
fn a_syntax_error_comes_before_any_overflow() {
    assert_eq!(
        parse("99999999999999999999 $"),
        Err(ParseError::Syntax {
            position: 21,
            expected: vec![Rule::Identifier, Rule::Number, Rule::EndOfInput],
        })
    );
    assert_eq!(
        parse("99999999999999999999 88888888888888888888"),
        Err(ParseError::Overflow { position: 0 })
    );
}

#[test]
fn nothing_fails_before_a_syntax_error() {
    for code in [
        "= 5",
        "foo =",
        "foo =  ",
        "a = b = $",
        "1\n = 5",
        "7 -",
        "x = +-1",
        "a b c $ d",
        "a = 1 b = 2 c = = 3",
        "12abc!",
        "ab\u{e9} = 1",
    ] {
        let (position, expected) = match parse(code) {
            Err(ParseError::Syntax { position, expected }) => (position, expected),
            other => panic!("on {:?}: {:?}", code, other),
        };
        let head = &code[..position];
        if expected.contains(&Rule::EndOfInput) {
            assert!(parse(head).is_ok(), "on {:?}", code);
        } else {
            assert_eq!(
                parse(head),
                Err(ParseError::Syntax { position, expected }),
                "on {:?}",
                code
            );
            assert_eq!(position, head.len());
        }
        let byte = code.as_bytes().get(position).copied();
        assert!(
            byte.map_or(true, |b| !b.is_ascii_alphanumeric() && b != b'_' && b != b' '),
            "on {:?}",
            code
        );
    }
}
