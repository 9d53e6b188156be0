use plasma::{parse, unparse, AstNode, ParseError, Rule};

#[test]
fn a_tree_is_written_one_expression_a_line() {
    let tree = AstNode::Expressions(vec![
        AstNode::Assignment("foobar", Box::new(AstNode::Number(1337))),
        AstNode::Identifier("x"),
        AstNode::Number(-7),
        AstNode::Assignment(
            "a",
            Box::new(AstNode::Assignment("b", Box::new(AstNode::Identifier("c")))),
        ),
    ]);
    assert_eq!(unparse(&tree), "foobar = 1337\nx\n-7\na = b = c\n");
}

#[test]
fn the_empty_tree_is_written_as_the_empty_text() {
    assert_eq!(unparse(&AstNode::Expressions(vec![])), "");
}

#[test]
fn numbers_are_written_in_decimal() {
    assert_eq!(unparse(&AstNode::Number(0)), "0");
    assert_eq!(unparse(&AstNode::Number(7)), "7");
    assert_eq!(unparse(&AstNode::Number(10)), "10");
    assert_eq!(unparse(&AstNode::Number(-10)), "-10");
    assert_eq!(unparse(&AstNode::Number(1002003)), "1002003");
    assert_eq!(unparse(&AstNode::Number(i64::MAX)), "9223372036854775807");
    assert_eq!(unparse(&AstNode::Number(i64::MIN)), "-9223372036854775808");
}

#[test]
fn what_is_written_parses_back_to_the_tree() {
    let tree = AstNode::Expressions(vec![
        AstNode::Number(i64::MIN),
        AstNode::Assignment("_x1", Box::new(AstNode::Number(i64::MAX))),
        AstNode::Identifier("Yz_"),
        AstNode::Number(0),
        AstNode::Assignment(
            "a",
            Box::new(AstNode::Assignment("b", Box::new(AstNode::Number(-1)))),
        ),
    ]);
    let text = unparse(&tree);
    assert_eq!(parse(&text), Ok(tree));
}

#[test]
fn what_was_parsed_is_written_and_parses_back() {
    for code in [
        "",
        "1337",
        "foobar",
        "foobar = 1337",
        "a = b = 5",
        "a=1b=2 12abc\t+7\r\n-0 007",
        "  x  \n\n y = \n -3 ",
    ] {
        let tree = parse(code).expect("the text parses");
        let text = unparse(&tree);
        assert_eq!(parse(&text), Ok(tree), "on {:?}", code);
    }
}

#[test]
fn writing_twice_gives_the_same_text() {
    let tree = parse("a=1b=2 12abc\t+7\r\n-0 007").expect("the text parses");
    let text = unparse(&tree);
    assert_eq!(text, "a = 1\nb = 2\n12\nabc\n7\n0\n7\n");
    let again = parse(&text).expect("the text parses");
    assert_eq!(unparse(&again), text);
}

#[test]
fn texts_in_sequence_parse_to_their_expressions_in_sequence() {
    let texts = ["a = 1", "", "b 2\n", "  c = d = 3", "-4 e"];
    for first in texts {
        for second in texts {
            for blank in [" ", "\t", "\n", "\r"] {
                let whole = format!("{}{}{}", first, blank, second);
                let mut expected = match parse(first) {
                    Ok(AstNode::Expressions(items)) => items,
                    other => panic!("{:?}", other),
                };
                match parse(second) {
                    Ok(AstNode::Expressions(items)) => expected.extend(items),
                    other => panic!("{:?}", other),
                }
                assert_eq!(parse(&whole), Ok(AstNode::Expressions(expected)));
            }
        }
    }
}

#[test]
fn a_failure_in_the_second_text_is_found_further_on() {
    assert_eq!(
        parse("x = $"),
        Err(ParseError::Syntax {
            position: 4,
            expected: vec![Rule::Identifier, Rule::Number],
        })
    );
    assert_eq!(
        parse("a = 1\nx = $"),
        Err(ParseError::Syntax {
            position: 10,
            expected: vec![Rule::Identifier, Rule::Number],
        })
    );
    assert_eq!(
        parse("99999999999999999999"),
        Err(ParseError::Overflow { position: 0 })
    );
    assert_eq!(
        parse("a b\t99999999999999999999"),
        Err(ParseError::Overflow { position: 4 })
    );
}

#[test]
fn an_equals_sign_binds_what_follows_to_the_name_before_it() {
    assert_eq!(
        parse("a"),
        Ok(AstNode::Expressions(vec![AstNode::Identifier("a")]))
    );
    assert!(parse("= 1").is_err());
    assert_eq!(
        parse("a = 1"),
        Ok(AstNode::Expressions(vec![AstNode::Assignment(
            "a",
            Box::new(AstNode::Number(1))
        )]))
    );
}
