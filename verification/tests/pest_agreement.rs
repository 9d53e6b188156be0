use pest::error::{ErrorVariant, InputLocation};
use pest_vm::Vm;
use plasma::grammar::expressions;
use plasma::{Pair, ParseError, Rule};

const GRAMMAR: &str = r#"
WHITESPACE = _{ " " | "\t" | "\n" | "\r" }
number = @{ ("+" | "-")? ~ ASCII_DIGIT+ }
identifier = @{ (ASCII_ALPHA | "_") ~ (ASCII_ALPHANUMERIC | "_")* }
assignment = { identifier ~ "=" ~ expression }
expression = _{ assignment | number | identifier }
expressions = { SOI ~ expression* ~ EOI }
"#;

fn machine() -> Vm {
    let (_, rules) = pest_meta::parse_and_optimize(GRAMMAR).expect("the grammar is well formed");
    Vm::new(rules)
}

fn rule_of(name: &str) -> Rule {
    match name {
        "expressions" => Rule::Expressions,
        "assignment" => Rule::Assignment,
        "identifier" => Rule::Identifier,
        "number" => Rule::Number,
        "EOI" => Rule::EndOfInput,
        other => panic!("unexpected rule {}", other),
    }
}

fn pair_of<'a>(pair: pest::iterators::Pair<'a, &'a str>) -> Pair<'a> {
    Pair {
        rule: rule_of(pair.as_rule()),
        text: pair.as_str(),
        start: pair.as_span().start(),
        inner: pair.into_inner().map(pair_of).collect(),
    }
}

/// What pest makes of `code`: the root of the parse tree, or the position
/// of the failure and the rules it expected there.
fn by_pest<'a>(vm: &'a Vm, code: &'a str) -> Result<Pair<'a>, (usize, Vec<Rule>)> {
    match vm.parse("expressions", code) {
        Ok(mut pairs) => Ok(pair_of(pairs.next().expect("a root"))),
        Err(error) => {
            let position = match error.location {
                InputLocation::Pos(at) => at,
                InputLocation::Span((at, _)) => at,
            };
            let expected = match error.variant {
                ErrorVariant::ParsingError { positives, .. } => {
                    positives.into_iter().map(rule_of).collect()
                }
                ErrorVariant::CustomError { message } => panic!("{}", message),
            };
            Err((position, expected))
        }
    }
}

/// Holds the library's reading of `code` against pest's.
fn agree(vm: &Vm, code: &str) {
    match (expressions(code), by_pest(vm, code)) {
        (Ok(ours), Ok(theirs)) => assert_eq!(ours, theirs, "on {:?}", code),
        (Err(ParseError::Syntax { position, expected }), Err((at, rules))) => {
            assert_eq!(position, at, "on {:?}", code);
            // pest names the outermost rule where nothing at all was read.
            if at > 0 {
                let mut ours = expected.clone();
                let mut theirs = rules.clone();
                ours.sort_by_key(|rule| *rule as u8);
                theirs.sort_by_key(|rule| *rule as u8);
                assert_eq!(ours, theirs, "on {:?}", code);
            } else {
                assert_eq!(rules, vec![Rule::Expressions], "on {:?}", code);
            }
        }
        (ours, theirs) => panic!("on {:?}: {:?} against {:?}", code, ours, theirs),
    }
}

/// Every text of up to `length` symbols of `alphabet`.
fn texts(alphabet: &[&str], length: usize) -> Vec<String> {
    let mut all = vec![String::new()];
    let mut last = vec![String::new()];
    for _ in 0..length {
        let mut next = Vec::new();
        for text in &last {
            for symbol in alphabet {
                next.push(format!("{}{}", text, symbol));
            }
        }
        all.extend(next.iter().cloned());
        last = next;
    }
    all
}

#[test]
fn agrees_with_pest_on_chosen_texts() {
    let vm = machine();
    for code in [
        "",
        "1337",
        "foobar",
        "foobar = 1337",
        "a = b = 5",
        "= 5",
        "foo =",
        "foo =  ",
        "a = b = $",
        "a = 1\nb\n  42\t c = d\r\n-7",
        "12abc",
        "1-2+3",
        "x = +-1",
        "7 -",
        "ab\u{e9} = 1",
        "x = \u{1f600}",
        "  $",
        "_ _a1 Z9_z",
        "99999999999999999999 $",
        "a=1b=2",
        "a =\n\n= 3",
    ] {
        agree(&vm, code);
    }
}

#[test]
fn agrees_with_pest_on_all_short_texts() {
    let vm = machine();
    for code in texts(&["a", "1", "_", "=", " ", "-", "\n", "$"], 4) {
        agree(&vm, &code);
    }
}

#[test]
fn agrees_with_pest_on_all_short_assignments() {
    let vm = machine();
    for code in texts(&["x", "=", " ", "7", "+", "\u{e9}"], 5) {
        agree(&vm, &code);
    }
}

/// Texts drawn from `alphabet` by a fixed sequence of numbers.
fn drawn(alphabet: &[&str], count: usize, longest: u64) -> Vec<String> {
    let mut state: u64 = 0x2545_f491_4f6c_dd1d;
    let mut next = move || {
        state ^= state << 13;
        state ^= state >> 7;
        state ^= state << 17;
        state
    };
    let mut all = Vec::new();
    for _ in 0..count {
        let length = next() % (longest + 1);
        let mut text = String::new();
        for _ in 0..length {
            let pick = (next() % alphabet.len() as u64) as usize;
            text.push_str(alphabet[pick]);
        }
        all.push(text);
    }
    all
}

#[test]
fn agrees_with_pest_on_drawn_texts() {
    let vm = machine();
    let alphabet = [
        "a", "b", "Z", "_", "0", "9", "=", "=", "+", "-", " ", " ", "\t", "\n", "\r", "$",
        "\u{e9}",
    ];
    for code in drawn(&alphabet, 4000, 24) {
        agree(&vm, &code);
    }
}

#[test]
fn agrees_with_pest_on_drawn_programs() {
    let vm = machine();
    let alphabet = [
        "x", "y1", "_z", "=", " = ", "=", "42", "-7", "+0", " ", "\n", "\t ",
        "9223372036854775808",
    ];
    for code in drawn(&alphabet, 4000, 12) {
        agree(&vm, &code);
    }
}
