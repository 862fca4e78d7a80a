use expression_transformator::{ExpressionProcessor, PostfixError, PostfixReversePolishNotation};

fn convert(expression: &str) -> Result<String, PostfixError> {
    PostfixReversePolishNotation::new().process(&String::from(expression))
}

fn evaluate_postfix(postfix: &str) -> i64 {
    let mut values: Vec<i64> = Vec::new();
    for token in postfix.split(' ') {
        match token {
            "+" | "-" | "*" | "/" => {
                let b = values.pop().unwrap();
                let a = values.pop().unwrap();
                values.push(match token {
                    "+" => a + b,
                    "-" => a - b,
                    "*" => a * b,
                    _ => a / b,
                });
            }
            number => values.push(number.parse().unwrap()),
        }
    }
    assert_eq!(values.len(), 1);
    values[0]
}

#[test]
fn postfix_evaluates_to_the_infix_value() {
    let cases: Vec<(&str, i64)> = vec![
        ("1+2+3", 6),
        ("1-2-3", -4),
        ("8/2/2", 2),
        ("1+2*3", 7),
        ("(1+2)*3", 9),
        ("1*(2-3)-4/(5+6)", -1),
        ("12345+6789-1", 19133),
        ("((7))-(2*(3+4))", -7),
    ];
    for (infix, value) in cases {
        assert_eq!(evaluate_postfix(&convert(infix).unwrap()), value, "{infix}");
    }
}

#[test]
fn operands_keep_their_order() {
    let out = convert("z*(y-x)+w/v").unwrap();
    let operands: String = out.chars().filter(|c| c.is_ascii_alphanumeric()).collect();
    assert_eq!(operands, "zyxwv");
    assert!(!out.contains('(') && !out.contains(')'));
}

#[test]
fn operators_are_each_emitted_once() {
    let input = "1-2*3-(4^5+6)/7";
    let out = convert(input).unwrap();
    for op in ['+', '-', '*', '/', '^'] {
        assert_eq!(
            out.chars().filter(|c| *c == op).count(),
            input.chars().filter(|c| *c == op).count()
        );
    }
}

#[test]
fn success_exactly_on_balanced_supported_input() {
    assert!(convert("(1+(2))*3").is_ok());
    assert_eq!(convert("(1+(2)*3"), Err(PostfixError::UnmatchedOpeningBracket));
    assert_eq!(
        convert("1)+(2"),
        Err(PostfixError::UnmatchedClosingBracket { position: 1 })
    );
    assert_eq!(
        convert("(1+2)=3"),
        Err(PostfixError::UnsupportedOperator { symbol: '=', position: 5 })
    );
}
