use expression_transformator::{
    ExpressionProcessor, GrpcExpressionProcessorService, PostfixError,
    PostfixReversePolishNotation,
};

fn convert(expression: &str) -> Result<String, PostfixError> {
    let processor = PostfixReversePolishNotation::new();
    processor.process(&String::from(expression))
}

fn ok(expression: &str) -> String {
    convert(expression).unwrap()
}

#[test]
fn test_happy_path() {
    assert_eq!(ok("1+2+3"), String::from("1 2 + 3 +"));
    assert_eq!(ok("1-2-3"), String::from("1 2 - 3 -"));
    assert_eq!(ok("1*2*3"), String::from("1 2 * 3 *"));
    assert_eq!(ok("1/2/3"), String::from("1 2 / 3 /"));
    assert_eq!(ok("(1/2/3)"), String::from("1 2 / 3 /"));

    assert_eq!(ok("1+2*3"), String::from("1 2 3 * +"));
    assert_eq!(ok("1*2+3"), String::from("1 2 * 3 +"));

    assert_eq!(ok("1/(2-3)"), String::from("1 2 3 - /"));
    assert_eq!(ok("(2-3)/1"), String::from("2 3 - 1 /"));

    assert_eq!(ok("1*(2-3)-4/(5+6)"), String::from("1 2 3 - * 4 5 6 + / -"));

    assert_eq!(ok("12345+6789-1"), String::from("12345 6789 + 1 -"));
}

#[test]
fn test_happy_path_fictive_braces() {
    assert_eq!(ok("((1+2+3))"), String::from("1 2 + 3 +"));
    assert_eq!(ok("(())((1+2+3))(())"), String::from("1 2 + 3 +"));
    assert_eq!(ok("(())"), String::from(""));
    assert_eq!(ok("()(())"), String::from(""));
}

#[test]
fn test_happy_path_braces_with_operators_between() {
    assert_eq!(ok("((1))+((1+2+3))+((4+5))"), String::from("1 1 2 + 3 + + 4 5 + +"));
}

#[test]
fn test_wrong_braces_order_no_closing() {
    assert_eq!(convert("("), Err(PostfixError::UnmatchedOpeningBracket));
}

#[test]
fn test_wrong_braces_order_no_opening() {
    assert_eq!(convert("(1+2))"), Err(PostfixError::UnmatchedClosingBracket { position: 5 }));
}

#[test]
fn adjacent_groups_without_operator_concatenate() {
    assert_eq!(ok("((1))((1+2+3))((4+5))"), String::from("11 2 + 3 +4 5 +"));
}

#[test]
fn through_trait_object() {
    let processor = Box::new(PostfixReversePolishNotation::new()) as Box<dyn ExpressionProcessor>;
    assert_eq!(processor.process(&String::from("1+2*3")), Ok(String::from("1 2 3 * +")));
}

#[test]
fn same_input_same_output() {
    let processor = PostfixReversePolishNotation::new();
    let input = String::from("1*(2-3)-4/(5+6)");
    let first = processor.process(&input);
    let second = processor.process(&input);
    assert_eq!(first, second);
    assert_eq!(first, Ok(String::from("1 2 3 - * 4 5 6 + / -")));
}

#[test]
fn empty_input_gives_empty_output() {
    assert_eq!(ok(""), String::from(""));
    assert_eq!(ok("()"), String::from(""));
}

#[test]
fn power_binds_tighter_and_associates_left() {
    assert_eq!(ok("1+2^3"), String::from("1 2 3 ^ +"));
    assert_eq!(ok("2^3^2"), String::from("2 3 ^ 2 ^"));
    assert_eq!(ok("a*b^c"), String::from("a b c ^ *"));
}

#[test]
fn letters_are_operands() {
    assert_eq!(ok("a+B*c"), String::from("a B c * +"));
}

#[test]
fn unsupported_operator_is_reported_with_position() {
    assert_eq!(
        convert("1+2%3"),
        Err(PostfixError::UnsupportedOperator { symbol: '%', position: 3 })
    );
    assert_eq!(
        convert("1 + 2"),
        Err(PostfixError::UnsupportedOperator { symbol: ' ', position: 1 })
    );
    assert_eq!(
        convert("\u{e9}"),
        Err(PostfixError::UnsupportedOperator { symbol: '\u{e9}', position: 0 })
    );
}

#[test]
fn first_error_wins() {
    assert_eq!(
        convert(")%"),
        Err(PostfixError::UnmatchedClosingBracket { position: 0 })
    );
    assert_eq!(
        convert("(%"),
        Err(PostfixError::UnsupportedOperator { symbol: '%', position: 1 })
    );
    assert_eq!(convert("(1+2"), Err(PostfixError::UnmatchedOpeningBracket));
}

#[test]
fn closing_bracket_position_counts_characters() {
    assert_eq!(convert("12)"), Err(PostfixError::UnmatchedClosingBracket { position: 2 }));
}

#[test]
fn service_answers_with_postfix() {
    let service = GrpcExpressionProcessorService::default();
    assert_eq!(
        service.process(&String::from("11+22*33+(44-55)/66")),
        Ok(String::from("11 22 33 * + 44 55 - 66 / +"))
    );
    assert_eq!(service.process(&String::from("(")), Err(PostfixError::UnmatchedOpeningBracket));
}
