//! End-to-end tests of the pipeline: lexing, parsing, evaluation, output.

use lispy::ast::{generate, Ast, ParseError};
use lispy::interpreter::{evaluate, RuntimeError, State};
use lispy::num::Num;
use lispy::tokenizer::{tokenize, LexError, Token};

fn ast_eq(a: &Ast, b: &Ast) -> bool {
    match (a, b) {
        (Ast::Empty, Ast::Empty) => true,
        (Ast::Number(x), Ast::Number(y)) => x == y,
        (Ast::Boolean(x), Ast::Boolean(y)) => x == y,
        (Ast::Str(x), Ast::Str(y)) => x == y,
        (Ast::Symbol(x), Ast::Symbol(y)) => x == y,
        (Ast::List(x), Ast::List(y)) => {
            x.len() == y.len() && x.iter().zip(y.iter()).all(|(p, q)| ast_eq(p, q))
        }
        (
            Ast::Operation { operator: xo, operands: xs },
            Ast::Operation { operator: yo, operands: ys },
        ) => {
            ast_eq(xo, yo)
                && xs.len() == ys.len()
                && xs.iter().zip(ys.iter()).all(|(p, q)| ast_eq(p, q))
        }
        _ => false,
    }
}

fn parse_forms(src: &str) -> Vec<Ast> {
    let tokens = tokenize(&src.to_string()).expect("lexing failed");
    generate(&tokens).expect("parsing failed")
}

/// Evaluate every form of `src` in one fresh session; the last result.
fn run(src: &str, state: &mut State) -> Result<Ast, RuntimeError> {
    let mut last = Ok(Ast::Empty);
    for form in parse_forms(src) {
        last = evaluate(form, state);
        if last.is_err() {
            return last;
        }
    }
    last
}

fn num(v: i64) -> Num {
    Num::from_int(v)
}

#[test]
fn tokenize_simple_form() {
    let tokens = tokenize(&"(+ 1 2)".to_string()).unwrap();
    assert_eq!(
        tokens,
        vec![
            Token::OpenParenthesis,
            Token::Symbol("+".to_string()),
            Token::Number(num(1)),
            Token::Number(num(2)),
            Token::CloseParenthesis,
        ]
    );
}

#[test]
fn evaluate_simple_addition() {
    let mut state = State::new();
    let r = run("(+ 1 2)", &mut state).unwrap();
    assert!(matches!(r, Ast::Number(n) if n == num(3)));
}

#[test]
fn variable_binding_then_use() {
    let mut state = State::new();
    let r = run("(var x 5) (+ x 1)", &mut state).unwrap();
    assert!(matches!(r, Ast::Number(n) if n == num(6)));
}

#[test]
fn numeric_flush_then_concatenation() {
    let mut state = State::new();
    let r = run("(+ 1 \"a\")", &mut state).unwrap();
    assert!(matches!(r, Ast::Str(s) if s == "1a"));
}

#[test]
fn concatenation_continues_with_numbers() {
    let mut state = State::new();
    let r = run("(+ 1 \"a\" 2)", &mut state).unwrap();
    assert!(matches!(r, Ast::Str(s) if s == "1a2"));
}

#[test]
fn string_first_means_no_flush() {
    let mut state = State::new();
    let r = run("(+ \"a\" 1)", &mut state).unwrap();
    assert!(matches!(r, Ast::Str(s) if s == "a1"));
}

#[test]
fn empty_addition_is_zero() {
    let mut state = State::new();
    let r = run("(+)", &mut state).unwrap();
    assert!(matches!(r, Ast::Number(n) if n == num(0)));
}

#[test]
fn strictly_increasing_comparison() {
    let mut state = State::new();
    let r = run("(< 1 2 3)", &mut state).unwrap();
    assert!(matches!(r, Ast::Boolean(true)));
    let r = run("(< 1 1)", &mut state).unwrap();
    assert!(matches!(r, Ast::Boolean(false)));
    let r = run("(<)", &mut state).unwrap();
    assert!(matches!(r, Ast::Boolean(true)));
    let r = run("(< 7)", &mut state).unwrap();
    assert!(matches!(r, Ast::Boolean(true)));
    let r = run("(< 1.5 2)", &mut state).unwrap();
    assert!(matches!(r, Ast::Boolean(true)));
}

#[test]
fn while_loop_prints_three_lines() {
    let mut state = State::new();
    let r = run("(var i 0) (while (< i 3) (print i) (var i (+ i 1)))", &mut state).unwrap();
    assert!(matches!(r, Ast::Empty));
    let text: String = state.output.iter().collect();
    assert_eq!(text, "0\n1\n2\n");
}

#[test]
fn list_indexing() {
    let mut state = State::new();
    let r = run("(var l (list 10 20 30)) (l 1)", &mut state).unwrap();
    assert!(matches!(r, Ast::Number(n) if n == num(20)));
}

#[test]
fn list_index_out_of_range() {
    let mut state = State::new();
    let r = run("(var l (list 10 20 30)) (l 5)", &mut state);
    assert_eq!(r.unwrap_err(), RuntimeError::IndexOutOfRange);
}

#[test]
fn list_index_not_an_integer() {
    let mut state = State::new();
    let r = run("(var l (list 10 20 30)) (l 1.5)", &mut state);
    assert_eq!(r.unwrap_err(), RuntimeError::NotAnInteger);
}

#[test]
fn negative_index_is_rejected() {
    let mut state = State::new();
    let op = Ast::Operation {
        operator: Box::new(Ast::List(vec![Ast::Number(num(10))])),
        operands: vec![Ast::Number(num(-1))],
    };
    let r = evaluate(op, &mut state);
    assert_eq!(r.unwrap_err(), RuntimeError::NegativeIndex);
}

#[test]
fn print_renders_values_and_one_line_break() {
    let mut state = State::new();
    run("(print \"x=\" 1.5 \" \" true \" \" (list 1 \"a\"))", &mut state).unwrap();
    let text: String = state.output.iter().collect();
    assert_eq!(text, "x=1.5 true [1, a]\n");
}

#[test]
fn print_of_empty_group_renders_none() {
    let mut state = State::new();
    run("(print ())", &mut state).unwrap();
    let text: String = state.output.iter().collect();
    assert_eq!(text, "None\n");
}

#[test]
fn unbound_symbol_evaluates_to_sentinel() {
    let mut state = State::new();
    let r = run("missing", &mut state).unwrap();
    assert!(matches!(r, Ast::Empty));
}

#[test]
fn rebinding_shadows_and_grows() {
    let mut state = State::new();
    let r = run("(var x 1) (var x 2) x", &mut state).unwrap();
    assert!(matches!(r, Ast::Number(n) if n == num(2)));
    assert_eq!(state.variables.len(), 2);
}

#[test]
fn var_returns_the_assigned_value() {
    let mut state = State::new();
    let r = run("(var x 41)", &mut state).unwrap();
    assert!(matches!(r, Ast::Number(n) if n == num(41)));
}

#[test]
fn var_requires_a_symbol_name() {
    let mut state = State::new();
    let r = run("(var 1 2)", &mut state);
    assert_eq!(r.unwrap_err(), RuntimeError::ExpectedSymbol);
}

#[test]
fn var_requires_two_operands() {
    let mut state = State::new();
    let r = run("(var x)", &mut state);
    assert_eq!(r.unwrap_err(), RuntimeError::WrongOperandCount);
}

#[test]
fn while_requires_a_condition() {
    let mut state = State::new();
    let r = run("(while)", &mut state);
    assert_eq!(r.unwrap_err(), RuntimeError::WrongOperandCount);
}

#[test]
fn addition_rejects_booleans() {
    let mut state = State::new();
    let r = run("(+ 1 true)", &mut state);
    assert_eq!(r.unwrap_err(), RuntimeError::TypeMismatch);
}

#[test]
fn comparison_rejects_strings() {
    let mut state = State::new();
    let r = run("(< 1 \"a\")", &mut state);
    assert_eq!(r.unwrap_err(), RuntimeError::TypeMismatch);
}

#[test]
fn index_operand_must_be_number() {
    let mut state = State::new();
    let r = run("(var l (list 1)) (l true)", &mut state);
    assert_eq!(r.unwrap_err(), RuntimeError::TypeMismatch);
}

#[test]
fn index_takes_exactly_one_operand() {
    let mut state = State::new();
    let r = run("(var l (list 1 2)) (l 0 1)", &mut state);
    assert_eq!(r.unwrap_err(), RuntimeError::WrongOperandCount);
}

#[test]
fn undefined_operator_symbol() {
    let mut state = State::new();
    let r = run("(nosuch 1)", &mut state);
    assert_eq!(r.unwrap_err(), RuntimeError::UndefinedSymbol);
}

#[test]
fn unknown_operator_value() {
    let mut state = State::new();
    let r = run("(var x 7) (x 1)", &mut state);
    assert_eq!(r.unwrap_err(), RuntimeError::UnknownOperator);
}

#[test]
fn addition_overflow_is_reported() {
    let mut state = State::new();
    let r = run("(+ 9223372036854775807 1)", &mut state);
    assert_eq!(r.unwrap_err(), RuntimeError::NumberOverflow);
}

#[test]
fn operator_indirection_through_list_element() {
    let mut state = State::new();
    let r = run("(var ops (list + <)) (var p (ops 0)) (p 1 2)", &mut state).unwrap();
    assert!(matches!(r, Ast::Number(n) if n == num(3)));
}

#[test]
fn list_elements_are_not_evaluated() {
    let mut state = State::new();
    let r = run("(var l (list x)) (l 0)", &mut state).unwrap();
    assert!(matches!(r, Ast::Symbol(s) if s == "x"));
}

#[test]
fn unterminated_string_is_fatal() {
    let r = tokenize(&"(print \"oops)".to_string());
    assert_eq!(r.unwrap_err(), LexError::UnterminatedString);
}

#[test]
fn invalid_number_is_fatal() {
    let r = tokenize(&"(+ 12a 1)".to_string());
    assert_eq!(r.unwrap_err(), LexError::InvalidNumber);
    let r = tokenize(&"12.5.3".to_string());
    assert_eq!(r.unwrap_err(), LexError::InvalidNumber);
}

#[test]
fn minus_led_text_lexes_as_symbol() {
    let tokens = tokenize(&"-5".to_string()).unwrap();
    assert_eq!(tokens, vec![Token::Symbol("-5".to_string())]);
}

#[test]
fn reserved_words_become_booleans() {
    let tokens = tokenize(&"true false truth".to_string()).unwrap();
    assert_eq!(
        tokens,
        vec![
            Token::Boolean(true),
            Token::Boolean(false),
            Token::Symbol("truth".to_string()),
        ]
    );
}

#[test]
fn unexpected_close_parenthesis() {
    let tokens = tokenize(&") (".to_string()).unwrap();
    let r = generate(&tokens);
    assert_eq!(r.unwrap_err(), ParseError::UnexpectedCloseParenthesis);
}

#[test]
fn unexpected_end_of_input() {
    let tokens = tokenize(&"(+ 1 2".to_string()).unwrap();
    let r = generate(&tokens);
    assert_eq!(r.unwrap_err(), ParseError::UnexpectedEndOfInput);
}

#[test]
fn empty_group_parses_to_empty() {
    let forms = parse_forms("()");
    assert_eq!(forms.len(), 1);
    assert!(matches!(forms[0], Ast::Empty));
}

#[test]
fn list_form_parses_to_literal_list() {
    let forms = parse_forms("(list 1 (+ 2 3))");
    assert_eq!(forms.len(), 1);
    match &forms[0] {
        Ast::List(items) => {
            assert_eq!(items.len(), 2);
            assert!(matches!(&items[0], Ast::Number(n) if *n == num(1)));
            assert!(matches!(&items[1], Ast::Operation { .. }));
        }
        other => panic!("not a list: {:?}", other),
    }
}

#[test]
fn format_then_reparse_keeps_the_tree() {
    for src in [
        "(+ 1 2)",
        "(var x (+ 1.5 2))",
        "(list 1 \"a\" true (+ 1 2))",
        "(while (< i 3) (print i) (var i (+ i 1)))",
        "(+ 111111111 222222222 333333333 444444444)",
        "(+ (+ 1 2) (list (list 5)))",
    ] {
        let forms = parse_forms(src);
        let text = lispy::fmt::format(deep(&forms[0]));
        let reparsed = parse_forms(&text);
        assert_eq!(reparsed.len(), 1, "formatted text of {src:?}: {text:?}");
        assert!(
            ast_eq(&forms[0], &reparsed[0]),
            "round trip of {src:?} through {text:?} changed the tree"
        );
    }
}

fn deep(a: &Ast) -> Ast {
    lispy::ast::deep_copy(a)
}

#[test]
fn format_keeps_short_forms_inline() {
    let forms = parse_forms("(+ 1 (list 2 3))");
    assert_eq!(lispy::fmt::format(deep(&forms[0])), "(+ 1 (list 2 3))");
}

#[test]
fn format_spreads_long_forms() {
    let forms = parse_forms("(+ 111111111 222222222 333333333 444444444)");
    assert_eq!(
        lispy::fmt::format(deep(&forms[0])),
        "(+\n\t111111111\n\t222222222\n\t333333333\n\t444444444\n)"
    );
}

#[test]
fn format_keeps_while_condition_on_the_first_line() {
    let forms = parse_forms("(while (< index 3) (print 111111111) (print 222222222))");
    assert_eq!(
        lispy::fmt::format(deep(&forms[0])),
        "(while (< index 3)\n\t(print 111111111)\n\t(print 222222222)\n)"
    );
}

#[test]
fn print_with_no_operands_is_one_line_break() {
    let mut state = State::new();
    let r = run("(print)", &mut state).unwrap();
    assert!(matches!(r, Ast::Empty));
    let text: String = state.output.iter().collect();
    assert_eq!(text, "\n");
}

#[test]
fn single_operand_addition() {
    let mut state = State::new();
    let r = run("(+ 7)", &mut state).unwrap();
    assert!(matches!(r, Ast::Number(n) if n == num(7)));
    let r = run("(+ 0 \"a\")", &mut state).unwrap();
    assert!(matches!(r, Ast::Str(s) if s == "0a"));
}

#[test]
fn truthiness_of_while_conditions() {
    // Anything but `false` continues the loop; a number that reaches the
    // bound flips the condition to an actual `false`.
    let mut state = State::new();
    let r = run(
        "(var i 0) (while (< i 2) (var i (+ i 1))) i",
        &mut state,
    )
    .unwrap();
    assert!(matches!(r, Ast::Number(n) if n == num(2)));
}

#[test]
fn partial_print_output_survives_a_failure() {
    let mut state = State::new();
    let r = run("(print \"a\") (print \"b\" nope true (+ 1 true))", &mut state);
    assert_eq!(r.unwrap_err(), RuntimeError::TypeMismatch);
    let text: String = state.output.iter().collect();
    // The failing statement already rendered its earlier operands, but its
    // closing line break never came.
    assert_eq!(text, "a\nbNonetrue");
}
