use rpn_calc::parse::{Operation, Token, Tokens};
use rpn_calc::solve::{solve, Evaluation, Node, SolverError};

fn apply(op: Operation, lhs: f64, rhs: f64) -> f64 {
    match op {
        Operation::Add => lhs + rhs,
        Operation::Subtract => lhs - rhs,
        Operation::Multiply => lhs * rhs,
        Operation::Divide => lhs / rhs,
    }
}

fn values(ev: &Evaluation) -> Vec<f64> {
    let mut computed: Vec<f64> = Vec::new();
    for node in &ev.nodes {
        let v = match node {
            Node::Number(text) => text.parse::<f64>().unwrap(),
            Node::Apply(op, l, r) => apply(*op, computed[*l], computed[*r]),
        };
        computed.push(v);
    }
    ev.stack.iter().map(|i| computed[*i]).collect()
}

fn eval(text: &str) -> Result<Vec<f64>, SolverError> {
    solve(Tokens::new(text.to_string())).map(|ev| values(&ev))
}

fn all_tokens(text: &str) -> Vec<Token> {
    let mut tokens = Tokens::new(text.to_string());
    let mut out = Vec::new();
    while let Some(item) = tokens.next() {
        out.push(item.unwrap());
    }
    out
}

#[test]
fn well_formed_expression_gives_single_value() {
    assert_eq!(eval("5 1 2 + 4 * + 3 -").unwrap(), vec![14.0]);
    assert_eq!(eval("2 3 4 * +").unwrap(), vec![14.0]);
    assert_eq!(eval("2 3 + 4 *").unwrap(), vec![20.0]);
    assert_eq!(eval("7 2 /").unwrap(), vec![3.5]);
}

#[test]
fn subtraction_takes_left_then_right() {
    assert_eq!(eval("3 4 -").unwrap(), vec![-1.0]);
    assert_ne!(eval("3 4 -").unwrap(), vec![1.0]);
}

#[test]
fn division_takes_left_then_right() {
    assert_eq!(eval("1 4 /").unwrap(), vec![0.25]);
}

#[test]
fn lone_operator_underflows() {
    match eval("+") {
        Err(SolverError::StackUnderflow(op)) => assert_eq!(op, Operation::Add),
        other => panic!("unexpected {:?}", other),
    }
}

#[test]
fn operator_with_one_operand_underflows() {
    match eval("3 *") {
        Err(SolverError::StackUnderflow(op)) => assert_eq!(op, Operation::Multiply),
        other => panic!("unexpected {:?}", other),
    }
}

#[test]
fn unknown_symbol_is_a_tokenizer_error() {
    match eval("3 4 %") {
        Err(SolverError::TokenizerError(e)) => {
            assert_eq!(e.line, 1);
            assert_eq!(e.parse_operation_error.lexeme, "%");
        }
        other => panic!("unexpected {:?}", other),
    }
}

#[test]
fn error_line_counts_from_one_per_line() {
    match eval("3 4 +\n5 @") {
        Err(SolverError::TokenizerError(e)) => {
            assert_eq!(e.line, 2);
            assert_eq!(e.parse_operation_error.lexeme, "@");
        }
        other => panic!("unexpected {:?}", other),
    }
}

#[test]
fn crlf_line_endings_count_lines() {
    match eval("1\r\n2\r\n#") {
        Err(SolverError::TokenizerError(e)) => {
            assert_eq!(e.line, 3);
            assert_eq!(e.parse_operation_error.lexeme, "#");
        }
        other => panic!("unexpected {:?}", other),
    }
}

#[test]
fn malformed_number_on_first_line_is_reported_on_line_one() {
    match eval("1.2.3") {
        Err(SolverError::TokenizerError(e)) => {
            assert_eq!(e.line, 1);
            assert_eq!(e.parse_operation_error.lexeme, "1.2.3");
        }
        other => panic!("unexpected {:?}", other),
    }
}

#[test]
fn lone_point_is_a_tokenizer_error() {
    match eval("1 .") {
        Err(SolverError::TokenizerError(e)) => assert_eq!(e.parse_operation_error.lexeme, "."),
        other => panic!("unexpected {:?}", other),
    }
}

#[test]
fn leftover_values_stay_on_the_stack() {
    assert_eq!(eval("1 2 3 +").unwrap(), vec![1.0, 5.0]);
}

#[test]
fn same_input_twice_gives_same_result() {
    let text = "4 2 / 3 1 - *";
    let first = eval(text).unwrap();
    let second = eval(text).unwrap();
    assert_eq!(first, second);
    assert_eq!(first, vec![4.0]);
}

#[test]
fn operator_ends_a_number_without_whitespace() {
    let tokens = all_tokens("12 3.5+");
    assert_eq!(tokens.len(), 3);
    assert!(matches!(&tokens[0], Token::Operand(t) if t == "12"));
    assert!(matches!(&tokens[1], Token::Operand(t) if t == "3.5"));
    assert!(matches!(&tokens[2], Token::Operator(Operation::Add)));
    assert_eq!(eval("12 3.5+").unwrap(), vec![15.5]);
}

#[test]
fn number_after_operator_starts_a_new_lexeme() {
    let tokens = all_tokens("3-4");
    assert_eq!(tokens.len(), 3);
    assert!(matches!(&tokens[0], Token::Operand(t) if t == "3"));
    assert!(matches!(&tokens[1], Token::Operator(Operation::Subtract)));
    assert!(matches!(&tokens[2], Token::Operand(t) if t == "4"));
}

#[test]
fn adjacent_operators_are_separate_lexemes() {
    assert_eq!(eval("1 2 3++").unwrap(), vec![6.0]);
}

#[test]
fn empty_input_gives_empty_stack() {
    assert_eq!(eval("").unwrap(), Vec::<f64>::new());
    let mut tokens = Tokens::new(String::new());
    assert!(tokens.next().is_none());
}

#[test]
fn whitespace_only_input_gives_empty_stack() {
    assert_eq!(eval(" \t\n \n").unwrap(), Vec::<f64>::new());
}

#[test]
fn unicode_whitespace_separates_lexemes() {
    assert_eq!(eval("1\u{a0}2\u{3000}+").unwrap(), vec![3.0]);
}

#[test]
fn first_error_stops_evaluation() {
    match eval("+ %") {
        Err(SolverError::StackUnderflow(Operation::Add)) => {}
        other => panic!("unexpected {:?}", other),
    }
    match eval("% +") {
        Err(SolverError::TokenizerError(e)) => assert_eq!(e.parse_operation_error.lexeme, "%"),
        other => panic!("unexpected {:?}", other),
    }
}

#[test]
fn nodes_refer_to_earlier_nodes() {
    let ev = solve(Tokens::new("1 2 + 3 *".to_string())).unwrap();
    assert_eq!(ev.nodes.len(), 5);
    assert_eq!(ev.stack, vec![4]);
    assert!(matches!(ev.nodes[2], Node::Apply(Operation::Add, 0, 1)));
    assert!(matches!(ev.nodes[4], Node::Apply(Operation::Multiply, 2, 3)));
}

#[test]
fn division_by_zero_follows_ieee() {
    let v = eval("1 0 /").unwrap();
    assert!(v[0].is_infinite() && v[0] > 0.0);
    assert!(eval("0 0 /").unwrap()[0].is_nan());
}
