use rpn_calc::parse::Operation;

#[test]
fn operator_symbols_parse() {
    assert_eq!(Operation::from_str("+").unwrap(), Operation::Add);
    assert_eq!(Operation::from_str("-").unwrap(), Operation::Subtract);
    assert_eq!(Operation::from_str("*").unwrap(), Operation::Multiply);
    assert_eq!(Operation::from_str("/").unwrap(), Operation::Divide);
}

#[test]
fn other_text_is_no_operator() {
    assert_eq!(Operation::from_str("%").unwrap_err().lexeme, "%");
    assert_eq!(Operation::from_str("++").unwrap_err().lexeme, "++");
    assert_eq!(Operation::from_str("").unwrap_err().lexeme, "");
    assert_eq!(Operation::from_str("×").unwrap_err().lexeme, "×");
}
