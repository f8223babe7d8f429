use template_engine::{tokenize, LeadingToken, StatementStartToken, TextToken};

#[test]
fn can_create_a_text_token() {
    let token = TextToken::new("text".into());
    assert_eq!(token.value(), "text");
}

#[test]
fn the_first_token_created_by_the_tokenizer_is_an_empty_text_token() {
    let template = String::from("");
    let tokens = tokenize(template);
    assert_eq!(tokens[0].value(), "");
}

#[test]
fn the_text_token_can_detect_a_statement_start_token_as_the_next_token() {
    let template = String::from("{");
    let tokens = tokenize(template);
    assert_eq!(tokens[1].value(), String::from("{"));
}

#[test]
fn a_statement_start_token_stands_for_a_brace() {
    assert_eq!(StatementStartToken::new().value(), "{");
}

#[test]
fn the_leading_tokens_are_a_text_token_and_a_statement_start_token() {
    let tokens = tokenize(String::from("Hello {{ name }}"));
    assert_eq!(tokens.len(), 2);
    assert!(matches!(tokens[0], LeadingToken::Text(_)));
    assert!(matches!(tokens[1], LeadingToken::StatementStart(_)));
    assert_eq!(tokens[0].value(), "");
    assert_eq!(tokens[1].value(), "{");
}
