use json_tree::error::Error;
use json_tree::tokenize::Token;

#[test]
fn display_test() {
    assert_eq!(&Error::UnexpectedEnd.message(), "unexpected end");
    assert_eq!(
        &Error::UnexpectedChar('a').message(),
        "unexpected token 'a'"
    );
    assert_eq!(
        &Error::UnexpectedToken(Token::BeginArray.text()).message(),
        "unexpected token '['"
    );
}

#[test]
fn message_of_a_longer_token() {
    assert_eq!(
        Error::UnexpectedToken(Token::False.text()).message(),
        "unexpected token 'false'"
    );
    assert_eq!(
        Error::UnexpectedToken("12.5".to_string()).message(),
        "unexpected token '12.5'"
    );
}

#[test]
fn message_of_a_wide_character() {
    assert_eq!(
        Error::UnexpectedChar('é').message(),
        "unexpected token 'é'"
    );
}

#[test]
fn token_text_is_the_written_form() {
    assert_eq!(Token::BeginArray.text(), "[");
    assert_eq!(Token::BeginObject.text(), "{");
    assert_eq!(Token::EndArray.text(), "]");
    assert_eq!(Token::EndObject.text(), "}");
    assert_eq!(Token::NameSeparator.text(), ":");
    assert_eq!(Token::ValueSeparator.text(), ",");
    assert_eq!(Token::False.text(), "false");
    assert_eq!(Token::Null.text(), "null");
    assert_eq!(Token::True.text(), "true");
    assert_eq!(Token::Number("-1.5e3".to_string()).text(), "-1.5e3");
    assert_eq!(Token::String("key".to_string()).text(), "\"key\"");
    assert_eq!(Token::String(String::new()).text(), "\"\"");
}
