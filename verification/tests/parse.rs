use json_tree::error::Error;
use json_tree::json::{Object, Value};
use json_tree::parse::{parse, parse_array, parse_object, parse_value};
use json_tree::tokenize::Token;

fn number(literal: &str) -> Token {
    Token::Number(literal.to_string())
}

fn string(text: &str) -> Token {
    Token::String(text.to_string())
}

fn text(text: &str) -> Value {
    Value::String(text.to_string())
}

fn object(members: Vec<(&str, Value)>) -> Value {
    let mut out = Object::new();
    for (key, value) in members {
        out.insert(key.to_string(), value);
    }
    Value::Object(out)
}

/// The machine number that a number value stands for.
fn number_of(r: Result<Value, Error>) -> Result<f64, Error> {
    match r {
        Ok(Value::Number(literal)) => Ok(literal.parse().unwrap()),
        Ok(other) => panic!("not a number: {:?}", other),
        Err(e) => Err(e),
    }
}

#[test]
fn parse_value_test() {
    assert_eq!(
        parse_value(&mut vec![Token::Null].as_slice()),
        Ok(Value::Null)
    );
    assert_eq!(
        parse_value(&mut vec![Token::False].as_slice()),
        Ok(Value::Bool(false))
    );
    assert_eq!(
        parse_value(&mut vec![Token::True].as_slice()),
        Ok(Value::Bool(true))
    );
    assert_eq!(
        number_of(parse_value(&mut vec![number("123.45")].as_slice())),
        Ok(123.45)
    );
    assert_eq!(
        parse_value(&mut vec![string("value")].as_slice()),
        Ok(Value::String("value".to_string()))
    );
    assert_eq!(
        parse_value(
            &mut vec![
                Token::BeginObject,
                string("keyA"),
                Token::NameSeparator,
                string("valueA"),
                Token::EndObject,
            ]
            .as_slice()
        ),
        Ok(object(vec![("keyA", Value::String("valueA".to_string()))]))
    );
    assert_eq!(
        parse_value(
            &mut vec![
                Token::BeginArray,
                string("value1"),
                Token::ValueSeparator,
                string("value2"),
                Token::ValueSeparator,
                string("value3"),
                Token::EndArray,
            ]
            .as_slice()
        ),
        Ok(Value::Array(vec![
            Value::String("value1".to_string()),
            Value::String("value2".to_string()),
            Value::String("value3".to_string()),
        ]))
    );
}

#[test]
fn number_values_keep_their_literal() {
    assert_eq!(
        parse(&[number("123.45")]),
        Ok(Value::Number("123.45".to_string()))
    );
    assert_ne!(
        parse(&[number("1.0")]),
        Ok(Value::Number("1.00".to_string()))
    );
}

#[test]
fn parse_value_moves_past_the_value() {
    let tokens = vec![Token::Null, Token::True, Token::EndArray];
    let mut cursor = tokens.as_slice();
    assert_eq!(parse_value(&mut cursor), Ok(Value::Null));
    assert_eq!(cursor, &tokens[1..]);
    assert_eq!(parse_value(&mut cursor), Ok(Value::Bool(true)));
    assert_eq!(cursor, &tokens[2..]);
    assert_eq!(
        parse_value(&mut cursor),
        Err(Error::UnexpectedToken("]".to_string()))
    );
}

#[test]
fn parse_value_moves_past_a_whole_array() {
    let tokens = vec![
        Token::BeginArray,
        Token::BeginArray,
        Token::EndArray,
        Token::ValueSeparator,
        Token::Null,
        Token::EndArray,
        Token::ValueSeparator,
    ];
    let mut cursor = tokens.as_slice();
    assert_eq!(
        parse_value(&mut cursor),
        Ok(Value::Array(vec![Value::Array(vec![]), Value::Null]))
    );
    assert_eq!(cursor, &tokens[6..]);
}

#[test]
fn parse_value_rejects_what_starts_no_value() {
    assert_eq!(parse_value(&mut [].as_slice()), Err(Error::UnexpectedEnd));
    assert_eq!(
        parse_value(&mut [Token::EndArray].as_slice()),
        Err(Error::UnexpectedToken("]".to_string()))
    );
    assert_eq!(
        parse_value(&mut [Token::EndObject].as_slice()),
        Err(Error::UnexpectedToken("}".to_string()))
    );
    assert_eq!(
        parse_value(&mut [Token::NameSeparator].as_slice()),
        Err(Error::UnexpectedToken(":".to_string()))
    );
    assert_eq!(
        parse_value(&mut [Token::ValueSeparator].as_slice()),
        Err(Error::UnexpectedToken(",".to_string()))
    );
}

#[test]
fn parse_array_needs_its_bracket() {
    assert_eq!(parse_array(&mut [].as_slice()), Err(Error::UnexpectedEnd));
    assert_eq!(
        parse_array(&mut [Token::Null].as_slice()),
        Err(Error::UnexpectedToken("null".to_string()))
    );
    assert_eq!(
        parse_array(&mut [Token::BeginObject, Token::EndObject].as_slice()),
        Err(Error::UnexpectedToken("{".to_string()))
    );
    assert_eq!(
        parse_array(&mut [Token::BeginArray, Token::EndArray].as_slice()),
        Ok(Value::Array(vec![]))
    );
}

#[test]
fn parse_object_needs_its_brace() {
    assert_eq!(parse_object(&mut [].as_slice()), Err(Error::UnexpectedEnd));
    assert_eq!(
        parse_object(&mut [Token::True].as_slice()),
        Err(Error::UnexpectedToken("true".to_string()))
    );
    assert_eq!(
        parse_object(&mut [Token::BeginArray, Token::EndArray].as_slice()),
        Err(Error::UnexpectedToken("[".to_string()))
    );
    assert_eq!(
        parse_object(&mut [Token::BeginObject, Token::EndObject].as_slice()),
        Ok(Value::Object(Object::new()))
    );
}

#[test]
fn array_separators() {
    assert_eq!(
        parse(&[Token::BeginArray, number("1"), number("2"), Token::EndArray]),
        Err(Error::UnexpectedToken("2".to_string()))
    );
    assert_eq!(
        parse(&[
            Token::BeginArray,
            number("1"),
            Token::ValueSeparator,
            Token::EndArray
        ]),
        Err(Error::UnexpectedToken("]".to_string()))
    );
    assert_eq!(
        parse(&[Token::BeginArray, Token::ValueSeparator, Token::EndArray]),
        Err(Error::UnexpectedToken(",".to_string()))
    );
    assert_eq!(
        parse(&[Token::BeginArray, number("1"), Token::ValueSeparator]),
        Err(Error::UnexpectedEnd)
    );
    assert_eq!(
        parse(&[Token::BeginArray, number("1")]),
        Err(Error::UnexpectedEnd)
    );
    assert_eq!(parse(&[Token::BeginArray]), Err(Error::UnexpectedEnd));
    assert_eq!(
        parse(&[Token::BeginArray, number("1"), Token::EndObject]),
        Err(Error::UnexpectedToken("}".to_string()))
    );
}

#[test]
fn object_members() {
    assert_eq!(
        parse(&[Token::BeginObject, number("1"), Token::EndObject]),
        Err(Error::UnexpectedToken("1".to_string()))
    );
    assert_eq!(
        parse(&[Token::BeginObject, string("a"), Token::EndObject]),
        Err(Error::UnexpectedToken("}".to_string()))
    );
    assert_eq!(
        parse(&[Token::BeginObject, string("a"), string("b"), Token::EndObject]),
        Err(Error::UnexpectedToken("\"b\"".to_string()))
    );
    assert_eq!(
        parse(&[
            Token::BeginObject,
            string("a"),
            Token::NameSeparator,
            Token::EndObject
        ]),
        Err(Error::UnexpectedToken("}".to_string()))
    );
    assert_eq!(
        parse(&[
            Token::BeginObject,
            string("a"),
            Token::NameSeparator,
            Token::Null,
            string("b"),
            Token::NameSeparator,
            Token::Null,
            Token::EndObject
        ]),
        Err(Error::UnexpectedToken("\"b\"".to_string()))
    );
    assert_eq!(
        parse(&[
            Token::BeginObject,
            string("a"),
            Token::NameSeparator,
            Token::Null,
            Token::ValueSeparator,
            Token::EndObject
        ]),
        Err(Error::UnexpectedToken("}".to_string()))
    );
    assert_eq!(
        parse(&[Token::BeginObject, Token::ValueSeparator, Token::EndObject]),
        Err(Error::UnexpectedToken(",".to_string()))
    );
    assert_eq!(parse(&[Token::BeginObject]), Err(Error::UnexpectedEnd));
    assert_eq!(
        parse(&[Token::BeginObject, string("a")]),
        Err(Error::UnexpectedEnd)
    );
    assert_eq!(
        parse(&[Token::BeginObject, string("a"), Token::NameSeparator]),
        Err(Error::UnexpectedEnd)
    );
    assert_eq!(
        parse(&[
            Token::BeginObject,
            string("a"),
            Token::NameSeparator,
            Token::Null
        ]),
        Err(Error::UnexpectedEnd)
    );
    assert_eq!(
        parse(&[
            Token::BeginObject,
            string("a"),
            Token::NameSeparator,
            Token::Null,
            Token::ValueSeparator
        ]),
        Err(Error::UnexpectedEnd)
    );
}

#[test]
fn a_later_member_replaces_an_earlier_one() {
    let parsed = parse(&[
        Token::BeginObject,
        string("k"),
        Token::NameSeparator,
        number("1"),
        Token::ValueSeparator,
        string("j"),
        Token::NameSeparator,
        Token::Null,
        Token::ValueSeparator,
        string("k"),
        Token::NameSeparator,
        number("2"),
        Token::EndObject,
    ]);
    assert_eq!(
        parsed,
        Ok(object(vec![
            ("j", Value::Null),
            ("k", Value::Number("2".to_string()))
        ]))
    );
    match parsed {
        Ok(Value::Object(members)) => {
            assert_eq!(members.entries().len(), 2);
            assert_eq!(members.get("k"), Some(&Value::Number("2".to_string())));
        }
        other => panic!("not an object: {:?}", other),
    }
}

#[test]
fn parse_takes_the_whole_sequence() {
    assert_eq!(parse(&[]), Err(Error::UnexpectedEnd));
    assert_eq!(parse(&[Token::Null]), Ok(Value::Null));
    assert_eq!(
        parse(&[Token::Null, Token::Null]),
        Err(Error::UnexpectedToken("null".to_string()))
    );
    assert_eq!(
        parse(&[Token::BeginArray, Token::EndArray, Token::EndArray]),
        Err(Error::UnexpectedToken("]".to_string()))
    );
    assert_eq!(
        parse(&[string("a"), Token::NameSeparator, number("1")]),
        Err(Error::UnexpectedToken(":".to_string()))
    );
    assert_eq!(
        parse(&[Token::True, string("x")]),
        Err(Error::UnexpectedToken("\"x\"".to_string()))
    );
    assert_eq!(parse(&[text_token()]), Ok(text("t")));
}

fn text_token() -> Token {
    string("t")
}
