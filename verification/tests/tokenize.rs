use json_tree::error::Error;
use json_tree::tokenize::{
    expect_false, expect_null, expect_number, expect_string, expect_true, tokenize, Token,
};

/// A token with its number read as a machine number.
#[derive(Debug, PartialEq)]
enum Lexeme {
    BeginArray,
    BeginObject,
    EndArray,
    EndObject,
    NameSeparator,
    ValueSeparator,
    False,
    Null,
    True,
    Number(f64),
    String(&'static str),
}

fn lexemes(input: &'static str) -> Result<Vec<Lexeme>, Error> {
    let tokens = tokenize(input)?;
    Ok(tokens
        .into_iter()
        .map(|token| match token {
            Token::BeginArray => Lexeme::BeginArray,
            Token::BeginObject => Lexeme::BeginObject,
            Token::EndArray => Lexeme::EndArray,
            Token::EndObject => Lexeme::EndObject,
            Token::NameSeparator => Lexeme::NameSeparator,
            Token::ValueSeparator => Lexeme::ValueSeparator,
            Token::False => Lexeme::False,
            Token::Null => Lexeme::Null,
            Token::True => Lexeme::True,
            Token::Number(literal) => Lexeme::Number(literal.parse().unwrap()),
            Token::String(text) => {
                let at = input.find(text.as_str()).unwrap();
                Lexeme::String(&input[at..at + text.len()])
            }
        })
        .collect())
}

fn chars(text: &str) -> Vec<char> {
    text.chars().collect()
}

#[test]
fn it_works() {
    assert_eq!(lexemes("["), Ok(vec![Lexeme::BeginArray]));
    assert_eq!(lexemes("{"), Ok(vec![Lexeme::BeginObject]));
    assert_eq!(lexemes("]"), Ok(vec![Lexeme::EndArray]));
    assert_eq!(lexemes("}"), Ok(vec![Lexeme::EndObject]));
    assert_eq!(lexemes(":"), Ok(vec![Lexeme::NameSeparator]));
    assert_eq!(lexemes(","), Ok(vec![Lexeme::ValueSeparator]));

    assert_eq!(lexemes("false"), Ok(vec![Lexeme::False]));
    assert_eq!(lexemes("null"), Ok(vec![Lexeme::Null]));
    assert_eq!(lexemes("true"), Ok(vec![Lexeme::True]));
    assert_eq!(lexemes("12345"), Ok(vec![Lexeme::Number(12345f64)]));
    assert_eq!(lexemes("12345e123"), Ok(vec![Lexeme::Number(12345e123f64)]));
    assert_eq!(
        lexemes("12345e-123"),
        Ok(vec![Lexeme::Number(12345e-123f64)])
    );
    assert_eq!(lexemes("123.45"), Ok(vec![Lexeme::Number(123.45f64)]));
    assert_eq!(
        lexemes("123.45e123"),
        Ok(vec![Lexeme::Number(123.45e123f64)])
    );
    assert_eq!(
        lexemes("123.45e-123"),
        Ok(vec![Lexeme::Number(123.45e-123f64)])
    );
    assert_eq!(lexemes("-12345"), Ok(vec![Lexeme::Number(-12345f64)]));
    assert_eq!(
        lexemes("-12345e123"),
        Ok(vec![Lexeme::Number(-12345e123f64)])
    );
    assert_eq!(
        lexemes("-12345e-123"),
        Ok(vec![Lexeme::Number(-12345e-123f64)])
    );
    assert_eq!(lexemes("-123.45"), Ok(vec![Lexeme::Number(-123.45f64)]));
    assert_eq!(
        lexemes("-123.45e123"),
        Ok(vec![Lexeme::Number(-123.45e123f64)])
    );
    assert_eq!(
        lexemes("-123.45e-123"),
        Ok(vec![Lexeme::Number(-123.45e-123f64)])
    );
    assert_eq!(lexemes("\"string\""), Ok(vec![Lexeme::String("string")]));

    assert_eq!(lexemes("[]"), Ok(vec![Lexeme::BeginArray, Lexeme::EndArray]));
    assert_eq!(
        lexemes(
            r#"
                [
                    false,
                    null,
                    true,
                    12345,
                    "string",
                    [],
                    {}
                ]
                "#
        ),
        Ok(vec![
            Lexeme::BeginArray,
            Lexeme::False,
            Lexeme::ValueSeparator,
            Lexeme::Null,
            Lexeme::ValueSeparator,
            Lexeme::True,
            Lexeme::ValueSeparator,
            Lexeme::Number(12345f64),
            Lexeme::ValueSeparator,
            Lexeme::String("string"),
            Lexeme::ValueSeparator,
            Lexeme::BeginArray,
            Lexeme::EndArray,
            Lexeme::ValueSeparator,
            Lexeme::BeginObject,
            Lexeme::EndObject,
            Lexeme::EndArray,
        ])
    );

    assert_eq!(
        lexemes("{}"),
        Ok(vec![Lexeme::BeginObject, Lexeme::EndObject])
    );
    assert_eq!(
        lexemes(
            r#"
                {
                    "key": "value"
                }
                "#
        ),
        Ok(vec![
            Lexeme::BeginObject,
            Lexeme::String("key"),
            Lexeme::NameSeparator,
            Lexeme::String("value"),
            Lexeme::EndObject
        ])
    );
    assert_eq!(
        lexemes(
            r#"
                {
                    "key0": false,
                    "key1": null,
                    "key2": true,
                    "key3": 12345,
                    "key4": "string",
                    "key5": [],
                    "key6": {}
                }
                "#
        ),
        Ok(vec![
            Lexeme::BeginObject,
            Lexeme::String("key0"),
            Lexeme::NameSeparator,
            Lexeme::False,
            Lexeme::ValueSeparator,
            Lexeme::String("key1"),
            Lexeme::NameSeparator,
            Lexeme::Null,
            Lexeme::ValueSeparator,
            Lexeme::String("key2"),
            Lexeme::NameSeparator,
            Lexeme::True,
            Lexeme::ValueSeparator,
            Lexeme::String("key3"),
            Lexeme::NameSeparator,
            Lexeme::Number(12345f64),
            Lexeme::ValueSeparator,
            Lexeme::String("key4"),
            Lexeme::NameSeparator,
            Lexeme::String("string"),
            Lexeme::ValueSeparator,
            Lexeme::String("key5"),
            Lexeme::NameSeparator,
            Lexeme::BeginArray,
            Lexeme::EndArray,
            Lexeme::ValueSeparator,
            Lexeme::String("key6"),
            Lexeme::NameSeparator,
            Lexeme::BeginObject,
            Lexeme::EndObject,
            Lexeme::EndObject
        ])
    );
}

#[test]
fn number_tokens_keep_their_literal() {
    assert_eq!(
        tokenize("12345"),
        Ok(vec![Token::Number("12345".to_string())])
    );
    assert_eq!(
        tokenize("-123.45e-123"),
        Ok(vec![Token::Number("-123.45e-123".to_string())])
    );
    assert_eq!(
        tokenize("1.50"),
        Ok(vec![Token::Number("1.50".to_string())])
    );
    assert_eq!(
        tokenize("2e+8"),
        Ok(vec![Token::Number("2e+8".to_string())])
    );
    assert_eq!(tokenize("007"), Ok(vec![Token::Number("007".to_string())]));
}

#[test]
fn string_tokens_keep_their_text_verbatim() {
    assert_eq!(
        tokenize("\"string\""),
        Ok(vec![Token::String("string".to_string())])
    );
    assert_eq!(tokenize("\"\""), Ok(vec![Token::String(String::new())]));
    assert_eq!(
        tokenize("\"a b\\n[1]\""),
        Ok(vec![Token::String("a b\\n[1]".to_string())])
    );
    assert_eq!(
        tokenize("\"héllo ✓\" 1"),
        Ok(vec![
            Token::String("héllo ✓".to_string()),
            Token::Number("1".to_string())
        ])
    );
}

#[test]
fn a_backslash_does_not_escape_a_quote() {
    assert_eq!(
        tokenize("\"a\\\""),
        Ok(vec![Token::String("a\\".to_string())])
    );
    assert_eq!(tokenize("\"a\\\"b\""), Err(Error::UnexpectedChar('b')));
}

#[test]
fn empty_input_has_no_tokens() {
    assert_eq!(tokenize(""), Ok(vec![]));
    assert_eq!(tokenize(" \t\r\n "), Ok(vec![]));
}

#[test]
fn whitespace_only_separates() {
    assert_eq!(tokenize(" [ 1 , 2 ] "), tokenize("[1,2]"));
    assert_eq!(
        tokenize("[1,2]"),
        Ok(vec![
            Token::BeginArray,
            Token::Number("1".to_string()),
            Token::ValueSeparator,
            Token::Number("2".to_string()),
            Token::EndArray,
        ])
    );
    assert_eq!(
        tokenize("true\tfalse\nnull\r"),
        Ok(vec![Token::True, Token::False, Token::Null])
    );
}

#[test]
fn tokens_need_no_separator() {
    assert_eq!(
        tokenize("truefalse1\"a\"null"),
        Ok(vec![
            Token::True,
            Token::False,
            Token::Number("1".to_string()),
            Token::String("a".to_string()),
            Token::Null
        ])
    );
    assert_eq!(
        tokenize("1-2"),
        Ok(vec![
            Token::Number("1".to_string()),
            Token::Number("-2".to_string())
        ])
    );
}

#[test]
fn invalid_lexical_input() {
    assert_eq!(tokenize("@"), Err(Error::UnexpectedChar('@')));
    assert!(tokenize("tru").is_err());
    assert_eq!(tokenize("tru"), Err(Error::UnexpectedEnd));
    assert_eq!(tokenize("[1, @]"), Err(Error::UnexpectedChar('@')));
    assert_eq!(tokenize("é"), Err(Error::UnexpectedChar('é')));
    assert_eq!(tokenize("+1"), Err(Error::UnexpectedChar('+')));
    assert_eq!(tokenize(".5"), Err(Error::UnexpectedChar('.')));
    assert_eq!(tokenize("'a'"), Err(Error::UnexpectedChar('\'')));
}

#[test]
fn keyword_rejection_names_the_first_wrong_character() {
    assert_eq!(tokenize("trux"), Err(Error::UnexpectedChar('x')));
    assert_eq!(tokenize("nul!"), Err(Error::UnexpectedChar('!')));
    assert_eq!(tokenize("fALSE"), Err(Error::UnexpectedChar('A')));
    assert_eq!(tokenize("tr ue"), Err(Error::UnexpectedChar(' ')));
    assert_eq!(tokenize("nul"), Err(Error::UnexpectedEnd));
    assert_eq!(tokenize("f"), Err(Error::UnexpectedEnd));
    assert_eq!(tokenize("True"), Err(Error::UnexpectedChar('T')));
}

#[test]
fn unterminated_string() {
    assert_eq!(tokenize("\"abc"), Err(Error::UnexpectedEnd));
    assert_eq!(tokenize("\""), Err(Error::UnexpectedEnd));
    assert_eq!(tokenize("[\"a\", \"b"), Err(Error::UnexpectedEnd));
}

#[test]
fn incomplete_number_literals_are_rejected() {
    assert_eq!(tokenize("-"), Err(Error::UnexpectedEnd));
    assert_eq!(tokenize("-x"), Err(Error::UnexpectedChar('x')));
    assert_eq!(tokenize("- 1"), Err(Error::UnexpectedChar(' ')));
    assert_eq!(tokenize("1."), Err(Error::UnexpectedEnd));
    assert_eq!(tokenize("1.x"), Err(Error::UnexpectedChar('x')));
    assert_eq!(tokenize("[1.]"), Err(Error::UnexpectedChar(']')));
    assert_eq!(tokenize("-.5"), Err(Error::UnexpectedChar('.')));
    assert_eq!(tokenize("1e"), Err(Error::UnexpectedEnd));
    assert_eq!(tokenize("1e+"), Err(Error::UnexpectedEnd));
    assert_eq!(tokenize("1e-,"), Err(Error::UnexpectedChar(',')));
    assert_eq!(tokenize("1.5e]"), Err(Error::UnexpectedChar(']')));
    assert_eq!(tokenize("1E5"), Err(Error::UnexpectedChar('E')));
    assert_eq!(tokenize("1.2.3"), Err(Error::UnexpectedChar('.')));
}

#[test]
fn every_accepted_number_literal_reads_as_a_machine_number() {
    for literal in [
        "0", "-0", "007", "1.0", "-1.25", "1e5", "1e+5", "1e-5", "-12.5e-3",
        "123456789012345678901234567890", "1e999", "-1e999", "0.000000000000000000001e-400",
    ] {
        let tokens = tokenize(literal).unwrap();
        assert_eq!(tokens, vec![Token::Number(literal.to_string())]);
        assert!(literal.parse::<f64>().is_ok());
    }
}

#[test]
fn expect_number_counts_what_it_takes() {
    assert_eq!(
        expect_number(&chars("12345")),
        Ok((5, "12345".to_string()))
    );
    assert_eq!(
        expect_number(&chars("-1.5e+3, 2")),
        Ok((7, "-1.5e+3".to_string()))
    );
    assert_eq!(expect_number(&chars("12]")), Ok((2, "12".to_string())));
    assert_eq!(expect_number(&chars("1e5e6")), Ok((3, "1e5".to_string())));
    assert_eq!(expect_number(&chars("")), Err(Error::UnexpectedEnd));
    assert_eq!(expect_number(&chars("x")), Err(Error::UnexpectedChar('x')));
    assert_eq!(expect_number(&chars("-")), Err(Error::UnexpectedEnd));
}

#[test]
fn expect_string_counts_what_it_takes() {
    assert_eq!(
        expect_string(&chars("\"string\"")),
        Ok((8, "string".to_string()))
    );
    assert_eq!(
        expect_string(&chars("\"a\": 1")),
        Ok((3, "a".to_string()))
    );
    assert_eq!(expect_string(&chars("\"\"")), Ok((2, String::new())));
    assert_eq!(expect_string(&chars("\"é\"x")), Ok((3, "é".to_string())));
    assert_eq!(expect_string(&chars("")), Err(Error::UnexpectedEnd));
    assert_eq!(expect_string(&chars("a\"")), Err(Error::UnexpectedChar('a')));
    assert_eq!(expect_string(&chars("\"abc")), Err(Error::UnexpectedEnd));
}

#[test]
fn expect_keywords() {
    assert_eq!(expect_null(&chars("null")), Ok(()));
    assert_eq!(expect_null(&chars("nullx")), Ok(()));
    assert_eq!(expect_null(&chars("nul")), Err(Error::UnexpectedEnd));
    assert_eq!(expect_null(&chars("nil")), Err(Error::UnexpectedChar('i')));
    assert_eq!(expect_null(&chars("true")), Err(Error::UnexpectedChar('t')));
    assert_eq!(expect_false(&chars("false,")), Ok(()));
    assert_eq!(expect_false(&chars("fals")), Err(Error::UnexpectedEnd));
    assert_eq!(expect_false(&chars("falze")), Err(Error::UnexpectedChar('z')));
    assert_eq!(expect_false(&chars("")), Err(Error::UnexpectedEnd));
    assert_eq!(expect_true(&chars("true]")), Ok(()));
    assert_eq!(expect_true(&chars("t")), Err(Error::UnexpectedEnd));
    assert_eq!(expect_true(&chars("trUe")), Err(Error::UnexpectedChar('U')));
}

#[test]
fn written_tokens_are_read_back() {
    let tokens = vec![
        Token::BeginObject,
        Token::String("a b".to_string()),
        Token::NameSeparator,
        Token::BeginArray,
        Token::Number("-1.5e+3".to_string()),
        Token::ValueSeparator,
        Token::True,
        Token::False,
        Token::Null,
        Token::Number("0".to_string()),
        Token::String(String::new()),
        Token::EndArray,
        Token::EndObject,
    ];
    let mut text = String::new();
    for token in &tokens {
        text.push_str(&token.text());
        text.push(' ');
    }
    assert_eq!(
        text,
        "{ \"a b\" : [ -1.5e+3 , true false null 0 \"\" ] } "
    );
    assert_eq!(tokenize(&text), Ok(tokens));
}

#[test]
fn texts_with_whitespace_between_scan_one_after_the_other() {
    for (left, right) in [
        ("1", " 2"),
        ("[true", "\n,false]"),
        ("\"a\"", "\t\"b\""),
        ("null", ""),
        ("-1e5", " e"),
        ("{}", " \"open"),
    ] {
        let mut joined = left.to_string();
        joined.push_str(right);
        let expected = match (tokenize(left), tokenize(right)) {
            (Ok(mut first), Ok(second)) => {
                first.extend(second);
                Ok(first)
            }
            (Ok(_), Err(e)) => Err(e),
            (Err(e), _) => panic!("the left text must scan: {:?}", e),
        };
        assert_eq!(tokenize(&joined), expected, "{:?} {:?}", left, right);
    }
    assert_eq!(tokenize("-1e5 e"), Err(Error::UnexpectedChar('e')));
    assert_eq!(tokenize("{} \"open"), Err(Error::UnexpectedEnd));
}
