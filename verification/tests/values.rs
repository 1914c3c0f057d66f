use godot_tileset::error::{Constructor, ErrorKind, Expected, SyntaxError};
use godot_tileset::token::Tokenizer;
use godot_tileset::value::{Color, Double, Value, Vector2i};

fn parse(text: &[u8]) -> Result<Value, SyntaxError> {
    let mut tokens = Tokenizer::new(text);
    Value::parse(&mut tokens)
}

fn render(value: &Value) -> Vec<u8> {
    let mut out = Vec::new();
    value.godot_fmt(&mut out);
    out
}

fn finite(text: &[u8]) -> Double {
    Double::Finite(text.to_vec())
}

#[test]
fn words_stand_for_values() {
    assert_eq!(parse(b"true"), Ok(Value::Bool(true)));
    assert_eq!(parse(b"false"), Ok(Value::Bool(false)));
    assert_eq!(parse(b"null"), Ok(Value::Null));
    assert_eq!(parse(b"nil"), Ok(Value::Null));
    assert_eq!(parse(b"inf"), Ok(Value::Double(Double::Infinity)));
    assert_eq!(parse(b"neg_inf"), Ok(Value::Double(Double::NegInfinity)));
    assert_eq!(parse(b"nan"), Ok(Value::Double(Double::Nan)));
}

#[test]
fn literals_are_values() {
    assert_eq!(parse(b" 42"), Ok(Value::Integer(42)));
    assert_eq!(parse(b"-1.5"), Ok(Value::Double(finite(b"-1.5"))));
    assert_eq!(parse(b"\"a b\""), Ok(Value::String(b"a b".to_vec())));
    assert_eq!(parse(b"&\"name\""), Ok(Value::StringName(b"name".to_vec())));
    assert_eq!(parse(b"#ff0000\n"), Ok(Value::Color(Color::Html(b"#ff0000".to_vec()))));
}

#[test]
fn vector_takes_two_integers() {
    assert_eq!(parse(b"Vector2i(16, -32)"), Ok(Value::Vector2i(Vector2i { x: 16, y: -32 })));
    assert_eq!(parse(b"Vector2i ( 1 , 2 )"), Ok(Value::Vector2i(Vector2i { x: 1, y: 2 })));
}

#[test]
fn vector_with_another_number_of_arguments_is_refused() {
    assert_eq!(parse(b"Vector2i()"), Err(SyntaxError::WrongArgumentCount(Constructor::Vector2i)));
    assert_eq!(parse(b"Vector2i(1)"), Err(SyntaxError::WrongArgumentCount(Constructor::Vector2i)));
    assert_eq!(
        parse(b"Vector2i(1, 2, 3)"),
        Err(SyntaxError::WrongArgumentCount(Constructor::Vector2i))
    );
}

#[test]
fn vector_takes_no_doubles() {
    assert_eq!(parse(b"Vector2i(1.5, 2)"), Err(SyntaxError::UnexpectedToken(Expected::Integer)));
    assert_eq!(parse(b"Vector2i(1, )"), Err(SyntaxError::UnexpectedToken(Expected::Integer)));
    assert_eq!(parse(b"Vector2i(1, 2"), Err(SyntaxError::UnexpectedEnd(
        Expected::CommaOrParenthesisClose
    )));
    assert_eq!(parse(b"Vector2i(1,"), Err(SyntaxError::UnexpectedEnd(Expected::Integer)));
    assert_eq!(
        parse(b"Vector2i(1 2)"),
        Err(SyntaxError::UnexpectedToken(Expected::CommaOrParenthesisClose))
    );
    assert_eq!(parse(b"Vector2i 1"), Err(SyntaxError::UnexpectedToken(Expected::ParenthesisOpen)));
    assert_eq!(parse(b"Vector2i"), Err(SyntaxError::UnexpectedEnd(Expected::ParenthesisOpen)));
}

#[test]
fn colour_takes_four_numbers_and_widens_integers() {
    assert_eq!(
        parse(b"Color(1, 0.5, 0, 1e-3)"),
        Ok(Value::Color(Color::Rgba(finite(b"1"), finite(b"0.5"), finite(b"0"), finite(b"1e-3"))))
    );
    assert_eq!(
        parse(b"Color(007, -2, 3, 4)"),
        Ok(Value::Color(Color::Rgba(finite(b"7"), finite(b"-2"), finite(b"3"), finite(b"4"))))
    );
}

#[test]
fn colour_with_another_number_of_arguments_is_refused() {
    assert_eq!(parse(b"Color()"), Err(SyntaxError::WrongArgumentCount(Constructor::Color)));
    assert_eq!(parse(b"Color(1, 2, 3)"), Err(SyntaxError::WrongArgumentCount(Constructor::Color)));
    assert_eq!(
        parse(b"Color(1, 2, 3, 4, 5)"),
        Err(SyntaxError::WrongArgumentCount(Constructor::Color))
    );
}

#[test]
fn colour_takes_no_words() {
    assert_eq!(parse(b"Color(inf, 0, 0, 1)"), Err(SyntaxError::UnexpectedToken(Expected::Float)));
    assert_eq!(parse(b"Color(1, 2"), Err(SyntaxError::UnexpectedEnd(
        Expected::CommaOrParenthesisClose
    )));
    assert_eq!(parse(b"Color(1, "), Err(SyntaxError::UnexpectedEnd(Expected::Float)));
}

#[test]
fn references_take_one_string() {
    assert_eq!(parse(b"SubResource(\"2_abc\")"), Ok(Value::SubResource(b"2_abc".to_vec())));
    assert_eq!(parse(b"ExtResource( \"1_xyz\" )"), Ok(Value::ExtResource(b"1_xyz".to_vec())));
    assert_eq!(parse(b"ExtResource(1)"), Err(SyntaxError::UnexpectedToken(
        Expected::StringArgument
    )));
    assert_eq!(parse(b"ExtResource("), Err(SyntaxError::UnexpectedEnd(Expected::StringArgument)));
    assert_eq!(
        parse(b"SubResource(\"a\", \"b\")"),
        Err(SyntaxError::UnexpectedToken(Expected::ParenthesisClose))
    );
    assert_eq!(parse(b"SubResource(\"a\""), Err(SyntaxError::UnexpectedEnd(
        Expected::ParenthesisClose
    )));
    assert_eq!(parse(b"SubResource \"a\""), Err(SyntaxError::UnexpectedToken(
        Expected::ParenthesisOpen
    )));
}

#[test]
fn word_that_names_no_value_is_refused() {
    assert_eq!(parse(b"Vector2(1, 2)"), Err(SyntaxError::UnsupportedValue));
    assert_eq!(parse(b"True"), Err(SyntaxError::UnsupportedValue));
    assert_eq!(parse(b"PackedByteArray()"), Err(SyntaxError::UnsupportedValue));
}

#[test]
fn token_that_begins_no_value_is_refused() {
    assert_eq!(parse(b"]"), Err(SyntaxError::UnexpectedToken(Expected::Value)));
    assert_eq!(parse(b"= 5"), Err(SyntaxError::UnexpectedToken(Expected::Value)));
    assert_eq!(parse(b""), Err(SyntaxError::UnexpectedEnd(Expected::Value)));
    assert_eq!(parse(b"   ; nothing\n"), Err(SyntaxError::UnexpectedEnd(Expected::Value)));
    assert_eq!(parse(b"#ff0000"), Err(SyntaxError::UnexpectedEnd(Expected::Value)));
    assert_eq!(parse(b"\"open"), Err(SyntaxError::UnterminatedString));
}

#[test]
fn values_are_written_as_the_engine_writes_them() {
    assert_eq!(render(&Value::Null), b"null".to_vec());
    assert_eq!(render(&Value::Bool(true)), b"true".to_vec());
    assert_eq!(render(&Value::Bool(false)), b"false".to_vec());
    assert_eq!(render(&Value::Integer(-17)), b"-17".to_vec());
    assert_eq!(render(&Value::Double(finite(b"0.5"))), b"0.5".to_vec());
    assert_eq!(render(&Value::Double(finite(b"3"))), b"3".to_vec());
    assert_eq!(render(&Value::Double(Double::Nan)), b"nan".to_vec());
    assert_eq!(render(&Value::Double(Double::Infinity)), b"inf".to_vec());
    assert_eq!(render(&Value::Double(Double::NegInfinity)), b"neg_inf".to_vec());
    assert_eq!(render(&Value::String(b"res://a.png".to_vec())), b"\"res://a.png\"".to_vec());
    assert_eq!(render(&Value::StringName(b"idle".to_vec())), b"&\"idle\"".to_vec());
    assert_eq!(render(&Value::Color(Color::Html(b"#ff0000".to_vec()))), b"#ff0000".to_vec());
    assert_eq!(
        render(&Value::Color(Color::Rgba(finite(b"0"), finite(b"0"), finite(b"0"), finite(b"1")))),
        b"Color(0, 0, 0, 1)".to_vec()
    );
    assert_eq!(
        render(&Value::Vector2i(Vector2i { x: 16, y: -1 })),
        b"Vector2i(16, -1)".to_vec()
    );
    assert_eq!(render(&Value::SubResource(b"2_abc".to_vec())), b"SubResource(\"2_abc\")".to_vec());
    assert_eq!(render(&Value::ExtResource(b"1_xyz".to_vec())), b"ExtResource(\"1_xyz\")".to_vec());
}

#[test]
fn text_of_a_value_is_appended() {
    let mut out = b"k=".to_vec();
    Value::Integer(5).godot_fmt(&mut out);
    assert_eq!(out, b"k=5".to_vec());
}

#[test]
fn reading_the_text_of_a_value_gives_it_back() {
    let values = vec![
        Value::Null,
        Value::Bool(true),
        Value::Bool(false),
        Value::Integer(0),
        Value::Integer(i64::MIN),
        Value::Integer(i64::MAX),
        Value::Double(Double::Nan),
        Value::Double(Double::Infinity),
        Value::Double(Double::NegInfinity),
        Value::Double(finite(b"0.1")),
        Value::Double(finite(b"-1.5e-7")),
        Value::Double(finite(b"1e16")),
        Value::String(Vec::new()),
        Value::String(b"uid://abc \\ {}[]();=#&@".to_vec()),
        Value::String(vec![0xc3, 0xa9, 0x00, 0xff]),
        Value::StringName(b"name".to_vec()),
        Value::Color(Color::Html(b"#".to_vec())),
        Value::Color(Color::Html(b"#FFaa0080".to_vec())),
        Value::Color(Color::Rgba(finite(b"0"), finite(b"0.25"), finite(b"-1"), finite(b"1e-3"))),
        Value::Vector2i(Vector2i { x: 0, y: 0 }),
        Value::Vector2i(Vector2i { x: i64::MIN, y: i64::MAX }),
        Value::SubResource(b"2_abc".to_vec()),
        Value::ExtResource(b"1_xyz".to_vec()),
    ];
    for value in values {
        let mut text = render(&value);
        if !matches!(value, Value::Color(Color::Html(_))) {
            assert_eq!(parse(&text), Ok(value.clone()));
        }
        text.push(b'\n');
        assert_eq!(parse(&text), Ok(value));
    }
}

#[test]
fn whole_number_is_read_as_the_integer_of_the_same_text() {
    let whole = Value::Double(finite(b"5"));
    let text = render(&whole);
    assert_eq!(text, b"5".to_vec());
    assert_eq!(parse(&text), Ok(Value::Integer(5)));
    assert_eq!(render(&Value::Integer(5)), text);
}

#[test]
fn failures_know_their_family() {
    assert_eq!(SyntaxError::InvalidByte(b'!').kind(), ErrorKind::Lexical);
    assert_eq!(SyntaxError::UnterminatedString.kind(), ErrorKind::Lexical);
    assert_eq!(SyntaxError::MissingQuote.kind(), ErrorKind::Lexical);
    assert_eq!(SyntaxError::MalformedInteger.kind(), ErrorKind::Lexical);
    assert_eq!(SyntaxError::MalformedDouble.kind(), ErrorKind::Lexical);
    assert_eq!(SyntaxError::UnexpectedToken(Expected::Equal).kind(), ErrorKind::Grammar);
    assert_eq!(SyntaxError::UnexpectedEnd(Expected::Value).kind(), ErrorKind::Grammar);
    assert_eq!(SyntaxError::WrongArgumentCount(Constructor::Color).kind(), ErrorKind::Grammar);
    assert_eq!(SyntaxError::UnsupportedValue.kind(), ErrorKind::Schema);
}

#[test]
fn reading_leaves_what_follows_the_value() {
    let mut tokens = Tokenizer::new(b"Vector2i(1, 2) next");
    assert_eq!(Value::parse(&mut tokens), Ok(Value::Vector2i(Vector2i { x: 1, y: 2 })));
    assert_eq!(tokens.peek_byte(), Some(b' '));
    assert_eq!(Value::parse(&mut tokens), Err(SyntaxError::UnsupportedValue));
}

#[test]
fn lists_of_arguments() {
    let mut tokens = Tokenizer::new(b"(1, 2, 3)");
    assert_eq!(Value::parse_int_constructor(&mut tokens), Ok(vec![1i64, 2, 3]));
    let mut tokens = Tokenizer::new(b"()");
    assert_eq!(Value::parse_int_constructor(&mut tokens), Ok(Vec::new()));
    let mut tokens = Tokenizer::new(b"(1.5, 2)");
    assert_eq!(
        Value::parse_double_constructor(&mut tokens),
        Ok(vec![finite(b"1.5"), finite(b"2")])
    );
    let mut tokens = Tokenizer::new(b"()");
    assert_eq!(Value::parse_double_constructor(&mut tokens), Ok(Vec::new()));
}
