use godot_tileset::error::SyntaxError;
use godot_tileset::token::{Token, Tokenizer};

fn tokens_of(text: &[u8]) -> Result<Vec<Token>, SyntaxError> {
    let mut tokens = Tokenizer::new(text);
    let mut all = Vec::new();
    while let Some(token) = tokens.next_token()? {
        all.push(token);
    }
    Ok(all)
}

#[test]
fn punctuation_is_one_token_each() {
    assert_eq!(
        tokens_of(b"{}[]():,.="),
        Ok(vec![
            Token::CurlyBracketOpen,
            Token::CurlyBracketClose,
            Token::BracketOpen,
            Token::BracketClose,
            Token::ParenthesisOpen,
            Token::ParenthesisClose,
            Token::Colon,
            Token::Comma,
            Token::Period,
            Token::Equal,
        ])
    );
}

#[test]
fn empty_input_has_no_token() {
    let mut tokens = Tokenizer::new(b"");
    assert_eq!(tokens.next_token(), Ok(None));
    assert_eq!(tokens.next_token(), Ok(None));
}

#[test]
fn bytes_up_to_the_space_separate_tokens() {
    assert_eq!(
        tokens_of(b" \t\r\n\x00\x1f a \n b"),
        Ok(vec![Token::Identifier(b"a".to_vec()), Token::Identifier(b"b".to_vec())])
    );
}

#[test]
fn comment_runs_to_the_end_of_its_line() {
    assert_eq!(
        tokens_of(b"a ; b c = 5\n d"),
        Ok(vec![Token::Identifier(b"a".to_vec()), Token::Identifier(b"d".to_vec())])
    );
}

#[test]
fn comment_at_the_end_of_the_input_ends_the_tokens() {
    assert_eq!(tokens_of(b"a ; no line feed"), Ok(vec![Token::Identifier(b"a".to_vec())]));
    assert_eq!(tokens_of(b"; only a comment\n"), Ok(vec![]));
}

#[test]
fn identifier_takes_letters_digits_and_underscores() {
    assert_eq!(tokens_of(b"_a1_B2 "), Ok(vec![Token::Identifier(b"_a1_B2".to_vec())]));
    assert_eq!(tokens_of(b"load_steps"), Ok(vec![Token::Identifier(b"load_steps".to_vec())]));
}

#[test]
fn byte_behind_an_identifier_stays_in_the_input() {
    let mut tokens = Tokenizer::new(b"abc=");
    assert_eq!(tokens.next_token(), Ok(Some(Token::Identifier(b"abc".to_vec()))));
    assert_eq!(tokens.peek_byte(), Some(b'='));
    assert_eq!(tokens.next_token(), Ok(Some(Token::Equal)));
    assert!(tokens.at_end());
}

#[test]
fn quoted_string_keeps_its_text_as_it_is() {
    assert_eq!(
        tokens_of(b"\"res://a b\\n.png\""),
        Ok(vec![Token::String(b"res://a b\\n.png".to_vec())])
    );
    assert_eq!(tokens_of(b"\"\""), Ok(vec![Token::String(Vec::new())]));
}

#[test]
fn line_feed_inside_a_string_is_no_part_of_its_text() {
    assert_eq!(tokens_of(b"\"a\nb\""), Ok(vec![Token::String(b"ab".to_vec())]));
}

#[test]
fn string_behind_a_sigil_is_a_name() {
    assert_eq!(tokens_of(b"&\"idle\""), Ok(vec![Token::StringName(b"idle".to_vec())]));
    assert_eq!(tokens_of(b"@\"idle\""), Ok(vec![Token::StringName(b"idle".to_vec())]));
}

#[test]
fn string_without_its_closing_quote_is_refused() {
    assert_eq!(tokens_of(b"\"abc"), Err(SyntaxError::UnterminatedString));
    assert_eq!(tokens_of(b"&\"abc"), Err(SyntaxError::UnterminatedString));
}

#[test]
fn sigil_without_a_quote_is_refused() {
    assert_eq!(tokens_of(b"&abc"), Err(SyntaxError::MissingQuote));
    assert_eq!(tokens_of(b"@"), Err(SyntaxError::MissingQuote));
}

#[test]
fn colour_literal_stops_at_the_first_other_byte() {
    assert_eq!(
        tokens_of(b"#ff00AA80]"),
        Ok(vec![Token::Color(b"#ff00AA80".to_vec()), Token::BracketClose])
    );
    assert_eq!(
        tokens_of(b"#12g"),
        Ok(vec![Token::Color(b"#12".to_vec()), Token::Identifier(b"g".to_vec())])
    );
}

#[test]
fn colour_literal_cut_short_by_the_end_is_no_token() {
    assert_eq!(tokens_of(b"#ff0000"), Ok(vec![]));
}

#[test]
fn integers_are_read_with_their_sign() {
    assert_eq!(tokens_of(b"0 "), Ok(vec![Token::Integer(0)]));
    assert_eq!(tokens_of(b"-17"), Ok(vec![Token::Integer(-17)]));
    assert_eq!(tokens_of(b"007"), Ok(vec![Token::Integer(7)]));
    assert_eq!(tokens_of(b"9223372036854775807"), Ok(vec![Token::Integer(i64::MAX)]));
    assert_eq!(tokens_of(b"-9223372036854775808"), Ok(vec![Token::Integer(i64::MIN)]));
}

#[test]
fn integer_out_of_range_is_refused() {
    assert_eq!(tokens_of(b"9223372036854775808"), Err(SyntaxError::MalformedInteger));
    assert_eq!(tokens_of(b"-9223372036854775809"), Err(SyntaxError::MalformedInteger));
    assert_eq!(tokens_of(b"100000000000000000000000000"), Err(SyntaxError::MalformedInteger));
}

#[test]
fn minus_without_digits_is_refused() {
    assert_eq!(tokens_of(b"-"), Err(SyntaxError::MalformedInteger));
    assert_eq!(tokens_of(b"- 5"), Err(SyntaxError::MalformedInteger));
}

#[test]
fn fraction_or_exponent_make_a_double() {
    assert_eq!(tokens_of(b"1.5"), Ok(vec![Token::Double(b"1.5".to_vec())]));
    assert_eq!(tokens_of(b"-0.25,"), Ok(vec![Token::Double(b"-0.25".to_vec()), Token::Comma]));
    assert_eq!(tokens_of(b"1e5"), Ok(vec![Token::Double(b"1e5".to_vec())]));
    assert_eq!(tokens_of(b"1.5e-7"), Ok(vec![Token::Double(b"1.5e-7".to_vec())]));
    assert_eq!(tokens_of(b"2e+10"), Ok(vec![Token::Double(b"2e+10".to_vec())]));
    assert_eq!(tokens_of(b"1."), Ok(vec![Token::Double(b"1.".to_vec())]));
    assert_eq!(tokens_of(b"-.5"), Ok(vec![Token::Double(b"-.5".to_vec())]));
}

#[test]
fn number_stops_at_the_first_byte_that_cannot_extend_it() {
    assert_eq!(
        tokens_of(b"1.5.2"),
        Ok(vec![Token::Double(b"1.5".to_vec()), Token::Period, Token::Integer(2)])
    );
    assert_eq!(
        tokens_of(b"1e5e6"),
        Ok(vec![Token::Double(b"1e5".to_vec()), Token::Identifier(b"e6".to_vec())])
    );
    assert_eq!(
        tokens_of(b"1e-5-6"),
        Ok(vec![Token::Double(b"1e-5".to_vec()), Token::Integer(-6)])
    );
    assert_eq!(tokens_of(b"12)"), Ok(vec![Token::Integer(12), Token::ParenthesisClose]));
}

#[test]
fn exponent_takes_one_sign_before_its_digits_only() {
    assert_eq!(tokens_of(b"1e+-5"), Err(SyntaxError::MalformedDouble));
    assert_eq!(tokens_of(b"1e5+"), Err(SyntaxError::InvalidByte(b'+')));
}

#[test]
fn double_that_is_no_decimal_number_is_refused() {
    assert_eq!(tokens_of(b"1e"), Err(SyntaxError::MalformedDouble));
    assert_eq!(tokens_of(b"1e+"), Err(SyntaxError::MalformedDouble));
    assert_eq!(tokens_of(b"-."), Err(SyntaxError::MalformedDouble));
    assert_eq!(tokens_of(b"-e5"), Err(SyntaxError::MalformedDouble));
    assert_eq!(tokens_of(b"1.e"), Err(SyntaxError::MalformedDouble));
}

#[test]
fn byte_that_begins_no_token_is_refused() {
    assert_eq!(tokens_of(b"a ! b"), Err(SyntaxError::InvalidByte(b'!')));
    assert_eq!(tokens_of(b"+1"), Err(SyntaxError::InvalidByte(b'+')));
    assert_eq!(tokens_of(b"\xc3\xa9"), Err(SyntaxError::InvalidByte(0xc3)));
}

#[test]
fn one_byte_at_a_time() {
    let mut tokens = Tokenizer::new(b"ab");
    assert_eq!(tokens.peek_byte(), Some(b'a'));
    assert_eq!(tokens.next_byte(), Some(b'a'));
    assert_eq!(tokens.peek_byte(), Some(b'b'));
    assert_eq!(tokens.next_byte(), Some(b'b'));
    assert_eq!(tokens.peek_byte(), None);
    assert_eq!(tokens.next_byte(), None);
    assert!(tokens.at_end());
}

#[test]
fn skip_line_takes_the_line_feed_too() {
    let mut tokens = Tokenizer::new(b"abc\ndef");
    tokens.skip_line();
    assert_eq!(tokens.next_byte(), Some(b'd'));
    tokens.skip_line();
    assert!(tokens.at_end());
}

#[test]
fn punctuation_tokens_know_their_byte() {
    assert!(Token::Equal.is_punctuation(b'='));
    assert!(!Token::Equal.is_punctuation(b','));
    assert!(Token::ParenthesisClose.is_punctuation(b')'));
    assert!(!Token::Identifier(b"=".to_vec()).is_punctuation(b'='));
    assert!(!Token::Comma.is_punctuation(b'x'));
}
