use godot_tileset::document::{Field, Tag, TagAssign};
use godot_tileset::error::{Expected, SyntaxError};
use godot_tileset::token::Tokenizer;
use godot_tileset::value::{Value, Vector2i};

fn parse_tag(text: &[u8]) -> Result<Option<Tag>, SyntaxError> {
    let mut tokens = Tokenizer::new(text);
    Tag::parse(&mut tokens)
}

fn parse_assign(text: &[u8]) -> Result<Option<TagAssign>, SyntaxError> {
    let mut tokens = Tokenizer::new(text);
    TagAssign::parse(&mut tokens)
}

fn tag(name: &[u8], fields: Vec<Field>) -> Tag {
    Tag { name: name.to_vec(), fields, assigns: Vec::new() }
}

fn field(identifier: &[u8], value: Value) -> Field {
    Field { identifier: identifier.to_vec(), value }
}

fn assign(path: &[u8], value: Value) -> TagAssign {
    TagAssign { assign: path.to_vec(), value }
}

#[test]
fn tag_with_a_name_only() {
    assert_eq!(parse_tag(b"[resource]"), Ok(Some(tag(b"resource", Vec::new()))));
    assert_eq!(parse_tag(b"\n\n  [ resource ]\n"), Ok(Some(tag(b"resource", Vec::new()))));
}

#[test]
fn no_tag_at_the_end_of_the_input() {
    assert_eq!(parse_tag(b""), Ok(None));
    assert_eq!(parse_tag(b" \n ; comment\n"), Ok(None));
}

#[test]
fn tag_with_fields() {
    assert_eq!(
        parse_tag(b"[ext_resource type=\"Texture2D\" id=\"1_xyz\" load_steps=3]"),
        Ok(Some(tag(
            b"ext_resource",
            vec![
                field(b"type", Value::String(b"Texture2D".to_vec())),
                field(b"id", Value::String(b"1_xyz".to_vec())),
                field(b"load_steps", Value::Integer(3)),
            ]
        )))
    );
}

#[test]
fn equal_sign_may_stand_apart() {
    assert_eq!(
        parse_tag(b"[node name = \"a\" size= Vector2i(1, 2)]"),
        Ok(Some(tag(
            b"node",
            vec![
                field(b"name", Value::String(b"a".to_vec())),
                field(b"size", Value::Vector2i(Vector2i { x: 1, y: 2 })),
            ]
        )))
    );
}

#[test]
fn name_is_made_of_the_tokens_before_the_first_field() {
    assert_eq!(parse_tag(b"[a.b:c]"), Ok(Some(tag(b"a.b:c", Vec::new()))));
    assert_eq!(parse_tag(b"[a b . c]"), Ok(Some(tag(b"ab.c", Vec::new()))));
    assert_eq!(
        parse_tag(b"[editable path=\"x\"]"),
        Ok(Some(tag(b"editable", vec![field(b"path", Value::String(b"x".to_vec()))])))
    );
    assert_eq!(
        parse_tag(b"[connection.signal from key=1]"),
        Ok(Some(tag(b"connection.signalfrom", vec![field(b"key", Value::Integer(1))])))
    );
}

#[test]
fn from_the_first_field_on_nothing_but_fields_may_follow() {
    assert_eq!(parse_tag(b"[a k=1 b]"), Err(SyntaxError::UnexpectedToken(Expected::Equal)));
    assert_eq!(parse_tag(b"[a k=1 b"), Err(SyntaxError::UnexpectedEnd(Expected::Equal)));
    assert_eq!(parse_tag(b"[a k=1 .]"), Err(SyntaxError::UnexpectedToken(Expected::Identifier)));
    assert_eq!(parse_tag(b"[a k=1 :]"), Err(SyntaxError::UnexpectedToken(Expected::Identifier)));
    assert_eq!(parse_tag(b"[a k=1 b !"), Err(SyntaxError::InvalidByte(b'!')));
}

#[test]
fn malformed_tags_are_refused() {
    assert_eq!(parse_tag(b"x"), Err(SyntaxError::UnexpectedToken(Expected::BracketOpen)));
    assert_eq!(parse_tag(b"["), Err(SyntaxError::UnexpectedEnd(Expected::TagName)));
    assert_eq!(parse_tag(b"[]"), Err(SyntaxError::UnexpectedToken(Expected::TagName)));
    assert_eq!(parse_tag(b"[5]"), Err(SyntaxError::UnexpectedToken(Expected::TagName)));
    assert_eq!(parse_tag(b"[a"), Err(SyntaxError::UnexpectedEnd(Expected::BracketClose)));
    assert_eq!(parse_tag(b"[a k=1"), Err(SyntaxError::UnexpectedEnd(Expected::BracketClose)));
    assert_eq!(parse_tag(b"[a 5]"), Err(SyntaxError::UnexpectedToken(Expected::Identifier)));
    assert_eq!(parse_tag(b"[a =5]"), Err(SyntaxError::UnexpectedToken(Expected::Identifier)));
    assert_eq!(parse_tag(b"[a k=]"), Err(SyntaxError::UnexpectedToken(Expected::Value)));
    assert_eq!(parse_tag(b"[a k=what]"), Err(SyntaxError::UnsupportedValue));
    assert_eq!(parse_tag(b"[a k=\"open]"), Err(SyntaxError::UnterminatedString));
    assert_eq!(parse_tag(b"[a ?]"), Err(SyntaxError::InvalidByte(b'?')));
}

#[test]
fn property_line_has_a_path_and_a_value() {
    assert_eq!(parse_assign(b"texture = ExtResource(\"1_xyz\")\n"), Ok(Some(assign(
        b"texture",
        Value::ExtResource(b"1_xyz".to_vec())
    ))));
    assert_eq!(parse_assign(b"0:0/0 = 0"), Ok(Some(assign(b"0:0/0", Value::Integer(0)))));
    assert_eq!(
        parse_assign(b"\n\n  a/b[0].c=true"),
        Ok(Some(assign(b"a/b[0].c", Value::Bool(true))))
    );
}

#[test]
fn bytes_up_to_the_space_are_no_part_of_a_path() {
    assert_eq!(parse_assign(b"a b\tc\n = 1"), Ok(Some(assign(b"abc", Value::Integer(1)))));
}

#[test]
fn quoted_string_adds_its_text_to_the_path() {
    assert_eq!(parse_assign(b"\"a b\" = 1"), Ok(Some(assign(b"a b", Value::Integer(1)))));
    assert_eq!(parse_assign(b"x/\"a b\"/y = 1"), Ok(Some(assign(b"x/a b/y", Value::Integer(1)))));
    assert_eq!(parse_assign(b"x/\"a b = 1"), Err(SyntaxError::UnterminatedString));
}

#[test]
fn comment_between_property_lines_is_skipped() {
    assert_eq!(parse_assign(b"; first\n; second\nk = 1"), Ok(Some(assign(b"k", Value::Integer(1)))));
    assert_eq!(parse_assign(b"k ; rest of the path?\n = 1"), Ok(Some(assign(
        b"k",
        Value::Integer(1)
    ))));
}

#[test]
fn opening_bracket_before_a_path_ends_the_lines() {
    let mut tokens = Tokenizer::new(b"\n\n[resource]");
    assert_eq!(TagAssign::parse(&mut tokens), Ok(None));
    assert_eq!(tokens.peek_byte(), Some(b'['));
    assert_eq!(Tag::parse(&mut tokens), Ok(Some(tag(b"resource", Vec::new()))));
}

#[test]
fn end_of_the_input_before_a_path_ends_the_lines() {
    assert_eq!(parse_assign(b""), Ok(None));
    assert_eq!(parse_assign(b"  \n\n"), Ok(None));
    assert_eq!(parse_assign(b"; comment"), Ok(None));
}

#[test]
fn path_without_equal_sign_is_refused() {
    assert_eq!(parse_assign(b"texture"), Err(SyntaxError::UnexpectedEnd(Expected::Equal)));
    assert_eq!(parse_assign(b"texture ; = 5"), Err(SyntaxError::UnexpectedEnd(Expected::Equal)));
}

#[test]
fn property_line_with_a_malformed_value_is_refused() {
    assert_eq!(parse_assign(b"k = "), Err(SyntaxError::UnexpectedEnd(Expected::Value)));
    assert_eq!(parse_assign(b"k = ]"), Err(SyntaxError::UnexpectedToken(Expected::Value)));
    assert_eq!(parse_assign(b"k = Vector3(1)"), Err(SyntaxError::UnsupportedValue));
    assert_eq!(parse_assign(b"k = 1e"), Err(SyntaxError::MalformedDouble));
}

#[test]
fn all_property_lines_of_a_tag() {
    let mut tokens = Tokenizer::new(b"\na = 1\nb = \"x\"\n\n[next]\nc = 3\n");
    assert_eq!(
        TagAssign::parse_all(&mut tokens),
        Ok(vec![assign(b"a", Value::Integer(1)), assign(b"b", Value::String(b"x".to_vec()))])
    );
    assert_eq!(tokens.peek_byte(), Some(b'['));
}

#[test]
fn tag_is_written_with_its_fields_and_lines() {
    let written = Tag {
        name: b"sub_resource".to_vec(),
        fields: vec![
            field(b"type", Value::String(b"TileSetAtlasSource".to_vec())),
            field(b"id", Value::String(b"2_abc".to_vec())),
        ],
        assigns: vec![
            assign(b"texture", Value::ExtResource(b"1_xyz".to_vec())),
            assign(b"0:0/0", Value::Integer(0)),
        ],
    };
    let mut out = Vec::new();
    written.godot_fmt(&mut out);
    assert_eq!(
        out,
        b"[sub_resource type=\"TileSetAtlasSource\" id=\"2_abc\"]\ntexture = ExtResource(\"1_xyz\")\n0:0/0 = 0\n"
            .to_vec()
    );
}

#[test]
fn tag_without_fields_is_written_as_its_name() {
    let mut out = b"before".to_vec();
    tag(b"resource", Vec::new()).godot_fmt(&mut out);
    assert_eq!(out, b"before[resource]\n".to_vec());
}
