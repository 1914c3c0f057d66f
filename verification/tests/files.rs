use godot_tileset::document::{Field, GodotFile, Tag, TagAssign};
use godot_tileset::error::{Expected, ParseError, SyntaxError};
use godot_tileset::parser::{find_field, has_supported_format, parse_file, FORMAT_VERSION};
use godot_tileset::value::{Color, Double, Value, Vector2i};
use godot_tileset::writer::GodotWriter;

fn field(identifier: &[u8], value: Value) -> Field {
    Field { identifier: identifier.to_vec(), value }
}

fn assign(path: &[u8], value: Value) -> TagAssign {
    TagAssign { assign: path.to_vec(), value }
}

const SMALL: &[u8] = b"[gd_resource type=\"TileSet\" load_steps=3 format=3 uid=\"uid://abc\"]\n\n[ext_resource type=\"Texture2D\" path=\"res://a.png\" id=\"1_xyz\"]\n\n[sub_resource type=\"TileSetAtlasSource\" id=\"2_abc\"]\ntexture = ExtResource(\"1_xyz\")\ntexture_region_size = Vector2i(16, 16)\n0:0/0 = 0\n\n[resource]\ntile_shape = 3\nmodulate = Color(1, 0.5, 0, 1)\ntint = #ff8800\n";

#[test]
fn file_is_read_tag_by_tag() {
    let file = parse_file(SMALL).unwrap();
    assert_eq!(file.header.name, b"gd_resource".to_vec());
    assert_eq!(
        file.header.fields,
        vec![
            field(b"type", Value::String(b"TileSet".to_vec())),
            field(b"load_steps", Value::Integer(3)),
            field(b"format", Value::Integer(3)),
            field(b"uid", Value::String(b"uid://abc".to_vec())),
        ]
    );
    assert!(file.header.assigns.is_empty());
    assert_eq!(file.tags.len(), 3);
    assert_eq!(file.tags[0].name, b"ext_resource".to_vec());
    assert!(file.tags[0].assigns.is_empty());
    assert_eq!(
        file.tags[1].assigns,
        vec![
            assign(b"texture", Value::ExtResource(b"1_xyz".to_vec())),
            assign(b"texture_region_size", Value::Vector2i(Vector2i { x: 16, y: 16 })),
            assign(b"0:0/0", Value::Integer(0)),
        ]
    );
    assert_eq!(
        file.tags[2].assigns,
        vec![
            assign(b"tile_shape", Value::Integer(3)),
            assign(
                b"modulate",
                Value::Color(Color::Rgba(
                    Double::Finite(b"1".to_vec()),
                    Double::Finite(b"0.5".to_vec()),
                    Double::Finite(b"0".to_vec()),
                    Double::Finite(b"1".to_vec()),
                ))
            ),
            assign(b"tint", Value::Color(Color::Html(b"#ff8800".to_vec()))),
        ]
    );
}

#[test]
fn writing_what_was_read_gives_the_same_text() {
    let file = parse_file(SMALL).unwrap();
    assert_eq!(file.to_bytes(), SMALL.to_vec());
    let again = parse_file(&file.to_bytes()).unwrap();
    assert_eq!(again, file);
}

#[test]
fn writing_normalises_what_was_read() {
    let file =
        parse_file(b"  [gd_resource   format=3] ; the header\n[a  b = 1]\n\n\nk=2 ; two\n").unwrap();
    let text = file.to_bytes();
    assert_eq!(text, b"[gd_resource format=3]\n\n[a b=1]\nk = 2\n".to_vec());
    assert_eq!(parse_file(&text).unwrap().to_bytes(), text);
}

#[test]
fn empty_file_is_refused() {
    assert_eq!(parse_file(b""), Err(ParseError::EmptyFile));
    assert_eq!(parse_file(b"\n  ; nothing here\n"), Err(ParseError::EmptyFile));
}

#[test]
fn malformed_header_is_refused() {
    assert_eq!(
        parse_file(b"gd_resource"),
        Err(ParseError::Header(SyntaxError::UnexpectedToken(Expected::BracketOpen)))
    );
    assert_eq!(
        parse_file(b"[gd_resource"),
        Err(ParseError::Header(SyntaxError::UnexpectedEnd(Expected::BracketClose)))
    );
    assert_eq!(parse_file(b"[gd_resource uid=\"x]"), Err(ParseError::Header(
        SyntaxError::UnterminatedString
    )));
}

#[test]
fn header_with_another_format_is_refused() {
    assert_eq!(parse_file(b"[gd_resource format=2]\n"), Err(ParseError::UnsupportedFormat));
    assert_eq!(parse_file(b"[gd_resource format=4]\n"), Err(ParseError::UnsupportedFormat));
    assert_eq!(parse_file(b"[gd_resource format=\"3\"]\n"), Err(ParseError::UnsupportedFormat));
    assert_eq!(parse_file(b"[gd_resource format=3.0]\n"), Err(ParseError::UnsupportedFormat));
    assert_eq!(
        parse_file(b"[gd_resource format=2 format=3]\n"),
        Err(ParseError::UnsupportedFormat)
    );
}

#[test]
fn header_with_the_supported_format_is_accepted() {
    assert!(parse_file(b"[gd_resource format=3]\n").is_ok());
    assert!(parse_file(b"[gd_resource format=3 format=2]\n").is_ok());
    assert_eq!(FORMAT_VERSION, 3);
}

#[test]
fn header_without_format_is_accepted() {
    let file = parse_file(b"[gd_resource uid=\"uid://abc\"]\n").unwrap();
    assert_eq!(file.header.fields.len(), 1);
    assert!(has_supported_format(&file.header));
}

#[test]
fn property_lines_behind_the_header_are_refused() {
    assert_eq!(
        parse_file(b"[gd_resource]\nk = 1\n"),
        Err(ParseError::Tag { index: 0, error: SyntaxError::UnexpectedToken(Expected::BracketOpen) })
    );
}

#[test]
fn malformed_tag_is_named_by_its_place() {
    assert_eq!(
        parse_file(b"[gd_resource]\n[a]\n[b\n"),
        Err(ParseError::Tag { index: 1, error: SyntaxError::UnexpectedEnd(Expected::BracketClose) })
    );
    assert_eq!(
        parse_file(b"[gd_resource]\n[a k=?]\n"),
        Err(ParseError::Tag { index: 0, error: SyntaxError::InvalidByte(b'?') })
    );
}

#[test]
fn malformed_property_line_is_named_by_the_place_of_its_tag() {
    assert_eq!(
        parse_file(b"[gd_resource]\n[a]\nk = 1\n[b]\nx = y\n"),
        Err(ParseError::Assign { index: 1, error: SyntaxError::UnsupportedValue })
    );
    assert_eq!(
        parse_file(b"[gd_resource]\n[a]\nk = 1\nmissing\n"),
        Err(ParseError::Assign { index: 0, error: SyntaxError::UnexpectedEnd(Expected::Equal) })
    );
}

#[test]
fn first_field_of_a_name_is_found() {
    let fields = vec![
        field(b"a", Value::Integer(1)),
        field(b"b", Value::Integer(2)),
        field(b"a", Value::Integer(3)),
    ];
    assert_eq!(find_field(&fields, "a"), Some(0));
    assert_eq!(find_field(&fields, "b"), Some(1));
    assert_eq!(find_field(&fields, "c"), None);
    assert_eq!(find_field(&Vec::new(), "a"), None);
}

#[test]
fn writer_puts_an_empty_line_before_each_tag() {
    let header = Tag { name: b"gd_resource".to_vec(), fields: Vec::new(), assigns: Vec::new() };
    let first = Tag {
        name: b"a".to_vec(),
        fields: vec![field(b"k", Value::Bool(true))],
        assigns: vec![assign(b"x", Value::Null)],
    };
    let second = Tag { name: b"b".to_vec(), fields: Vec::new(), assigns: Vec::new() };
    let mut writer = GodotWriter::begin(&header);
    writer.write_tag(&first);
    writer.write_tag(&second);
    let expected = b"[gd_resource]\n\n[a k=true]\nx = null\n\n[b]\n".to_vec();
    assert_eq!(writer.finish(), expected);
    let file = GodotFile { header, tags: vec![first, second] };
    assert_eq!(file.to_bytes(), expected);
    assert_eq!(parse_file(&expected), Ok(file));
}
