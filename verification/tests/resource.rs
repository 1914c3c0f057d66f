use godot_tileset::config::{TerrainConfig, TerrainSetConfig};
use godot_tileset::document::{GodotFile, Tag, TagAssign};
use godot_tileset::parser::parse_file;
use godot_tileset::resource::{
    FieldName, PeeringBit, ResourceTag, SchemaError, TextureResource, Tile, TileSetAtlasSource,
    TileSetResource,
};
use godot_tileset::value::{Color, Double, Value, Vector2i};

const MINIMAL: &[u8] = b"[gd_resource type=\"TileSet\" load_steps=3 format=3 uid=\"uid://abc\"]\n\n[ext_resource type=\"Texture2D\" uid=\"uid://tex\" path=\"res://a.png\" id=\"1_xyz\"]\n\n[sub_resource type=\"TileSetAtlasSource\" id=\"2_abc\"]\ntexture = ExtResource(\"1_xyz\")\n";

fn read(text: &[u8]) -> Result<TileSetResource, SchemaError> {
    TileSetResource::init_from_file(parse_file(text).unwrap())
}

fn bare_tile(x: i64, y: i64) -> Tile {
    Tile {
        position: Vector2i { x, y },
        terrain_set: None,
        terrain: None,
        terrains_peering_bit: PeeringBit::default(),
    }
}

fn assigns_of(tile: &Tile) -> Vec<TagAssign> {
    let mut assigns = Vec::new();
    tile.append_assigns(&mut assigns);
    assigns
}

fn assign(path: &[u8], n: i64) -> TagAssign {
    TagAssign { assign: path.to_vec(), value: Value::Integer(n) }
}

fn tag_named(text: &[u8]) -> Tag {
    let mut file = parse_file(text).unwrap();
    file.tags.remove(0)
}

#[test]
fn minimal_file_says_a_tile_set() {
    let resource = read(MINIMAL).unwrap();
    assert_eq!(resource.uid, b"uid://abc".to_vec());
    assert_eq!(
        resource.texture_resource,
        TextureResource {
            uid: b"uid://tex".to_vec(),
            path: b"res://a.png".to_vec(),
            id: b"1_xyz".to_vec(),
        }
    );
    assert_eq!(resource.tile_set_atlas_source.id, b"2_abc".to_vec());
    assert_eq!(resource.tile_set_atlas_source.texture, b"1_xyz".to_vec());
    assert_eq!(resource.tile_set_atlas_source.texture_region_size, Vector2i { x: 0, y: 0 });
    assert!(resource.tile_set_atlas_source.tiles.is_empty());
}

#[test]
fn end_to_end_from_a_minimal_file_to_a_written_one() {
    let mut resource = read(MINIMAL).unwrap();
    resource.tile_set_atlas_source.texture_region_size = Vector2i::from([16u32, 16u32]);
    resource.tile_set_atlas_source.tiles = vec![bare_tile(0, 0)];
    let text = resource.print(&Vec::new());
    let expected = b"[gd_resource type=\"TileSet\" load_steps=3 format=3 uid=\"uid://abc\"]\n\n[ext_resource type=\"Texture2D\" uid=\"uid://tex\" path=\"res://a.png\" id=\"1_xyz\"]\n\n[sub_resource type=\"TileSetAtlasSource\" id=\"2_abc\"]\ntexture = ExtResource(\"1_xyz\")\ntexture_region_size = Vector2i(16, 16)\n0:0/0 = 0\n\n[resource]\ntile_shape = 3\ntile_offset_axis = 1\ntile_size = Vector2i(16, 16)\nsources/0 = SubResource(\"2_abc\")\n";
    assert_eq!(String::from_utf8(text.clone()).unwrap(), String::from_utf8(expected.to_vec()).unwrap());
    assert_eq!(text, expected.to_vec());

    let file = resource.to_file(&Vec::new());
    assert_eq!(file.header.fields[1].identifier, b"load_steps".to_vec());
    assert_eq!(file.header.fields[1].value, Value::Integer(3));
    assert_eq!(file.tags.len(), 3);
    assert_eq!(file.tags[0], parse_file(MINIMAL).unwrap().tags[0]);
    let last = file.tags[2].assigns.last().unwrap();
    assert_eq!(last.assign, b"sources/0".to_vec());
    assert_eq!(last.value, Value::SubResource(b"2_abc".to_vec()));
}

#[test]
fn what_is_written_is_read_as_the_same_tile_set() {
    let mut resource = read(MINIMAL).unwrap();
    resource.tile_set_atlas_source.texture_region_size = Vector2i { x: 32, y: 48 };
    resource.tile_set_atlas_source.tiles = vec![bare_tile(0, 0), bare_tile(1, 0)];
    let sets = vec![TerrainSetConfig { terrains: vec![TerrainConfig { name: b"Grass".to_vec() }] }];
    let text = resource.print(&sets);
    let file = parse_file(&text).unwrap();
    assert_eq!(file, resource.to_file(&sets));
    assert_eq!(file.to_bytes(), text);
    let again = TileSetResource::init_from_file(file).unwrap();
    assert_eq!(again.uid, resource.uid);
    assert_eq!(again.texture_resource, resource.texture_resource);
    assert_eq!(again.tile_set_atlas_source.id, resource.tile_set_atlas_source.id);
    assert_eq!(again.tile_set_atlas_source.texture, resource.tile_set_atlas_source.texture);
    assert!(again.tile_set_atlas_source.tiles.is_empty());
}

#[test]
fn terrain_sets_are_written_with_mode_name_and_colour() {
    let mut resource = read(MINIMAL).unwrap();
    resource.tile_set_atlas_source.texture_region_size = Vector2i { x: 8, y: 8 };
    let sets = vec![
        TerrainSetConfig {
            terrains: vec![
                TerrainConfig { name: b"Grass".to_vec() },
                TerrainConfig { name: b"Sand".to_vec() },
            ],
        },
        TerrainSetConfig { terrains: Vec::new() },
        TerrainSetConfig { terrains: vec![TerrainConfig { name: "Wasser ü".as_bytes().to_vec() }] },
    ];
    let file = resource.to_file(&sets);
    let black = Value::Color(Color::Rgba(
        Double::Finite(b"0".to_vec()),
        Double::Finite(b"0".to_vec()),
        Double::Finite(b"0".to_vec()),
        Double::Finite(b"1".to_vec()),
    ));
    let line = |path: &[u8], value: Value| TagAssign { assign: path.to_vec(), value };
    assert_eq!(
        file.tags[2].assigns,
        vec![
            line(b"tile_shape", Value::Integer(3)),
            line(b"tile_offset_axis", Value::Integer(1)),
            line(b"tile_size", Value::Vector2i(Vector2i { x: 8, y: 8 })),
            line(b"terrain_set_0/mode", Value::Integer(2)),
            line(b"terrain_set_0/terrain_0/name", Value::String(b"Grass".to_vec())),
            line(b"terrain_set_0/terrain_0/color", black.clone()),
            line(b"terrain_set_0/terrain_1/name", Value::String(b"Sand".to_vec())),
            line(b"terrain_set_0/terrain_1/color", black.clone()),
            line(b"terrain_set_1/mode", Value::Integer(2)),
            line(b"terrain_set_2/mode", Value::Integer(2)),
            line(b"terrain_set_2/terrain_0/name", Value::String("Wasser ü".as_bytes().to_vec())),
            line(b"terrain_set_2/terrain_0/color", black),
            line(b"sources/0", Value::SubResource(b"2_abc".to_vec())),
        ]
    );
    let text = String::from_utf8(resource.print(&sets)).unwrap();
    assert!(text.contains("terrain_set_0/terrain_1/color = Color(0, 0, 0, 1)\n"));
    assert!(text.contains("terrain_set_2/terrain_0/name = \"Wasser ü\"\n"));
    assert!(text.ends_with("terrain_set_2/terrain_0/color = Color(0, 0, 0, 1)\nsources/0 = SubResource(\"2_abc\")\n"));
}

#[test]
fn tile_with_a_position_only_has_one_line() {
    assert_eq!(assigns_of(&bare_tile(3, 7)), vec![assign(b"3:7/0", 0)]);
    assert_eq!(assigns_of(&bare_tile(-1, 0)), vec![assign(b"-1:0/0", 0)]);
}

#[test]
fn tile_with_terrains_has_a_line_for_each_in_fixed_order() {
    let tile = Tile {
        position: Vector2i { x: 2, y: 5 },
        terrain_set: Some(0),
        terrain: Some(1),
        terrains_peering_bit: PeeringBit {
            top_side: Some(4),
            bottom_side: Some(3),
            ..PeeringBit::default()
        },
    };
    assert_eq!(
        assigns_of(&tile),
        vec![
            assign(b"2:5/0", 0),
            assign(b"2:5/0/terrain_set", 0),
            assign(b"2:5/0/terrain", 1),
            assign(b"2:5/0/terrains_peering_bit/bottom_side", 3),
            assign(b"2:5/0/terrains_peering_bit/top_side", 4),
        ]
    );
}

#[test]
fn tile_with_two_sides_and_its_terrain_has_four_more_lines() {
    let tile = Tile {
        position: Vector2i { x: 0, y: 0 },
        terrain_set: Some(1),
        terrain: Some(2),
        terrains_peering_bit: PeeringBit {
            bottom_right_side: Some(7),
            top_right_side: Some(9),
            ..PeeringBit::default()
        },
    };
    let assigns = assigns_of(&tile);
    assert_eq!(assigns.len(), 5);
    assert_eq!(
        assigns[1..].to_vec(),
        vec![
            assign(b"0:0/0/terrain_set", 1),
            assign(b"0:0/0/terrain", 2),
            assign(b"0:0/0/terrains_peering_bit/bottom_right_side", 7),
            assign(b"0:0/0/terrains_peering_bit/top_right_side", 9),
        ]
    );
}

#[test]
fn every_side_has_its_line() {
    let tile = Tile {
        position: Vector2i { x: 1, y: 1 },
        terrain_set: None,
        terrain: None,
        terrains_peering_bit: PeeringBit {
            bottom_right_side: Some(1),
            bottom_side: Some(2),
            bottom_left_side: Some(3),
            top_left_side: Some(4),
            top_side: Some(5),
            top_right_side: Some(u32::MAX),
        },
    };
    assert_eq!(
        assigns_of(&tile),
        vec![
            assign(b"1:1/0", 0),
            assign(b"1:1/0/terrains_peering_bit/bottom_right_side", 1),
            assign(b"1:1/0/terrains_peering_bit/bottom_side", 2),
            assign(b"1:1/0/terrains_peering_bit/bottom_left_side", 3),
            assign(b"1:1/0/terrains_peering_bit/top_left_side", 4),
            assign(b"1:1/0/terrains_peering_bit/top_side", 5),
            assign(b"1:1/0/terrains_peering_bit/top_right_side", 4294967295),
        ]
    );
}

#[test]
fn lines_of_a_tile_are_appended() {
    let mut assigns = vec![assign(b"before", 1)];
    bare_tile(0, 0).append_assigns(&mut assigns);
    assert_eq!(assigns, vec![assign(b"before", 1), assign(b"0:0/0", 0)]);
}

#[test]
fn tags_may_stand_in_any_order() {
    let resource = read(
        b"[gd_resource uid=\"u\"]\n[resource]\n[sub_resource id=\"s\" type=\"TileSetAtlasSource\"]\nother = 1\ntexture = ExtResource(\"e\")\n[ext_resource id=\"e\" path=\"p\" uid=\"t\" type=\"Texture2D\"]\n",
    )
    .unwrap();
    assert_eq!(resource.uid, b"u".to_vec());
    assert_eq!(resource.texture_resource.path, b"p".to_vec());
    assert_eq!(resource.tile_set_atlas_source.id, b"s".to_vec());
    assert_eq!(resource.tile_set_atlas_source.texture, b"e".to_vec());
}

#[test]
fn file_that_is_no_resource_is_refused() {
    assert_eq!(read(b"[gd_scene uid=\"u\"]\n"), Err(SchemaError::NotAResource));
}

#[test]
fn header_without_uid_string_is_refused() {
    assert_eq!(read(b"[gd_resource format=3]\n"), Err(SchemaError::MissingUid));
    assert_eq!(read(b"[gd_resource uid=5]\n"), Err(SchemaError::MissingUid));
    assert_eq!(read(b"[gd_resource uid=5 uid=\"u\"]\n"), Err(SchemaError::MissingUid));
}

const TEXTURE: &str = "[ext_resource type=\"Texture2D\" uid=\"t\" path=\"p\" id=\"e\"]\n";
const ATLAS: &str =
    "[sub_resource type=\"TileSetAtlasSource\" id=\"s\"]\ntexture = ExtResource(\"e\")\n";

fn with_tags(tags: &[&str]) -> Vec<u8> {
    let mut text = String::from("[gd_resource uid=\"u\"]\n");
    for tag in tags {
        text.push_str(tag);
    }
    text.into_bytes()
}

#[test]
fn file_without_texture_is_refused() {
    assert_eq!(read(&with_tags(&[ATLAS])), Err(SchemaError::Missing(ResourceTag::Texture)));
    assert_eq!(read(&with_tags(&[])), Err(SchemaError::Missing(ResourceTag::Texture)));
}

#[test]
fn file_with_two_textures_is_refused() {
    assert_eq!(
        read(&with_tags(&[TEXTURE, ATLAS, TEXTURE])),
        Err(SchemaError::Duplicate(ResourceTag::Texture))
    );
}

#[test]
fn file_without_atlas_is_refused() {
    assert_eq!(read(&with_tags(&[TEXTURE])), Err(SchemaError::Missing(ResourceTag::Atlas)));
}

#[test]
fn file_with_two_atlases_is_refused() {
    assert_eq!(
        read(&with_tags(&[ATLAS, TEXTURE, ATLAS])),
        Err(SchemaError::Duplicate(ResourceTag::Atlas))
    );
}

#[test]
fn file_with_an_unknown_tag_is_refused() {
    assert_eq!(
        read(&with_tags(&[TEXTURE, ATLAS, "[node name=\"x\"]\n"])),
        Err(SchemaError::UnexpectedTag { index: 2 })
    );
    assert_eq!(
        read(&with_tags(&["[ext_resources]\n", TEXTURE, ATLAS])),
        Err(SchemaError::UnexpectedTag { index: 0 })
    );
}

#[test]
fn one_resource_tag_is_passed_over_and_a_second_refused() {
    assert!(read(&with_tags(&[TEXTURE, "[resource]\nanything = 1\n", ATLAS])).is_ok());
    assert_eq!(
        read(&with_tags(&[TEXTURE, "[resource]\n", ATLAS, "[resource]\n"])),
        Err(SchemaError::DuplicateResource)
    );
}

fn texture(text: &str) -> Result<TextureResource, SchemaError> {
    TextureResource::init_from_tag(&tag_named(&with_tags(&[text])))
}

fn atlas(text: &str) -> Result<TileSetAtlasSource, SchemaError> {
    TileSetAtlasSource::init_from_tag(&tag_named(&with_tags(&[text])))
}

#[test]
fn texture_is_read_from_its_fields() {
    assert_eq!(
        texture(TEXTURE),
        Ok(TextureResource { uid: b"t".to_vec(), path: b"p".to_vec(), id: b"e".to_vec() })
    );
    assert_eq!(
        texture("[ext_resource uid=\"old\" type=\"Texture2D\" uid=\"t\" path=\"p\" id=\"e\"]\n"),
        Ok(TextureResource { uid: b"t".to_vec(), path: b"p".to_vec(), id: b"e".to_vec() })
    );
}

#[test]
fn texture_with_a_wrong_field_is_refused() {
    let tag = ResourceTag::Texture;
    assert_eq!(
        texture("[ext_resource type=5]\n"),
        Err(SchemaError::NotAString { tag, field: FieldName::Type })
    );
    assert_eq!(texture("[ext_resource type=\"Image\"]\n"), Err(SchemaError::WrongType { tag }));
    assert_eq!(
        texture("[ext_resource uid=\"t\" path=\"p\" id=\"e\"]\n"),
        Err(SchemaError::WrongType { tag })
    );
    assert_eq!(
        texture("[ext_resource type=\"Texture2D\" uid=&\"t\"]\n"),
        Err(SchemaError::NotAString { tag, field: FieldName::Uid })
    );
    assert_eq!(
        texture("[ext_resource type=\"Texture2D\" path=1]\n"),
        Err(SchemaError::NotAString { tag, field: FieldName::Path })
    );
    assert_eq!(
        texture("[ext_resource type=\"Texture2D\" id=null]\n"),
        Err(SchemaError::NotAString { tag, field: FieldName::Id })
    );
    assert_eq!(
        texture("[ext_resource type=\"Texture2D\" uid=\"t\" size=1 id=5]\n"),
        Err(SchemaError::UnexpectedField { tag, index: 2 })
    );
}

#[test]
fn texture_without_a_field_is_refused() {
    let tag = ResourceTag::Texture;
    assert_eq!(
        texture("[ext_resource type=\"Texture2D\" path=\"p\" id=\"e\"]\n"),
        Err(SchemaError::MissingField { tag, field: FieldName::Uid })
    );
    assert_eq!(
        texture("[ext_resource type=\"Texture2D\" uid=\"t\" id=\"e\"]\n"),
        Err(SchemaError::MissingField { tag, field: FieldName::Path })
    );
    assert_eq!(
        texture("[ext_resource type=\"Texture2D\" uid=\"t\" path=\"p\"]\n"),
        Err(SchemaError::MissingField { tag, field: FieldName::Id })
    );
    assert_eq!(
        texture("[ext_resource type=\"Texture2D\" uid=\"t\" path=\"\" id=\"e\"]\n"),
        Err(SchemaError::MissingField { tag, field: FieldName::Path })
    );
}

#[test]
fn atlas_is_read_without_its_tiles() {
    let read = atlas(
        "[sub_resource type=\"TileSetAtlasSource\" id=\"s\"]\ntexture = ExtResource(\"old\")\ntexture_region_size = Vector2i(16, 16)\n0:0/0 = 0\ntexture = ExtResource(\"e\")\n",
    )
    .unwrap();
    assert_eq!(read.id, b"s".to_vec());
    assert_eq!(read.texture, b"e".to_vec());
    assert_eq!(read.texture_region_size, Vector2i { x: 0, y: 0 });
    assert!(read.tiles.is_empty());
}

#[test]
fn atlas_with_a_wrong_field_is_refused() {
    let tag = ResourceTag::Atlas;
    assert_eq!(
        atlas("[sub_resource type=1]\n"),
        Err(SchemaError::NotAString { tag, field: FieldName::Type })
    );
    assert_eq!(atlas("[sub_resource type=\"Texture2D\"]\n"), Err(SchemaError::WrongType { tag }));
    assert_eq!(
        atlas("[sub_resource id=\"s\"]\ntexture = ExtResource(\"e\")\n"),
        Err(SchemaError::WrongType { tag })
    );
    assert_eq!(
        atlas("[sub_resource type=\"TileSetAtlasSource\" id=2]\n"),
        Err(SchemaError::NotAString { tag, field: FieldName::Id })
    );
    assert_eq!(
        atlas("[sub_resource type=\"TileSetAtlasSource\" uid=\"x\"]\n"),
        Err(SchemaError::UnexpectedField { tag, index: 1 })
    );
    assert_eq!(
        atlas("[sub_resource type=\"TileSetAtlasSource\" id=\"s\"]\ntexture = SubResource(\"e\")\n"),
        Err(SchemaError::NotAReference)
    );
    assert_eq!(
        atlas("[sub_resource type=\"TileSetAtlasSource\" id=\"s\"]\ntexture = \"e\"\n"),
        Err(SchemaError::NotAReference)
    );
}

#[test]
fn atlas_without_a_field_is_refused() {
    let tag = ResourceTag::Atlas;
    assert_eq!(
        atlas("[sub_resource type=\"TileSetAtlasSource\"]\ntexture = ExtResource(\"e\")\n"),
        Err(SchemaError::MissingField { tag, field: FieldName::Id })
    );
    assert_eq!(
        atlas("[sub_resource type=\"TileSetAtlasSource\" id=\"s\"]\n"),
        Err(SchemaError::MissingField { tag, field: FieldName::Texture })
    );
    assert_eq!(
        atlas("[sub_resource type=\"TileSetAtlasSource\" id=\"s\"]\ntexture = ExtResource(\"\")\n"),
        Err(SchemaError::MissingField { tag, field: FieldName::Texture })
    );
}

#[test]
fn failure_of_a_tag_is_the_failure_of_the_file() {
    assert_eq!(
        read(&with_tags(&["[ext_resource type=\"Texture2D\"]\n", ATLAS])),
        Err(SchemaError::MissingField { tag: ResourceTag::Texture, field: FieldName::Uid })
    );
    assert_eq!(
        read(&with_tags(&[TEXTURE, "[sub_resource id=\"s\"]\n"])),
        Err(SchemaError::WrongType { tag: ResourceTag::Atlas })
    );
}

#[test]
fn no_side_has_a_terrain_by_default() {
    let sides = PeeringBit::default();
    assert_eq!(sides.bottom_right_side, None);
    assert_eq!(sides.bottom_side, None);
    assert_eq!(sides.bottom_left_side, None);
    assert_eq!(sides.top_left_side, None);
    assert_eq!(sides.top_side, None);
    assert_eq!(sides.top_right_side, None);
}

#[test]
fn file_of_a_tile_set_has_the_header_and_three_tags() {
    let resource = TileSetResource {
        uid: b"uid://x".to_vec(),
        texture_resource: TextureResource {
            uid: b"uid://t".to_vec(),
            path: b"res://t.png".to_vec(),
            id: b"1".to_vec(),
        },
        tile_set_atlas_source: TileSetAtlasSource {
            id: b"2".to_vec(),
            texture: b"1".to_vec(),
            texture_region_size: Vector2i { x: 4, y: 6 },
            tiles: Vec::new(),
        },
    };
    let file: GodotFile = resource.to_file(&Vec::new());
    assert_eq!(
        file.to_bytes(),
        b"[gd_resource type=\"TileSet\" load_steps=3 format=3 uid=\"uid://x\"]\n\n[ext_resource type=\"Texture2D\" uid=\"uid://t\" path=\"res://t.png\" id=\"1\"]\n\n[sub_resource type=\"TileSetAtlasSource\" id=\"2\"]\ntexture = ExtResource(\"1\")\ntexture_region_size = Vector2i(4, 6)\n\n[resource]\ntile_shape = 3\ntile_offset_axis = 1\ntile_size = Vector2i(4, 6)\nsources/0 = SubResource(\"2\")\n"
            .to_vec()
    );
}
