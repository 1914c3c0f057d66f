//! The tile set resource: what a file says of one, and the file that says it.

use vstd::prelude::*;
use crate::bytes::{bytes_of, copy_bytes, is_text, push_str, text};
use crate::config::TerrainSetConfig;
use crate::document::{
    lemma_deep_view_prefix, lemma_deep_view_push, Field, FieldView, GodotFile, GodotFileView, Tag,
    TagAssign, TagAssignView, TagView,
};
use crate::number::{fmt_integer, fmt_unsigned, int_text};
use crate::parser::{find_field, first_field, FORMAT_VERSION};
use crate::value::{Color, ColorView, Double, DoubleView, Value, ValueView, Vector2i};

verus! {

/// The two tags of which a tile set file holds exactly one each.
#[derive(Clone, Copy, Debug, PartialEq, Eq, Structural)]
pub enum ResourceTag {
    /// `ext_resource`: the texture.
    Texture,
    /// `sub_resource`: the atlas.
    Atlas,
}

/// The fields and properties that are read.
#[derive(Clone, Copy, Debug, PartialEq, Eq, Structural)]
pub enum FieldName {
    Type,
    Uid,
    Path,
    Id,
    Texture,
}

/// Why a file is no tile set. A tag is named by its place among the tags that follow
/// the header, a field by its place in its tag, both counted from zero.
#[derive(Clone, Copy, Debug, PartialEq, Eq, Structural)]
pub enum SchemaError {
    /// The header is not that of a resource file.
    NotAResource,
    /// The header has no `uid` that is a string.
    MissingUid,
    /// A second tag of a kind of which there must be one.
    Duplicate(ResourceTag),
    /// A second `resource` tag.
    DuplicateResource,
    /// A tag of a kind that a tile set file does not hold.
    UnexpectedTag { index: usize },
    /// No tag of a kind of which there must be one.
    Missing(ResourceTag),
    /// A field that must be a string is none.
    NotAString { tag: ResourceTag, field: FieldName },
    /// The `type` of the tag is not the expected one, or the tag has none.
    WrongType { tag: ResourceTag },
    /// A field that the tag does not have.
    UnexpectedField { tag: ResourceTag, index: usize },
    /// A required field or property is absent or empty.
    MissingField { tag: ResourceTag, field: FieldName },
    /// The `texture` of the atlas is no reference to an external resource.
    NotAReference,
}

/// The hexagon-neighbour terrains of a tile, one optional terrain for each side.
#[derive(Clone, Copy, Debug, PartialEq, Eq)]
pub struct PeeringBit {
    pub bottom_right_side: Option<u32>,
    pub bottom_side: Option<u32>,
    pub bottom_left_side: Option<u32>,
    pub top_left_side: Option<u32>,
    pub top_side: Option<u32>,
    pub top_right_side: Option<u32>,
}

impl PeeringBit {
    /// No side has a terrain.
    pub open spec fn empty() -> PeeringBit {
        PeeringBit {
            bottom_right_side: None,
            bottom_side: None,
            bottom_left_side: None,
            top_left_side: None,
            top_side: None,
            top_right_side: None,
        }
    }
}

impl Default for PeeringBit {
    fn default() -> (r: PeeringBit)
        ensures
            r == PeeringBit::empty(),
    {
        PeeringBit {
            bottom_right_side: None,
            bottom_side: None,
            bottom_left_side: None,
            top_left_side: None,
            top_side: None,
            top_right_side: None,
        }
    }
}

/// One cell of the atlas that holds a tile.
#[derive(Clone, Copy, Debug, PartialEq, Eq)]
pub struct Tile {
    pub position: Vector2i,
    pub terrain_set: Option<u32>,
    pub terrain: Option<u32>,
    pub terrains_peering_bit: PeeringBit,
}

/// The texture that the atlas cuts into tiles.
#[derive(Clone, Debug, PartialEq, Eq)]
pub struct TextureResource {
    pub uid: Vec<u8>,
    pub path: Vec<u8>,
    pub id: Vec<u8>,
}

pub struct TextureResourceView {
    pub uid: Seq<u8>,
    pub path: Seq<u8>,
    pub id: Seq<u8>,
}

impl View for TextureResource {
    type V = TextureResourceView;

    open spec fn view(&self) -> TextureResourceView {
        TextureResourceView { uid: self.uid@, path: self.path@, id: self.id@ }
    }
}

/// The atlas: a texture cut into cells of one size, and the cells that hold tiles.
#[derive(Clone, Debug, PartialEq, Eq)]
pub struct TileSetAtlasSource {
    pub id: Vec<u8>,
    /// The id of the texture that the atlas cuts.
    pub texture: Vec<u8>,
    pub texture_region_size: Vector2i,
    pub tiles: Vec<Tile>,
}

pub struct TileSetAtlasSourceView {
    pub id: Seq<u8>,
    pub texture: Seq<u8>,
    pub texture_region_size: Vector2i,
    pub tiles: Seq<Tile>,
}

impl View for TileSetAtlasSource {
    type V = TileSetAtlasSourceView;

    open spec fn view(&self) -> TileSetAtlasSourceView {
        TileSetAtlasSourceView {
            id: self.id@,
            texture: self.texture@,
            texture_region_size: self.texture_region_size,
            tiles: self.tiles@,
        }
    }
}

/// A tile set: its identifier, its texture and its atlas.
#[derive(Clone, Debug, PartialEq, Eq)]
pub struct TileSetResource {
    /// The identifier of the tile set, kept as the file gave it.
    pub uid: Vec<u8>,
    pub texture_resource: TextureResource,
    pub tile_set_atlas_source: TileSetAtlasSource,
}

pub struct TileSetResourceView {
    pub uid: Seq<u8>,
    pub texture_resource: TextureResourceView,
    pub tile_set_atlas_source: TileSetAtlasSourceView,
}

impl View for TileSetResource {
    type V = TileSetResourceView;

    open spec fn view(&self) -> TileSetResourceView {
        TileSetResourceView {
            uid: self.uid@,
            texture_resource: self.texture_resource@,
            tile_set_atlas_source: self.tile_set_atlas_source@,
        }
    }
}

pub open spec fn assign(path: Seq<u8>, value: ValueView) -> TagAssignView {
    TagAssignView { assign: path, value }
}

pub open spec fn field(identifier: Seq<u8>, value: ValueView) -> FieldView {
    FieldView { identifier, value }
}

/// The property line of an optional terrain: one line where there is a terrain, none
/// where there is none.
pub open spec fn optional_assign(path: Seq<u8>, terrain: Option<u32>) -> Seq<TagAssignView> {
    match terrain {
        Some(n) => seq![assign(path, ValueView::Integer(n as i64))],
        None => Seq::empty(),
    }
}

/// The key under which the properties of the tile at `position` stand.
pub open spec fn tile_path(position: Vector2i) -> Seq<u8> {
    int_text(position.x as int) + text(":") + int_text(position.y as int) + text("/0")
}

/// The property lines of a tile: the line that marks the cell as taken, then a line for
/// the terrain set, for the terrain and for each side that has a terrain, in this order.
pub open spec fn tile_assigns(tile: Tile) -> Seq<TagAssignView> {
    let path = tile_path(tile.position);
    let sides = tile.terrains_peering_bit;
    seq![assign(path, ValueView::Integer(0))] + optional_assign(
        path + text("/terrain_set"),
        tile.terrain_set,
    ) + optional_assign(path + text("/terrain"), tile.terrain) + optional_assign(
        path + text("/terrains_peering_bit/bottom_right_side"),
        sides.bottom_right_side,
    ) + optional_assign(path + text("/terrains_peering_bit/bottom_side"), sides.bottom_side)
        + optional_assign(
        path + text("/terrains_peering_bit/bottom_left_side"),
        sides.bottom_left_side,
    ) + optional_assign(path + text("/terrains_peering_bit/top_left_side"), sides.top_left_side)
        + optional_assign(path + text("/terrains_peering_bit/top_side"), sides.top_side)
        + optional_assign(
        path + text("/terrains_peering_bit/top_right_side"),
        sides.top_right_side,
    )
}

/// The property lines of all tiles, tile by tile.
pub open spec fn tiles_assigns(tiles: Seq<Tile>) -> Seq<TagAssignView>
    decreases tiles.len(),
{
    if tiles.len() == 0 {
        Seq::empty()
    } else {
        tiles_assigns(tiles.drop_last()) + tile_assigns(tiles.last())
    }
}

/// The key under which the properties of the terrain set at `set` stand.
pub open spec fn terrain_set_path(set: int) -> Seq<u8> {
    text("terrain_set_") + int_text(set)
}

/// The key under which the properties of the terrain at `terrain` of the set at `set`
/// stand.
pub open spec fn terrain_path(set: int, terrain: int) -> Seq<u8> {
    terrain_set_path(set) + text("/terrain_") + int_text(terrain)
}

/// The colour of every terrain: black, not transparent.
pub open spec fn terrain_color() -> ValueView {
    ValueView::Color(
        ColorView::Rgba(
            DoubleView::Finite(text("0")),
            DoubleView::Finite(text("0")),
            DoubleView::Finite(text("0")),
            DoubleView::Finite(text("1")),
        ),
    )
}

/// The name and the colour of the terrain at `terrain` of the set at `set`.
pub open spec fn terrain_assigns(set: int, terrain: int, name: Seq<u8>) -> Seq<TagAssignView> {
    seq![
        assign(terrain_path(set, terrain) + text("/name"), ValueView::String(name)),
        assign(terrain_path(set, terrain) + text("/color"), terrain_color()),
    ]
}

/// The names and colours of the first `count` terrains of the set at `set`.
pub open spec fn terrains_assigns(set: int, names: Seq<Seq<u8>>, count: int) -> Seq<
    TagAssignView,
>
    decreases count,
{
    if count <= 0 {
        Seq::empty()
    } else {
        terrains_assigns(set, names, count - 1) + terrain_assigns(set, count - 1, names[count - 1])
    }
}

/// The mode of the set at `set`, then its terrains.
pub open spec fn terrain_set_assigns(set: int, names: Seq<Seq<u8>>) -> Seq<TagAssignView> {
    seq![assign(terrain_set_path(set) + text("/mode"), ValueView::Integer(2))] + terrains_assigns(
        set,
        names,
        names.len() as int,
    )
}

/// The property lines of the first `count` terrain sets.
pub open spec fn terrain_sets_assigns(sets: Seq<Seq<Seq<u8>>>, count: int) -> Seq<TagAssignView>
    decreases count,
{
    if count <= 0 {
        Seq::empty()
    } else {
        terrain_sets_assigns(sets, count - 1) + terrain_set_assigns(count - 1, sets[count - 1])
    }
}

/// The header of a tile set file. The file holds three resources: the tile set itself,
/// its texture and its atlas.
pub open spec fn header_tag(resource: TileSetResourceView) -> TagView {
    TagView {
        name: text("gd_resource"),
        fields: seq![
            field(text("type"), ValueView::String(text("TileSet"))),
            field(text("load_steps"), ValueView::Integer(3)),
            field(text("format"), ValueView::Integer(FORMAT_VERSION)),
            field(text("uid"), ValueView::String(resource.uid)),
        ],
        assigns: Seq::empty(),
    }
}

/// The tag of the texture.
pub open spec fn texture_tag(texture: TextureResourceView) -> TagView {
    TagView {
        name: text("ext_resource"),
        fields: seq![
            field(text("type"), ValueView::String(text("Texture2D"))),
            field(text("uid"), ValueView::String(texture.uid)),
            field(text("path"), ValueView::String(texture.path)),
            field(text("id"), ValueView::String(texture.id)),
        ],
        assigns: Seq::empty(),
    }
}

/// The tag of the atlas: its texture, the size of a cell, then the tiles.
pub open spec fn atlas_tag(atlas: TileSetAtlasSourceView) -> TagView {
    TagView {
        name: text("sub_resource"),
        fields: seq![
            field(text("type"), ValueView::String(text("TileSetAtlasSource"))),
            field(text("id"), ValueView::String(atlas.id)),
        ],
        assigns: seq![
            assign(text("texture"), ValueView::ExtResource(atlas.texture)),
            assign(text("texture_region_size"), ValueView::Vector2i(atlas.texture_region_size)),
        ] + tiles_assigns(atlas.tiles),
    }
}

/// The tag of the tile set itself: hexagonal tiles, offset along the vertical axis, of
/// the size of a cell; then the terrain sets; last the atlas as first source.
pub open spec fn resource_tag(atlas: TileSetAtlasSourceView, sets: Seq<Seq<Seq<u8>>>) -> TagView {
    TagView {
        name: text("resource"),
        fields: Seq::empty(),
        assigns: seq![
            assign(text("tile_shape"), ValueView::Integer(3)),
            assign(text("tile_offset_axis"), ValueView::Integer(1)),
            assign(text("tile_size"), ValueView::Vector2i(atlas.texture_region_size)),
        ] + terrain_sets_assigns(sets, sets.len() as int) + seq![
            assign(text("sources/0"), ValueView::SubResource(atlas.id)),
        ],
    }
}

/// The file that says a tile set.
pub open spec fn resource_file(resource: TileSetResourceView, sets: Seq<Seq<Seq<u8>>>)
    -> GodotFileView {
    GodotFileView {
        header: header_tag(resource),
        tags: seq![
            texture_tag(resource.texture_resource),
            atlas_tag(resource.tile_set_atlas_source),
            resource_tag(resource.tile_set_atlas_source, sets),
        ],
    }
}

/// What has been read of the fields of a texture tag.
pub struct TextureScan {
    pub found_type: bool,
    pub uid: Seq<u8>,
    pub path: Seq<u8>,
    pub id: Seq<u8>,
}

/// The string that a field must hold.
pub open spec fn string_field(value: ValueView, tag: ResourceTag, name: FieldName) -> Result<
    Seq<u8>,
    SchemaError,
> {
    match value {
        ValueView::String(t) => Ok(t),
        _ => Err(SchemaError::NotAString { tag, field: name }),
    }
}

/// The fields of a texture tag from the one at `k` on, in their order. `type` must name
/// a texture; of `uid`, `path` and `id` the last one counts; there is no other field.
pub open spec fn scan_texture_fields(fields: Seq<FieldView>, k: int, scan: TextureScan) -> Result<
    TextureScan,
    SchemaError,
>
    decreases fields.len() - k,
{
    if k < 0 || k >= fields.len() {
        Ok(scan)
    } else {
        let name = fields[k].identifier;
        let value = fields[k].value;
        if name == text("type") {
            match string_field(value, ResourceTag::Texture, FieldName::Type) {
                Err(e) => Err(e),
                Ok(t) => if t == text("Texture2D") {
                    scan_texture_fields(fields, k + 1, TextureScan { found_type: true, ..scan })
                } else {
                    Err(SchemaError::WrongType { tag: ResourceTag::Texture })
                },
            }
        } else if name == text("uid") {
            match string_field(value, ResourceTag::Texture, FieldName::Uid) {
                Err(e) => Err(e),
                Ok(t) => scan_texture_fields(fields, k + 1, TextureScan { uid: t, ..scan }),
            }
        } else if name == text("path") {
            match string_field(value, ResourceTag::Texture, FieldName::Path) {
                Err(e) => Err(e),
                Ok(t) => scan_texture_fields(fields, k + 1, TextureScan { path: t, ..scan }),
            }
        } else if name == text("id") {
            match string_field(value, ResourceTag::Texture, FieldName::Id) {
                Err(e) => Err(e),
                Ok(t) => scan_texture_fields(fields, k + 1, TextureScan { id: t, ..scan }),
            }
        } else {
            Err(SchemaError::UnexpectedField { tag: ResourceTag::Texture, index: k as usize })
        }
    }
}

/// The texture that an `ext_resource` tag says: its type is named and is that of a
/// texture, and its `uid`, `path` and `id` are strings that are not empty.
pub open spec fn texture_of_tag(tag: TagView) -> Result<TextureResourceView, SchemaError> {
    let start = TextureScan {
        found_type: false,
        uid: Seq::empty(),
        path: Seq::empty(),
        id: Seq::empty(),
    };
    match scan_texture_fields(tag.fields, 0, start) {
        Err(e) => Err(e),
        Ok(scan) => if !scan.found_type {
            Err(SchemaError::WrongType { tag: ResourceTag::Texture })
        } else if scan.uid.len() == 0 {
            Err(SchemaError::MissingField { tag: ResourceTag::Texture, field: FieldName::Uid })
        } else if scan.path.len() == 0 {
            Err(SchemaError::MissingField { tag: ResourceTag::Texture, field: FieldName::Path })
        } else if scan.id.len() == 0 {
            Err(SchemaError::MissingField { tag: ResourceTag::Texture, field: FieldName::Id })
        } else {
            Ok(TextureResourceView { uid: scan.uid, path: scan.path, id: scan.id })
        },
    }
}

/// What has been read of the fields of an atlas tag.
pub struct AtlasScan {
    pub found_type: bool,
    pub id: Seq<u8>,
}

/// The fields of an atlas tag from the one at `k` on. `type` must name an atlas; of `id`
/// the last one counts; there is no other field.
pub open spec fn scan_atlas_fields(fields: Seq<FieldView>, k: int, scan: AtlasScan) -> Result<
    AtlasScan,
    SchemaError,
>
    decreases fields.len() - k,
{
    if k < 0 || k >= fields.len() {
        Ok(scan)
    } else {
        let name = fields[k].identifier;
        let value = fields[k].value;
        if name == text("type") {
            match string_field(value, ResourceTag::Atlas, FieldName::Type) {
                Err(e) => Err(e),
                Ok(t) => if t == text("TileSetAtlasSource") {
                    scan_atlas_fields(fields, k + 1, AtlasScan { found_type: true, ..scan })
                } else {
                    Err(SchemaError::WrongType { tag: ResourceTag::Atlas })
                },
            }
        } else if name == text("id") {
            match string_field(value, ResourceTag::Atlas, FieldName::Id) {
                Err(e) => Err(e),
                Ok(t) => scan_atlas_fields(fields, k + 1, AtlasScan { id: t, ..scan }),
            }
        } else {
            Err(SchemaError::UnexpectedField { tag: ResourceTag::Atlas, index: k as usize })
        }
    }
}

/// The texture that the property lines from the one at `k` on name: the last `texture`
/// counts, and each must be a reference to an external resource. Other lines are not read.
pub open spec fn scan_atlas_assigns(assigns: Seq<TagAssignView>, k: int, texture: Seq<u8>)
    -> Result<Seq<u8>, SchemaError>
    decreases assigns.len() - k,
{
    if k < 0 || k >= assigns.len() {
        Ok(texture)
    } else if assigns[k].assign == text("texture") {
        match assigns[k].value {
            ValueView::ExtResource(id) => scan_atlas_assigns(assigns, k + 1, id),
            _ => Err(SchemaError::NotAReference),
        }
    } else {
        scan_atlas_assigns(assigns, k + 1, texture)
    }
}

/// The atlas that a `sub_resource` tag says: its type is named and is that of an atlas,
/// its `id` is a string that is not empty, and its `texture` refers to an external
/// resource. The size of a cell and the tiles are not read: the atlas comes out with a
/// cell of no size and without tiles.
pub open spec fn atlas_of_tag(tag: TagView) -> Result<TileSetAtlasSourceView, SchemaError> {
    match scan_atlas_fields(tag.fields, 0, AtlasScan { found_type: false, id: Seq::empty() }) {
        Err(e) => Err(e),
        Ok(scan) => match scan_atlas_assigns(tag.assigns, 0, Seq::empty()) {
            Err(e) => Err(e),
            Ok(texture) => if !scan.found_type {
                Err(SchemaError::WrongType { tag: ResourceTag::Atlas })
            } else if scan.id.len() == 0 {
                Err(SchemaError::MissingField { tag: ResourceTag::Atlas, field: FieldName::Id })
            } else if texture.len() == 0 {
                Err(
                    SchemaError::MissingField {
                        tag: ResourceTag::Atlas,
                        field: FieldName::Texture,
                    },
                )
            } else {
                Ok(
                    TileSetAtlasSourceView {
                        id: scan.id,
                        texture,
                        texture_region_size: Vector2i { x: 0, y: 0 },
                        tiles: Seq::empty(),
                    },
                )
            },
        },
    }
}

/// What has been found among the tags of a file.
pub struct TagScan {
    pub texture: Option<TextureResourceView>,
    pub atlas: Option<TileSetAtlasSourceView>,
    pub seen_resource: bool,
}

/// The tags from the one at `k` on, in their order: one `ext_resource`, one
/// `sub_resource`, at most one `resource`, which is not read, and no other tag.
pub open spec fn scan_tags(tags: Seq<TagView>, k: int, scan: TagScan) -> Result<
    TagScan,
    SchemaError,
>
    decreases tags.len() - k,
{
    if k < 0 || k >= tags.len() {
        Ok(scan)
    } else {
        let tag = tags[k];
        if tag.name == text("ext_resource") {
            if scan.texture is Some {
                Err(SchemaError::Duplicate(ResourceTag::Texture))
            } else {
                match texture_of_tag(tag) {
                    Err(e) => Err(e),
                    Ok(texture) => scan_tags(
                        tags,
                        k + 1,
                        TagScan { texture: Some(texture), ..scan },
                    ),
                }
            }
        } else if tag.name == text("sub_resource") {
            if scan.atlas is Some {
                Err(SchemaError::Duplicate(ResourceTag::Atlas))
            } else {
                match atlas_of_tag(tag) {
                    Err(e) => Err(e),
                    Ok(atlas) => scan_tags(tags, k + 1, TagScan { atlas: Some(atlas), ..scan }),
                }
            }
        } else if tag.name == text("resource") {
            if scan.seen_resource {
                Err(SchemaError::DuplicateResource)
            } else {
                scan_tags(tags, k + 1, TagScan { seen_resource: true, ..scan })
            }
        } else {
            Err(SchemaError::UnexpectedTag { index: k as usize })
        }
    }
}

/// The identifier of a resource file: the first `uid` of its header, which must be a
/// string.
pub open spec fn header_uid(header: TagView) -> Result<Seq<u8>, SchemaError> {
    if header.name != text("gd_resource") {
        Err(SchemaError::NotAResource)
    } else {
        match first_field(header.fields, text("uid"), 0) {
            None => Err(SchemaError::MissingUid),
            Some(k) => match header.fields[k].value {
                ValueView::String(uid) => Ok(uid),
                _ => Err(SchemaError::MissingUid),
            },
        }
    }
}

/// The tile set that a file says.
pub open spec fn resource_of_file(file: GodotFileView) -> Result<
    TileSetResourceView,
    SchemaError,
> {
    match header_uid(file.header) {
        Err(e) => Err(e),
        Ok(uid) => match scan_tags(
            file.tags,
            0,
            TagScan { texture: None, atlas: None, seen_resource: false },
        ) {
            Err(e) => Err(e),
            Ok(scan) => match (scan.texture, scan.atlas) {
                (None, _) => Err(SchemaError::Missing(ResourceTag::Texture)),
                (Some(_), None) => Err(SchemaError::Missing(ResourceTag::Atlas)),
                (Some(texture), Some(atlas)) => Ok(
                    TileSetResourceView {
                        uid,
                        texture_resource: texture,
                        tile_set_atlas_source: atlas,
                    },
                ),
            },
        },
    }
}

/// The string that a field must hold.
fn string_of<'a>(value: &'a Value, tag: ResourceTag, name: FieldName) -> (r: Result<
    &'a Vec<u8>,
    SchemaError,
>)
    ensures
        match string_field(value@, tag, name) {
            Ok(t) => r matches Ok(v) && v@ == t,
            Err(e) => r == Err::<&Vec<u8>, SchemaError>(e),
        },
{
    match value {
        Value::String(t) => Ok(t),
        _ => Err(SchemaError::NotAString { tag, field: name }),
    }
}

impl TextureResource {
    /// Reads the texture from its tag.
    pub fn init_from_tag(tag: &Tag) -> (r: Result<TextureResource, SchemaError>)
        ensures
            match texture_of_tag(tag@) {
                Ok(texture) => r matches Ok(t) && t@ == texture,
                Err(e) => r == Err::<TextureResource, SchemaError>(e),
            },
    {
        let mut found_type = false;
        let mut uid: Vec<u8> = Vec::new();
        let mut path: Vec<u8> = Vec::new();
        let mut id: Vec<u8> = Vec::new();
        let ghost fields = tag@.fields;
        let ghost goal = scan_texture_fields(
            fields,
            0,
            TextureScan { found_type, uid: uid@, path: path@, id: id@ },
        );
        proof {
            lemma_deep_view_prefix(tag.fields, 0);
        }
        let mut k: usize = 0;
        while k < tag.fields.len()
            invariant
                k <= tag.fields.len(),
                fields == tag@.fields,
                fields.len() == tag.fields@.len(),
                forall|i: int|
                    0 <= i < tag.fields@.len() ==> fields[i] == #[trigger] tag.fields@[i]@,
                scan_texture_fields(
                    fields,
                    k as int,
                    TextureScan { found_type, uid: uid@, path: path@, id: id@ },
                ) == goal,
                match goal {
                    Ok(_) => true,
                    Err(e) => texture_of_tag(tag@) == Err::<TextureResourceView, SchemaError>(e),
                },
            decreases tag.fields.len() - k,
        {
            let field = &tag.fields[k];
            assert(fields[k as int] == field@);
            let name = field.identifier.as_slice();
            if is_text(name, "type") {
                match string_of(&field.value, ResourceTag::Texture, FieldName::Type) {
                    Err(e) => {
                        return Err(e);
                    },
                    Ok(t) => {
                        if !is_text(t.as_slice(), "Texture2D") {
                            return Err(SchemaError::WrongType { tag: ResourceTag::Texture });
                        }
                        found_type = true;
                    },
                }
            } else if is_text(name, "uid") {
                match string_of(&field.value, ResourceTag::Texture, FieldName::Uid) {
                    Err(e) => {
                        return Err(e);
                    },
                    Ok(t) => {
                        uid = copy_bytes(t.as_slice());
                    },
                }
            } else if is_text(name, "path") {
                match string_of(&field.value, ResourceTag::Texture, FieldName::Path) {
                    Err(e) => {
                        return Err(e);
                    },
                    Ok(t) => {
                        path = copy_bytes(t.as_slice());
                    },
                }
            } else if is_text(name, "id") {
                match string_of(&field.value, ResourceTag::Texture, FieldName::Id) {
                    Err(e) => {
                        return Err(e);
                    },
                    Ok(t) => {
                        id = copy_bytes(t.as_slice());
                    },
                }
            } else {
                return Err(SchemaError::UnexpectedField { tag: ResourceTag::Texture, index: k });
            }
            k = k + 1;
        }
        if !found_type {
            return Err(SchemaError::WrongType { tag: ResourceTag::Texture });
        }
        if uid.len() == 0 {
            return Err(
                SchemaError::MissingField { tag: ResourceTag::Texture, field: FieldName::Uid },
            );
        }
        if path.len() == 0 {
            return Err(
                SchemaError::MissingField { tag: ResourceTag::Texture, field: FieldName::Path },
            );
        }
        if id.len() == 0 {
            return Err(
                SchemaError::MissingField { tag: ResourceTag::Texture, field: FieldName::Id },
            );
        }
        Ok(TextureResource { uid, path, id })
    }
}

impl TileSetAtlasSource {
    /// Reads the atlas from its tag.
    pub fn init_from_tag(tag: &Tag) -> (r: Result<TileSetAtlasSource, SchemaError>)
        ensures
            match atlas_of_tag(tag@) {
                Ok(atlas) => r matches Ok(a) && a@ == atlas,
                Err(e) => r == Err::<TileSetAtlasSource, SchemaError>(e),
            },
    {
        let mut found_type = false;
        let mut id: Vec<u8> = Vec::new();
        let ghost fields = tag@.fields;
        let ghost goal = scan_atlas_fields(fields, 0, AtlasScan { found_type, id: id@ });
        proof {
            lemma_deep_view_prefix(tag.fields, 0);
        }
        let mut k: usize = 0;
        while k < tag.fields.len()
            invariant
                k <= tag.fields.len(),
                fields == tag@.fields,
                fields.len() == tag.fields@.len(),
                forall|i: int|
                    0 <= i < tag.fields@.len() ==> fields[i] == #[trigger] tag.fields@[i]@,
                scan_atlas_fields(fields, k as int, AtlasScan { found_type, id: id@ }) == goal,
                match goal {
                    Ok(_) => true,
                    Err(e) => atlas_of_tag(tag@) == Err::<TileSetAtlasSourceView, SchemaError>(e),
                },
            decreases tag.fields.len() - k,
        {
            let field = &tag.fields[k];
            assert(fields[k as int] == field@);
            let name = field.identifier.as_slice();
            if is_text(name, "type") {
                match string_of(&field.value, ResourceTag::Atlas, FieldName::Type) {
                    Err(e) => {
                        return Err(e);
                    },
                    Ok(t) => {
                        if !is_text(t.as_slice(), "TileSetAtlasSource") {
                            return Err(SchemaError::WrongType { tag: ResourceTag::Atlas });
                        }
                        found_type = true;
                    },
                }
            } else if is_text(name, "id") {
                match string_of(&field.value, ResourceTag::Atlas, FieldName::Id) {
                    Err(e) => {
                        return Err(e);
                    },
                    Ok(t) => {
                        id = copy_bytes(t.as_slice());
                    },
                }
            } else {
                return Err(SchemaError::UnexpectedField { tag: ResourceTag::Atlas, index: k });
            }
            k = k + 1;
        }
        let mut texture: Vec<u8> = Vec::new();
        let ghost assigns = tag@.assigns;
        let ghost named = scan_atlas_assigns(assigns, 0, texture@);
        proof {
            lemma_deep_view_prefix(tag.assigns, 0);
        }
        let mut j: usize = 0;
        while j < tag.assigns.len()
            invariant
                j <= tag.assigns.len(),
                assigns == tag@.assigns,
                assigns.len() == tag.assigns@.len(),
                forall|i: int|
                    0 <= i < tag.assigns@.len() ==> assigns[i] == #[trigger] tag.assigns@[i]@,
                scan_atlas_assigns(assigns, j as int, texture@) == named,
                goal == Ok::<AtlasScan, SchemaError>(AtlasScan { found_type, id: id@ }),
                goal == scan_atlas_fields(
                    tag@.fields,
                    0,
                    AtlasScan { found_type: false, id: Seq::empty() },
                ),
                named == scan_atlas_assigns(assigns, 0, Seq::empty()),
            decreases tag.assigns.len() - j,
        {
            let line = &tag.assigns[j];
            assert(assigns[j as int] == line@);
            if is_text(line.assign.as_slice(), "texture") {
                match &line.value {
                    Value::ExtResource(reference) => {
                        texture = copy_bytes(reference.as_slice());
                    },
                    _ => {
                        return Err(SchemaError::NotAReference);
                    },
                }
            }
            j = j + 1;
        }
        if !found_type {
            return Err(SchemaError::WrongType { tag: ResourceTag::Atlas });
        }
        if id.len() == 0 {
            return Err(SchemaError::MissingField { tag: ResourceTag::Atlas, field: FieldName::Id });
        }
        if texture.len() == 0 {
            return Err(
                SchemaError::MissingField { tag: ResourceTag::Atlas, field: FieldName::Texture },
            );
        }
        Ok(
            TileSetAtlasSource {
                id,
                texture,
                texture_region_size: Vector2i { x: 0, y: 0 },
                tiles: Vec::new(),
            },
        )
    }
}

/// The view of a texture that may be missing.
pub open spec fn texture_view(texture: Option<TextureResource>) -> Option<TextureResourceView> {
    match texture {
        Some(t) => Some(t@),
        None => None,
    }
}

/// The view of an atlas that may be missing.
pub open spec fn atlas_view(atlas: Option<TileSetAtlasSource>) -> Option<
    TileSetAtlasSourceView,
> {
    match atlas {
        Some(a) => Some(a@),
        None => None,
    }
}

impl TileSetResource {
    /// Reads the tile set that a file says.
    ///
    /// The header must be that of a resource file and hold a `uid` string. Among the
    /// tags there must be exactly one texture and exactly one atlas, in any order;
    /// beside them one `resource` tag may stand, which is not read. The atlas comes out
    /// without tiles and with a cell of no size.
    pub fn init_from_file(file: GodotFile) -> (r: Result<TileSetResource, SchemaError>)
        ensures
            match resource_of_file(file@) {
                Ok(resource) => r matches Ok(t) && t@ == resource,
                Err(e) => r == Err::<TileSetResource, SchemaError>(e),
            },
    {
        if !is_text(file.header.name.as_slice(), "gd_resource") {
            return Err(SchemaError::NotAResource);
        }
        proof {
            lemma_deep_view_prefix(file.header.fields, 0);
        }
        let uid = match find_field(&file.header.fields, "uid") {
            None => {
                return Err(SchemaError::MissingUid);
            },
            Some(k) => {
                let value = &file.header.fields[k].value;
                assert(value@ == file@.header.fields[k as int].value);
                match value {
                    Value::String(uid) => copy_bytes(uid.as_slice()),
                    _ => {
                        return Err(SchemaError::MissingUid);
                    },
                }
            },
        };
        let mut texture: Option<TextureResource> = None;
        let mut atlas: Option<TileSetAtlasSource> = None;
        let mut seen_resource = false;
        let ghost tags = file@.tags;
        let ghost goal = scan_tags(
            tags,
            0,
            TagScan { texture: None, atlas: None, seen_resource: false },
        );
        proof {
            lemma_deep_view_prefix(file.tags, 0);
        }
        let mut k: usize = 0;
        while k < file.tags.len()
            invariant
                k <= file.tags.len(),
                tags == file@.tags,
                tags.len() == file.tags@.len(),
                forall|i: int| 0 <= i < file.tags@.len() ==> tags[i] == #[trigger] file.tags@[i]@,
                scan_tags(
                    tags,
                    k as int,
                    TagScan {
                        texture: texture_view(texture),
                        atlas: atlas_view(atlas),
                        seen_resource,
                    },
                ) == goal,
                header_uid(file@.header) == Ok::<Seq<u8>, SchemaError>(uid@),
                goal == scan_tags(
                    file@.tags,
                    0,
                    TagScan { texture: None, atlas: None, seen_resource: false },
                ),
            decreases file.tags.len() - k,
        {
            let tag = &file.tags[k];
            assert(tags[k as int] == tag@);
            let name = tag.name.as_slice();
            if is_text(name, "ext_resource") {
                if texture.is_some() {
                    return Err(SchemaError::Duplicate(ResourceTag::Texture));
                }
                match TextureResource::init_from_tag(tag) {
                    Err(e) => {
                        return Err(e);
                    },
                    Ok(t) => {
                        texture = Some(t);
                    },
                }
            } else if is_text(name, "sub_resource") {
                if atlas.is_some() {
                    return Err(SchemaError::Duplicate(ResourceTag::Atlas));
                }
                match TileSetAtlasSource::init_from_tag(tag) {
                    Err(e) => {
                        return Err(e);
                    },
                    Ok(a) => {
                        atlas = Some(a);
                    },
                }
            } else if is_text(name, "resource") {
                if seen_resource {
                    return Err(SchemaError::DuplicateResource);
                }
                seen_resource = true;
            } else {
                return Err(SchemaError::UnexpectedTag { index: k });
            }
            k = k + 1;
        }
        let texture_resource = match texture {
            None => {
                return Err(SchemaError::Missing(ResourceTag::Texture));
            },
            Some(t) => t,
        };
        let tile_set_atlas_source = match atlas {
            None => {
                return Err(SchemaError::Missing(ResourceTag::Atlas));
            },
            Some(a) => a,
        };
        Ok(TileSetResource { uid, texture_resource, tile_set_atlas_source })
    }
}

/// A field that holds a string.
fn text_field(identifier: &str, value: Vec<u8>) -> (r: Field)
    ensures
        r@ == field(text(identifier), ValueView::String(value@)),
{
    Field { identifier: bytes_of(identifier), value: Value::String(value) }
}

/// A field that holds an integer.
fn integer_field(identifier: &str, n: i64) -> (r: Field)
    ensures
        r@ == field(text(identifier), ValueView::Integer(n)),
{
    Field { identifier: bytes_of(identifier), value: Value::Integer(n) }
}

/// Appends the property line `path = value`.
fn push_assign(assigns: &mut Vec<TagAssign>, path: Vec<u8>, value: Value)
    ensures
        final(assigns).deep_view() == old(assigns).deep_view().push(assign(path@, value@)),
{
    let line = TagAssign { assign: path, value };
    let ghost before = *assigns;
    assigns.push(line);
    proof {
        lemma_deep_view_push(before, *assigns, line);
    }
}

/// Appends the property line `name = value`.
fn push_named(assigns: &mut Vec<TagAssign>, name: &str, value: Value)
    ensures
        final(assigns).deep_view() == old(assigns).deep_view().push(assign(text(name), value@)),
{
    push_assign(assigns, bytes_of(name), value);
}

/// Appends the property line of an optional terrain under `path` and `suffix`.
fn push_optional(assigns: &mut Vec<TagAssign>, path: &Vec<u8>, suffix: &str, terrain: Option<u32>)
    ensures
        final(assigns).deep_view() == old(assigns).deep_view() + optional_assign(
            path@ + text(suffix),
            terrain,
        ),
{
    match terrain {
        Some(n) => {
            let mut key = copy_bytes(path.as_slice());
            push_str(&mut key, suffix);
            push_assign(assigns, key, Value::Integer(n as i64));
            assert(final(assigns).deep_view() =~= old(assigns).deep_view() + optional_assign(
                path@ + text(suffix),
                terrain,
            ));
        },
        None => {
            assert(final(assigns).deep_view() =~= old(assigns).deep_view() + optional_assign(
                path@ + text(suffix),
                terrain,
            ));
        },
    }
}

impl Tile {
    /// Appends the property lines of the tile: the line that marks its cell as taken,
    /// then one line for each terrain that the tile has. What the tile does not have gets
    /// no line.
    pub fn append_assigns(&self, assigns: &mut Vec<TagAssign>)
        ensures
            final(assigns).deep_view() == old(assigns).deep_view() + tile_assigns(*self),
    {
        let mut path: Vec<u8> = Vec::new();
        fmt_integer(self.position.x, &mut path);
        push_str(&mut path, ":");
        fmt_integer(self.position.y, &mut path);
        push_str(&mut path, "/0");
        assert(path@ =~= tile_path(self.position));
        let sides = &self.terrains_peering_bit;
        push_assign(assigns, copy_bytes(path.as_slice()), Value::Integer(0));
        push_optional(assigns, &path, "/terrain_set", self.terrain_set);
        push_optional(assigns, &path, "/terrain", self.terrain);
        push_optional(
            assigns,
            &path,
            "/terrains_peering_bit/bottom_right_side",
            sides.bottom_right_side,
        );
        push_optional(assigns, &path, "/terrains_peering_bit/bottom_side", sides.bottom_side);
        push_optional(
            assigns,
            &path,
            "/terrains_peering_bit/bottom_left_side",
            sides.bottom_left_side,
        );
        push_optional(assigns, &path, "/terrains_peering_bit/top_left_side", sides.top_left_side);
        push_optional(assigns, &path, "/terrains_peering_bit/top_side", sides.top_side);
        push_optional(assigns, &path, "/terrains_peering_bit/top_right_side", sides.top_right_side);
        assert(final(assigns).deep_view() =~= old(assigns).deep_view() + tile_assigns(*self));
    }
}

/// The key of the terrain set at `set`.
fn terrain_set_key(set: usize) -> (r: Vec<u8>)
    ensures
        r@ == terrain_set_path(set as int),
{
    let mut key = bytes_of("terrain_set_");
    fmt_unsigned(set as u64, &mut key);
    key
}

/// The key of the terrain at `terrain` of the set at `set`, with `suffix` behind it.
fn terrain_key(set: usize, terrain: usize, suffix: &str) -> (r: Vec<u8>)
    ensures
        r@ == terrain_path(set as int, terrain as int) + text(suffix),
{
    let mut key = terrain_set_key(set);
    push_str(&mut key, "/terrain_");
    fmt_unsigned(terrain as u64, &mut key);
    push_str(&mut key, suffix);
    assert(key@ =~= terrain_path(set as int, terrain as int) + text(suffix));
    key
}

/// The colour that every terrain gets.
fn black() -> (r: Value)
    ensures
        r@ == terrain_color(),
{
    Value::Color(
        Color::Rgba(
            Double::Finite(bytes_of("0")),
            Double::Finite(bytes_of("0")),
            Double::Finite(bytes_of("0")),
            Double::Finite(bytes_of("1")),
        ),
    )
}

/// Appends the property lines of the terrain set at `set`.
fn push_terrain_set(assigns: &mut Vec<TagAssign>, set: usize, terrain_set: &TerrainSetConfig)
    ensures
        final(assigns).deep_view() == old(assigns).deep_view() + terrain_set_assigns(
            set as int,
            terrain_set@,
        ),
{
    let ghost names = terrain_set@;
    let ghost before = assigns.deep_view();
    let mut mode = terrain_set_key(set);
    push_str(&mut mode, "/mode");
    push_assign(assigns, mode, Value::Integer(2));
    let ghost first = assigns.deep_view();
    proof {
        lemma_deep_view_prefix(terrain_set.terrains, 0);
    }
    let mut j: usize = 0;
    while j < terrain_set.terrains.len()
        invariant
            j <= terrain_set.terrains.len(),
            names == terrain_set@,
            names.len() == terrain_set.terrains@.len(),
            forall|i: int|
                0 <= i < terrain_set.terrains@.len() ==> names[i]
                    == #[trigger] terrain_set.terrains@[i]@,
            assigns.deep_view() == first + terrains_assigns(set as int, names, j as int),
        decreases terrain_set.terrains.len() - j,
    {
        let terrain = &terrain_set.terrains[j];
        assert(names[j as int] == terrain@);
        let ghost so_far = assigns.deep_view();
        push_assign(
            assigns,
            terrain_key(set, j, "/name"),
            Value::String(copy_bytes(terrain.name.as_slice())),
        );
        push_assign(assigns, terrain_key(set, j, "/color"), black());
        assert(assigns.deep_view() =~= so_far + terrain_assigns(
            set as int,
            j as int,
            names[j as int],
        ));
        assert(assigns.deep_view() =~= first + terrains_assigns(set as int, names, j + 1));
        j = j + 1;
    }
    assert(assigns.deep_view() =~= before + terrain_set_assigns(set as int, names));
}

impl TileSetResource {
    /// The file that says this tile set with the terrains of `terrain_sets`.
    pub fn to_file(&self, terrain_sets: &Vec<TerrainSetConfig>) -> (file: GodotFile)
        ensures
            file@ == resource_file(self@, terrain_sets.deep_view()),
    {
        let ghost sets = terrain_sets.deep_view();
        let atlas = &self.tile_set_atlas_source;
        let texture = &self.texture_resource;

        let mut header_fields: Vec<Field> = Vec::new();
        header_fields.push(text_field("type", bytes_of("TileSet")));
        header_fields.push(integer_field("load_steps", 3));
        header_fields.push(integer_field("format", FORMAT_VERSION));
        header_fields.push(text_field("uid", copy_bytes(self.uid.as_slice())));
        let header = Tag {
            name: bytes_of("gd_resource"),
            fields: header_fields,
            assigns: Vec::new(),
        };
        assert(header@.fields =~= header_tag(self@).fields);
        assert(header@.assigns =~= header_tag(self@).assigns);

        let mut image_fields: Vec<Field> = Vec::new();
        image_fields.push(text_field("type", bytes_of("Texture2D")));
        image_fields.push(text_field("uid", copy_bytes(texture.uid.as_slice())));
        image_fields.push(text_field("path", copy_bytes(texture.path.as_slice())));
        image_fields.push(text_field("id", copy_bytes(texture.id.as_slice())));
        let image_tag = Tag {
            name: bytes_of("ext_resource"),
            fields: image_fields,
            assigns: Vec::new(),
        };
        assert(image_tag@.fields =~= texture_tag(texture@).fields);
        assert(image_tag@.assigns =~= texture_tag(texture@).assigns);

        let mut atlas_fields: Vec<Field> = Vec::new();
        atlas_fields.push(text_field("type", bytes_of("TileSetAtlasSource")));
        atlas_fields.push(text_field("id", copy_bytes(atlas.id.as_slice())));
        let mut atlas_assigns: Vec<TagAssign> = Vec::new();
        push_named(
            &mut atlas_assigns,
            "texture",
            Value::ExtResource(copy_bytes(atlas.texture.as_slice())),
        );
        push_named(
            &mut atlas_assigns,
            "texture_region_size",
            Value::Vector2i(atlas.texture_region_size),
        );
        let ghost atlas_first = atlas_assigns.deep_view();
        assert(atlas_first =~= seq![
            assign(text("texture"), ValueView::ExtResource(atlas@.texture)),
            assign(text("texture_region_size"), ValueView::Vector2i(atlas@.texture_region_size)),
        ]);
        let mut i: usize = 0;
        while i < atlas.tiles.len()
            invariant
                i <= atlas.tiles.len(),
                atlas_assigns.deep_view() == atlas_first + tiles_assigns(
                    atlas.tiles@.take(i as int),
                ),
            decreases atlas.tiles.len() - i,
        {
            atlas.tiles[i].append_assigns(&mut atlas_assigns);
            proof {
                assert(atlas.tiles@.take(i + 1).drop_last() =~= atlas.tiles@.take(i as int));
                assert(atlas_assigns.deep_view() =~= atlas_first + tiles_assigns(
                    atlas.tiles@.take(i + 1),
                ));
            }
            i = i + 1;
        }
        assert(atlas.tiles@.take(i as int) =~= atlas.tiles@);
        let atlas_tag = Tag {
            name: bytes_of("sub_resource"),
            fields: atlas_fields,
            assigns: atlas_assigns,
        };
        assert(atlas_tag@.fields =~= crate::resource::atlas_tag(atlas@).fields);

        let mut resource_assigns: Vec<TagAssign> = Vec::new();
        push_named(&mut resource_assigns, "tile_shape", Value::Integer(3));
        push_named(&mut resource_assigns, "tile_offset_axis", Value::Integer(1));
        push_named(&mut resource_assigns, "tile_size", Value::Vector2i(atlas.texture_region_size));
        let ghost resource_first = resource_assigns.deep_view();
        assert(resource_first =~= seq![
            assign(text("tile_shape"), ValueView::Integer(3)),
            assign(text("tile_offset_axis"), ValueView::Integer(1)),
            assign(text("tile_size"), ValueView::Vector2i(atlas@.texture_region_size)),
        ]);
        proof {
            lemma_deep_view_prefix(*terrain_sets, 0);
        }
        let mut set: usize = 0;
        while set < terrain_sets.len()
            invariant
                set <= terrain_sets.len(),
                sets == terrain_sets.deep_view(),
                sets.len() == terrain_sets@.len(),
                forall|k: int|
                    0 <= k < terrain_sets@.len() ==> sets[k] == #[trigger] terrain_sets@[k]@,
                resource_assigns.deep_view() == resource_first + terrain_sets_assigns(
                    sets,
                    set as int,
                ),
            decreases terrain_sets.len() - set,
        {
            let terrain_set = &terrain_sets[set];
            assert(sets[set as int] == terrain_set@);
            push_terrain_set(&mut resource_assigns, set, terrain_set);
            assert(resource_assigns.deep_view() =~= resource_first + terrain_sets_assigns(
                sets,
                set + 1,
            ));
            set = set + 1;
        }
        push_named(
            &mut resource_assigns,
            "sources/0",
            Value::SubResource(copy_bytes(atlas.id.as_slice())),
        );
        let resource_tag = Tag {
            name: bytes_of("resource"),
            fields: Vec::new(),
            assigns: resource_assigns,
        };
        assert(resource_tag@.fields =~= crate::resource::resource_tag(atlas@, sets).fields);
        assert(resource_tag@.assigns =~= crate::resource::resource_tag(atlas@, sets).assigns);

        let mut tags: Vec<Tag> = Vec::new();
        tags.push(image_tag);
        tags.push(atlas_tag);
        tags.push(resource_tag);
        let file = GodotFile { header, tags };
        assert(file@.tags =~= resource_file(self@, sets).tags);
        file
    }

    /// The text of the file that says this tile set with the terrains of `terrain_sets`.
    pub fn print(&self, terrain_sets: &Vec<TerrainSetConfig>) -> (out: Vec<u8>)
        ensures
            out@ == crate::writer::render_file(resource_file(self@, terrain_sets.deep_view())),
    {
        self.to_file(terrain_sets).to_bytes()
    }
}

} // verus!
