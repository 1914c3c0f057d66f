//! What holds of the file that is written for a tile set: it is well formed, and the
//! tile set is read from it again.

use vstd::prelude::*;
use crate::ascii::{is_digit, is_identifier_byte, MINUS};
use crate::bytes::text;
use crate::document::{FieldView, TagAssignView};
use crate::double::lemma_zero_literal;
use crate::roundtrip::tokens::is_identifier;
use crate::number::{digits_text, int_text, lemma_digits_text};
use crate::parser::{first_field, format_supported};
use crate::roundtrip::files::{
    is_assign_path, is_path_byte, is_tag_name, read_back_assigns, read_back_fields, read_back_tags,
};
use crate::resource::{
    assign, atlas_of_tag, atlas_tag, field, header_tag, header_uid, optional_assign, resource_file,
    resource_of_file, resource_tag, scan_atlas_assigns, scan_atlas_fields, scan_tags,
    scan_texture_fields, terrain_assigns, terrain_color, terrain_path, terrain_set_assigns,
    terrain_set_path, terrain_sets_assigns, terrains_assigns, texture_of_tag, texture_tag,
    tile_assigns, tile_path, tiles_assigns, AtlasScan, TagScan, TextureResourceView, TextureScan,
    Tile, TileSetAtlasSourceView, TileSetResourceView,
};
use crate::value::{is_quotable, ValueView, Vector2i};

verus! {

/// Text of which every byte can stand in a path as it is.
pub open spec fn is_path_text(t: Seq<u8>) -> bool {
    forall|k: int| 0 <= k < t.len() ==> is_path_byte(#[trigger] t[k])
}

/// Two texts for a path make a text for a path.
pub proof fn lemma_path_text_joined(a: Seq<u8>, b: Seq<u8>)
    requires
        is_path_text(a),
        is_path_text(b),
    ensures
        is_path_text(a + b),
{
    assert forall|k: int| 0 <= k < (a + b).len() implies is_path_byte(#[trigger] (a + b)[k]) by {
        if k < a.len() {
            assert((a + b)[k] == a[k]);
        } else {
            assert((a + b)[k] == b[k - a.len()]);
        }
    }
}

/// The text of an integer can stand in a path, and begins with a digit or a minus sign.
pub proof fn lemma_int_text_in_path(n: int)
    ensures
        is_path_text(int_text(n)),
        int_text(n).len() >= 1,
        is_digit(int_text(n)[0]) || int_text(n)[0] == MINUS,
{
    if n < 0 {
        lemma_digits_text((-n) as nat);
        let d = digits_text((-n) as nat);
        assert forall|k: int| 0 <= k < int_text(n).len() implies is_path_byte(
            #[trigger] int_text(n)[k],
        ) by {
            if k > 0 {
                assert(int_text(n)[k] == d[k - 1]);
                assert(is_digit(d[k - 1]));
            }
        }
    } else {
        lemma_digits_text(n as nat);
        let d = digits_text(n as nat);
        assert forall|k: int| 0 <= k < d.len() implies is_path_byte(#[trigger] d[k]) by {
            assert(is_digit(d[k]));
        }
    }
}

/// An identifier is a name of a tag and a path.
pub proof fn lemma_identifier_is_name_and_path(w: Seq<u8>)
    requires
        is_identifier(w),
    ensures
        is_tag_name(w),
        is_assign_path(w),
        is_path_text(w),
{
    assert forall|k: int| 0 <= k < w.len() implies is_path_byte(#[trigger] w[k]) by {
        assert(is_identifier_byte(w[k]));
    }
}

/// The names of the tags and of the fields of a tile set file are identifiers, and
/// which of them differ.
pub proof fn lemma_file_words()
    ensures
        is_identifier(text("gd_resource")),
        is_identifier(text("ext_resource")),
        is_identifier(text("sub_resource")),
        is_identifier(text("resource")),
        is_identifier(text("type")),
        is_identifier(text("load_steps")),
        is_identifier(text("format")),
        is_identifier(text("uid")),
        is_identifier(text("path")),
        is_identifier(text("id")),
        text("ext_resource") != text("sub_resource"),
        text("ext_resource") != text("resource"),
        text("sub_resource") != text("resource"),
        text("type") != text("format"),
        text("load_steps") != text("format"),
        text("type") != text("uid"),
        text("load_steps") != text("uid"),
        text("format") != text("uid"),
        text("type") != text("path"),
        text("uid") != text("path"),
        text("type") != text("id"),
        text("uid") != text("id"),
        text("path") != text("id"),
{
    broadcast use vstd::string::is_ascii_spec_bytes;

    reveal_strlit("gd_resource");
    reveal_strlit("ext_resource");
    reveal_strlit("sub_resource");
    reveal_strlit("resource");
    reveal_strlit("type");
    reveal_strlit("load_steps");
    reveal_strlit("format");
    reveal_strlit("uid");
    reveal_strlit("path");
    reveal_strlit("id");
    assert(vstd::string::is_ascii("gd_resource"));
    assert(vstd::string::is_ascii("ext_resource"));
    assert(vstd::string::is_ascii("sub_resource"));
    assert(vstd::string::is_ascii("resource"));
    assert(vstd::string::is_ascii("type"));
    assert(vstd::string::is_ascii("load_steps"));
    assert(vstd::string::is_ascii("format"));
    assert(vstd::string::is_ascii("uid"));
    assert(vstd::string::is_ascii("path"));
    assert(vstd::string::is_ascii("id"));
    assert(text("gd_resource") =~= seq![103u8, 100, 95, 114, 101, 115, 111, 117, 114, 99, 101]);
    assert(text("ext_resource") =~= seq![
        101u8,
        120,
        116,
        95,
        114,
        101,
        115,
        111,
        117,
        114,
        99,
        101,
    ]);
    assert(text("sub_resource") =~= seq![
        115u8,
        117,
        98,
        95,
        114,
        101,
        115,
        111,
        117,
        114,
        99,
        101,
    ]);
    assert(text("resource") =~= seq![114u8, 101, 115, 111, 117, 114, 99, 101]);
    assert(text("type") =~= seq![116u8, 121, 112, 101]);
    assert(text("load_steps") =~= seq![108u8, 111, 97, 100, 95, 115, 116, 101, 112, 115]);
    assert(text("format") =~= seq![102u8, 111, 114, 109, 97, 116]);
    assert(text("uid") =~= seq![117u8, 105, 100]);
    assert(text("path") =~= seq![112u8, 97, 116, 104]);
    assert(text("id") =~= seq![105u8, 100]);
    assert(text("ext_resource")[0] != text("sub_resource")[0]);
    assert(text("type")[0] != text("path")[0]);
}

/// The words of which the paths of a tile set file are made can stand in a path.
pub proof fn lemma_path_words()
    ensures
        is_path_text(text("texture")),
        is_path_text(text("texture_region_size")),
        is_path_text(text("tile_shape")),
        is_path_text(text("tile_offset_axis")),
        is_path_text(text("tile_size")),
        is_path_text(text("sources/0")),
        is_path_text(text(":")),
        is_path_text(text("/0")),
        is_path_text(text("/terrain_set")),
        is_path_text(text("/terrain")),
        is_path_text(text("/terrains_peering_bit/bottom_right_side")),
        is_path_text(text("/terrains_peering_bit/bottom_side")),
        is_path_text(text("/terrains_peering_bit/bottom_left_side")),
        is_path_text(text("/terrains_peering_bit/top_left_side")),
        is_path_text(text("/terrains_peering_bit/top_side")),
        is_path_text(text("/terrains_peering_bit/top_right_side")),
        is_path_text(text("terrain_set_")),
        is_path_text(text("/mode")),
        is_path_text(text("/terrain_")),
        is_path_text(text("/name")),
        is_path_text(text("/color")),
        text("texture").len() == 7,
        text("texture_region_size").len() == 19,
        text("texture")[0] == 116,
        text("texture_region_size")[0] == 116,
        text("tile_shape")[0] == 116,
        text("tile_offset_axis")[0] == 116,
        text("tile_size")[0] == 116,
        text("sources/0")[0] == 115,
        text("terrain_set_")[0] == 116,
        text("terrain_set_").len() == 12,
{
    broadcast use vstd::string::is_ascii_spec_bytes;

    reveal_strlit("texture");
    assert(vstd::string::is_ascii("texture"));
    assert(text("texture").len() == 7);
    assert(is_path_text(text("texture")));
    reveal_strlit("texture_region_size");
    assert(vstd::string::is_ascii("texture_region_size"));
    assert(text("texture_region_size").len() == 19);
    assert(is_path_text(text("texture_region_size")));
    reveal_strlit("tile_shape");
    assert(vstd::string::is_ascii("tile_shape"));
    assert(text("tile_shape").len() == 10);
    assert(is_path_text(text("tile_shape")));
    reveal_strlit("tile_offset_axis");
    assert(vstd::string::is_ascii("tile_offset_axis"));
    assert(text("tile_offset_axis").len() == 16);
    assert(is_path_text(text("tile_offset_axis")));
    reveal_strlit("tile_size");
    assert(vstd::string::is_ascii("tile_size"));
    assert(text("tile_size").len() == 9);
    assert(is_path_text(text("tile_size")));
    reveal_strlit("sources/0");
    assert(vstd::string::is_ascii("sources/0"));
    assert(text("sources/0").len() == 9);
    assert(is_path_text(text("sources/0")));
    reveal_strlit(":");
    assert(vstd::string::is_ascii(":"));
    assert(text(":").len() == 1);
    assert(is_path_text(text(":")));
    reveal_strlit("/0");
    assert(vstd::string::is_ascii("/0"));
    assert(text("/0").len() == 2);
    assert(is_path_text(text("/0")));
    reveal_strlit("/terrain_set");
    assert(vstd::string::is_ascii("/terrain_set"));
    assert(text("/terrain_set").len() == 12);
    assert(is_path_text(text("/terrain_set")));
    reveal_strlit("/terrain");
    assert(vstd::string::is_ascii("/terrain"));
    assert(text("/terrain").len() == 8);
    assert(is_path_text(text("/terrain")));
    reveal_strlit("/terrains_peering_bit/bottom_right_side");
    assert(vstd::string::is_ascii("/terrains_peering_bit/bottom_right_side"));
    assert(text("/terrains_peering_bit/bottom_right_side").len() == 39);
    assert(is_path_text(text("/terrains_peering_bit/bottom_right_side")));
    reveal_strlit("/terrains_peering_bit/bottom_side");
    assert(vstd::string::is_ascii("/terrains_peering_bit/bottom_side"));
    assert(text("/terrains_peering_bit/bottom_side").len() == 33);
    assert(is_path_text(text("/terrains_peering_bit/bottom_side")));
    reveal_strlit("/terrains_peering_bit/bottom_left_side");
    assert(vstd::string::is_ascii("/terrains_peering_bit/bottom_left_side"));
    assert(text("/terrains_peering_bit/bottom_left_side").len() == 38);
    assert(is_path_text(text("/terrains_peering_bit/bottom_left_side")));
    reveal_strlit("/terrains_peering_bit/top_left_side");
    assert(vstd::string::is_ascii("/terrains_peering_bit/top_left_side"));
    assert(text("/terrains_peering_bit/top_left_side").len() == 35);
    assert(is_path_text(text("/terrains_peering_bit/top_left_side")));
    reveal_strlit("/terrains_peering_bit/top_side");
    assert(vstd::string::is_ascii("/terrains_peering_bit/top_side"));
    assert(text("/terrains_peering_bit/top_side").len() == 30);
    assert(is_path_text(text("/terrains_peering_bit/top_side")));
    reveal_strlit("/terrains_peering_bit/top_right_side");
    assert(vstd::string::is_ascii("/terrains_peering_bit/top_right_side"));
    assert(text("/terrains_peering_bit/top_right_side").len() == 36);
    assert(is_path_text(text("/terrains_peering_bit/top_right_side")));
    reveal_strlit("terrain_set_");
    assert(vstd::string::is_ascii("terrain_set_"));
    assert(text("terrain_set_").len() == 12);
    assert(is_path_text(text("terrain_set_")));
    reveal_strlit("/mode");
    assert(vstd::string::is_ascii("/mode"));
    assert(text("/mode").len() == 5);
    assert(is_path_text(text("/mode")));
    reveal_strlit("/terrain_");
    assert(vstd::string::is_ascii("/terrain_"));
    assert(text("/terrain_").len() == 9);
    assert(is_path_text(text("/terrain_")));
    reveal_strlit("/name");
    assert(vstd::string::is_ascii("/name"));
    assert(text("/name").len() == 5);
    assert(is_path_text(text("/name")));
    reveal_strlit("/color");
    assert(vstd::string::is_ascii("/color"));
    assert(text("/color").len() == 6);
    assert(is_path_text(text("/color")));
}

/// A property line that is read back as it was written: it is well formed and holds
/// no number with a fraction.
pub open spec fn is_plain_line(line: TagAssignView) -> bool {
    line.well_formed() && !(line.value is Double)
}

/// A field that is read back as it was written.
pub open spec fn is_plain_field(f: FieldView) -> bool {
    f.well_formed() && !(f.value is Double)
}

pub open spec fn all_plain_lines(lines: Seq<TagAssignView>) -> bool {
    forall|k: int| 0 <= k < lines.len() ==> is_plain_line(#[trigger] lines[k])
}

pub open spec fn all_plain_fields(fields: Seq<FieldView>) -> bool {
    forall|k: int| 0 <= k < fields.len() ==> is_plain_field(#[trigger] fields[k])
}

/// A property line of a tile: its path begins with the place of the tile.
pub open spec fn is_tile_line(line: TagAssignView) -> bool {
    is_plain_line(line) && line.assign.len() > 0 && (is_digit(line.assign[0]) || line.assign[0]
        == MINUS)
}

pub open spec fn all_tile_lines(lines: Seq<TagAssignView>) -> bool {
    forall|k: int| 0 <= k < lines.len() ==> is_tile_line(#[trigger] lines[k])
}

pub proof fn lemma_plain_lines_joined(a: Seq<TagAssignView>, b: Seq<TagAssignView>)
    requires
        all_plain_lines(a),
        all_plain_lines(b),
    ensures
        all_plain_lines(a + b),
{
    assert forall|k: int| 0 <= k < (a + b).len() implies is_plain_line(#[trigger] (a + b)[k]) by {
        if k < a.len() {
            assert((a + b)[k] == a[k]);
        } else {
            assert((a + b)[k] == b[k - a.len()]);
        }
    }
}

pub proof fn lemma_tile_lines_joined(a: Seq<TagAssignView>, b: Seq<TagAssignView>)
    requires
        all_tile_lines(a),
        all_tile_lines(b),
    ensures
        all_tile_lines(a + b),
{
    assert forall|k: int| 0 <= k < (a + b).len() implies is_tile_line(#[trigger] (a + b)[k]) by {
        if k < a.len() {
            assert((a + b)[k] == a[k]);
        } else {
            assert((a + b)[k] == b[k - a.len()]);
        }
    }
}

/// Plain property lines are read back as they were written.
pub proof fn lemma_plain_lines_kept(lines: Seq<TagAssignView>)
    requires
        all_plain_lines(lines),
    ensures
        read_back_assigns(lines) == lines,
        forall|k: int| 0 <= k < lines.len() ==> (#[trigger] lines[k]).well_formed(),
{
    assert forall|k: int| 0 <= k < lines.len() implies (#[trigger] lines[k]).well_formed() by {
        assert(is_plain_line(lines[k]));
    }
    assert forall|k: int| 0 <= k < lines.len() implies read_back_assigns(lines)[k]
        == lines[k] by {
        assert(is_plain_line(lines[k]));
    }
    assert(read_back_assigns(lines) =~= lines);
}

/// Plain fields are read back as they were written.
pub proof fn lemma_plain_fields_kept(fields: Seq<FieldView>)
    requires
        all_plain_fields(fields),
    ensures
        read_back_fields(fields) == fields,
        forall|k: int| 0 <= k < fields.len() ==> (#[trigger] fields[k]).well_formed(),
{
    assert forall|k: int| 0 <= k < fields.len() implies (#[trigger] fields[k]).well_formed() by {
        assert(is_plain_field(fields[k]));
    }
    assert forall|k: int| 0 <= k < fields.len() implies read_back_fields(fields)[k]
        == fields[k] by {
        assert(is_plain_field(fields[k]));
    }
    assert(read_back_fields(fields) =~= fields);
}

/// The path of a tile can stand in a property line, and begins with a digit or a minus
/// sign.
pub proof fn lemma_tile_path(position: Vector2i)
    ensures
        is_path_text(tile_path(position)),
        tile_path(position).len() > 0,
        is_digit(tile_path(position)[0]) || tile_path(position)[0] == MINUS,
{
    lemma_path_words();
    lemma_int_text_in_path(position.x as int);
    lemma_int_text_in_path(position.y as int);
    let x = int_text(position.x as int);
    let y = int_text(position.y as int);
    lemma_path_text_joined(x, text(":"));
    lemma_path_text_joined(x + text(":"), y);
    lemma_path_text_joined(x + text(":") + y, text("/0"));
    assert(tile_path(position)[0] == x[0]);
}

/// The property line of an optional terrain of a tile is a line of a tile.
proof fn lemma_optional_line(path: Seq<u8>, suffix: Seq<u8>, terrain: Option<u32>)
    requires
        is_path_text(path),
        is_path_text(suffix),
        path.len() > 0,
        is_digit(path[0]) || path[0] == MINUS,
    ensures
        all_tile_lines(optional_assign(path + suffix, terrain)),
{
    lemma_path_text_joined(path, suffix);
    assert((path + suffix)[0] == path[0]);
}

/// The property lines of a tile are lines of a tile.
pub proof fn lemma_tile_lines(tile: Tile)
    ensures
        all_tile_lines(tile_assigns(tile)),
{
    lemma_path_words();
    lemma_tile_path(tile.position);
    let path = tile_path(tile.position);
    let sides = tile.terrains_peering_bit;
    let first = seq![assign(path, ValueView::Integer(0))];
    let l1 = optional_assign(path + text("/terrain_set"), tile.terrain_set);
    let l2 = optional_assign(path + text("/terrain"), tile.terrain);
    let l3 = optional_assign(
        path + text("/terrains_peering_bit/bottom_right_side"),
        sides.bottom_right_side,
    );
    let l4 = optional_assign(path + text("/terrains_peering_bit/bottom_side"), sides.bottom_side);
    let l5 = optional_assign(
        path + text("/terrains_peering_bit/bottom_left_side"),
        sides.bottom_left_side,
    );
    let l6 = optional_assign(
        path + text("/terrains_peering_bit/top_left_side"),
        sides.top_left_side,
    );
    let l7 = optional_assign(path + text("/terrains_peering_bit/top_side"), sides.top_side);
    let l8 = optional_assign(
        path + text("/terrains_peering_bit/top_right_side"),
        sides.top_right_side,
    );
    assert(all_tile_lines(first));
    lemma_optional_line(path, text("/terrain_set"), tile.terrain_set);
    lemma_optional_line(path, text("/terrain"), tile.terrain);
    lemma_optional_line(
        path,
        text("/terrains_peering_bit/bottom_right_side"),
        sides.bottom_right_side,
    );
    lemma_optional_line(path, text("/terrains_peering_bit/bottom_side"), sides.bottom_side);
    lemma_optional_line(
        path,
        text("/terrains_peering_bit/bottom_left_side"),
        sides.bottom_left_side,
    );
    lemma_optional_line(path, text("/terrains_peering_bit/top_left_side"), sides.top_left_side);
    lemma_optional_line(path, text("/terrains_peering_bit/top_side"), sides.top_side);
    lemma_optional_line(path, text("/terrains_peering_bit/top_right_side"), sides.top_right_side);
    lemma_tile_lines_joined(first, l1);
    lemma_tile_lines_joined(first + l1, l2);
    lemma_tile_lines_joined(first + l1 + l2, l3);
    lemma_tile_lines_joined(first + l1 + l2 + l3, l4);
    lemma_tile_lines_joined(first + l1 + l2 + l3 + l4, l5);
    lemma_tile_lines_joined(first + l1 + l2 + l3 + l4 + l5, l6);
    lemma_tile_lines_joined(first + l1 + l2 + l3 + l4 + l5 + l6, l7);
    lemma_tile_lines_joined(first + l1 + l2 + l3 + l4 + l5 + l6 + l7, l8);
}

/// The property lines of tiles are lines of tiles.
pub proof fn lemma_tiles_lines(tiles: Seq<Tile>)
    ensures
        all_tile_lines(tiles_assigns(tiles)),
    decreases tiles.len(),
{
    if tiles.len() > 0 {
        lemma_tiles_lines(tiles.drop_last());
        lemma_tile_lines(tiles.last());
        lemma_tile_lines_joined(tiles_assigns(tiles.drop_last()), tile_assigns(tiles.last()));
    }
}

/// Lines of tiles are plain lines.
pub proof fn lemma_tile_lines_are_plain(lines: Seq<TagAssignView>)
    requires
        all_tile_lines(lines),
    ensures
        all_plain_lines(lines),
{
    assert forall|k: int| 0 <= k < lines.len() implies is_plain_line(#[trigger] lines[k]) by {
        assert(is_tile_line(lines[k]));
    }
}

/// Whether every terrain of every set has a name that can stand between quotes.
pub open spec fn names_quotable(sets: Seq<Seq<Seq<u8>>>) -> bool {
    forall|i: int, j: int|
        0 <= i < sets.len() && 0 <= j < sets[i].len() ==> is_quotable(#[trigger] sets[i][j])
}

/// The colour of a terrain is well formed.
pub proof fn lemma_terrain_color()
    ensures
        terrain_color().well_formed(),
        !(terrain_color() is Double),
{
    lemma_zero_literal();
    crate::double::lemma_integer_literal(1);
    broadcast use vstd::string::is_ascii_spec_bytes;

    reveal_strlit("1");
    assert(vstd::string::is_ascii("1"));
    assert(text("1") =~= seq![49u8]);
    assert(int_text(1) =~= seq![49u8]);
}

/// The path of a terrain set can stand in a property line.
pub proof fn lemma_terrain_paths(set: int, terrain: int)
    requires
        0 <= set,
        0 <= terrain,
    ensures
        is_path_text(terrain_set_path(set)),
        is_path_text(terrain_path(set, terrain)),
        terrain_set_path(set)[0] == 116,
        terrain_path(set, terrain)[0] == 116,
{
    lemma_path_words();
    lemma_int_text_in_path(set);
    lemma_int_text_in_path(terrain);
    lemma_path_text_joined(text("terrain_set_"), int_text(set));
    lemma_path_text_joined(terrain_set_path(set), text("/terrain_"));
    lemma_path_text_joined(terrain_set_path(set) + text("/terrain_"), int_text(terrain));
    assert(terrain_set_path(set)[0] == text("terrain_set_")[0]);
    assert(terrain_path(set, terrain)[0] == terrain_set_path(set)[0]);
}

/// The property lines of the terrains of a set are plain lines.
pub proof fn lemma_terrains_lines(set: int, names: Seq<Seq<u8>>, count: int)
    requires
        0 <= set,
        0 <= count <= names.len(),
        forall|j: int| 0 <= j < names.len() ==> is_quotable(#[trigger] names[j]),
    ensures
        all_plain_lines(terrains_assigns(set, names, count)),
    decreases count,
{
    if count > 0 {
        lemma_terrains_lines(set, names, count - 1);
        lemma_path_words();
        lemma_terrain_color();
        lemma_terrain_paths(set, count - 1);
        let path = terrain_path(set, count - 1);
        lemma_path_text_joined(path, text("/name"));
        lemma_path_text_joined(path, text("/color"));
        assert((path + text("/name"))[0] == path[0]);
        assert((path + text("/color"))[0] == path[0]);
        assert(is_quotable(names[count - 1]));
        assert(all_plain_lines(terrain_assigns(set, count - 1, names[count - 1])));
        lemma_plain_lines_joined(
            terrains_assigns(set, names, count - 1),
            terrain_assigns(set, count - 1, names[count - 1]),
        );
    }
}

/// The property lines of the terrain sets are plain lines.
pub proof fn lemma_terrain_sets_lines(sets: Seq<Seq<Seq<u8>>>, count: int)
    requires
        0 <= count <= sets.len(),
        names_quotable(sets),
    ensures
        all_plain_lines(terrain_sets_assigns(sets, count)),
    decreases count,
{
    if count > 0 {
        lemma_terrain_sets_lines(sets, count - 1);
        lemma_path_words();
        let set = count - 1;
        let names = sets[set];
        lemma_terrain_paths(set, 0);
        lemma_path_text_joined(terrain_set_path(set), text("/mode"));
        assert((terrain_set_path(set) + text("/mode"))[0] == terrain_set_path(set)[0]);
        let mode = seq![assign(terrain_set_path(set) + text("/mode"), ValueView::Integer(2))];
        assert(all_plain_lines(mode));
        assert forall|j: int| 0 <= j < names.len() implies is_quotable(#[trigger] names[j]) by {
            assert(is_quotable(sets[set][j]));
        }
        lemma_terrains_lines(set, names, names.len() as int);
        lemma_plain_lines_joined(mode, terrains_assigns(set, names, names.len() as int));
        lemma_plain_lines_joined(
            terrain_sets_assigns(sets, count - 1),
            terrain_set_assigns(set, names),
        );
    }
}

/// Whether the strings of a tile set can stand between quotes.
pub open spec fn strings_quotable(resource: TileSetResourceView) -> bool {
    &&& is_quotable(resource.uid)
    &&& is_quotable(resource.texture_resource.uid)
    &&& is_quotable(resource.texture_resource.path)
    &&& is_quotable(resource.texture_resource.id)
    &&& is_quotable(resource.tile_set_atlas_source.id)
    &&& is_quotable(resource.tile_set_atlas_source.texture)
}

/// The header of the file of a tile set is well formed and names the supported format.
pub proof fn lemma_header_tag(resource: TileSetResourceView)
    requires
        is_quotable(resource.uid),
    ensures
        header_tag(resource).well_formed(),
        header_tag(resource).read_back() == header_tag(resource),
        format_supported(header_tag(resource)),
        first_field(header_tag(resource).fields, text("uid"), 0) == Some(3int),
{
    lemma_file_words();
    lemma_words_quotable();
    let tag = header_tag(resource);
    lemma_identifier_is_name_and_path(text("gd_resource"));
    assert(all_plain_fields(tag.fields));
    lemma_plain_fields_kept(tag.fields);
    assert(read_back_assigns(tag.assigns) =~= tag.assigns);
    let fields = tag.fields;
    assert(first_field(fields, text("format"), 2) == Some(2int));
    assert(first_field(fields, text("format"), 1) == Some(2int));
    assert(first_field(fields, text("format"), 0) == Some(2int));
    assert(first_field(fields, text("uid"), 3) == Some(3int));
    assert(first_field(fields, text("uid"), 2) == Some(3int));
    assert(first_field(fields, text("uid"), 1) == Some(3int));
}

/// The names of the kinds of resources can stand between quotes.
pub proof fn lemma_words_quotable()
    ensures
        is_quotable(text("TileSet")),
        is_quotable(text("Texture2D")),
        is_quotable(text("TileSetAtlasSource")),
{
    broadcast use vstd::string::is_ascii_spec_bytes;

    reveal_strlit("TileSet");
    reveal_strlit("Texture2D");
    reveal_strlit("TileSetAtlasSource");
    assert(vstd::string::is_ascii("TileSet"));
    assert(vstd::string::is_ascii("Texture2D"));
    assert(vstd::string::is_ascii("TileSetAtlasSource"));
    assert(text("TileSet").len() == 7);
    assert(text("Texture2D").len() == 9);
    assert(text("TileSetAtlasSource").len() == 18);
}

/// The tag of the texture is well formed.
pub proof fn lemma_texture_tag(texture: TextureResourceView)
    requires
        is_quotable(texture.uid),
        is_quotable(texture.path),
        is_quotable(texture.id),
    ensures
        texture_tag(texture).well_formed(),
        texture_tag(texture).read_back() == texture_tag(texture),
{
    lemma_file_words();
    lemma_words_quotable();
    let tag = texture_tag(texture);
    lemma_identifier_is_name_and_path(text("ext_resource"));
    assert(all_plain_fields(tag.fields));
    lemma_plain_fields_kept(tag.fields);
    assert(read_back_assigns(tag.assigns) =~= tag.assigns);
}

/// The tag of the atlas is well formed.
pub proof fn lemma_atlas_tag(atlas: TileSetAtlasSourceView)
    requires
        is_quotable(atlas.id),
        is_quotable(atlas.texture),
    ensures
        atlas_tag(atlas).well_formed(),
        atlas_tag(atlas).read_back() == atlas_tag(atlas),
{
    lemma_file_words();
    lemma_words_quotable();
    lemma_path_words();
    let tag = atlas_tag(atlas);
    lemma_identifier_is_name_and_path(text("sub_resource"));
    assert(all_plain_fields(tag.fields));
    lemma_plain_fields_kept(tag.fields);
    let first = seq![
        assign(text("texture"), ValueView::ExtResource(atlas.texture)),
        assign(text("texture_region_size"), ValueView::Vector2i(atlas.texture_region_size)),
    ];
    assert(all_plain_lines(first));
    lemma_tiles_lines(atlas.tiles);
    lemma_tile_lines_are_plain(tiles_assigns(atlas.tiles));
    lemma_plain_lines_joined(first, tiles_assigns(atlas.tiles));
    lemma_plain_lines_kept(tag.assigns);
}

/// The tag of the tile set itself is well formed.
pub proof fn lemma_resource_tag(atlas: TileSetAtlasSourceView, sets: Seq<Seq<Seq<u8>>>)
    requires
        is_quotable(atlas.id),
        names_quotable(sets),
    ensures
        resource_tag(atlas, sets).well_formed(),
        resource_tag(atlas, sets).read_back() == resource_tag(atlas, sets),
{
    lemma_file_words();
    lemma_path_words();
    let tag = resource_tag(atlas, sets);
    lemma_identifier_is_name_and_path(text("resource"));
    assert(read_back_fields(tag.fields) =~= tag.fields);
    let first = seq![
        assign(text("tile_shape"), ValueView::Integer(3)),
        assign(text("tile_offset_axis"), ValueView::Integer(1)),
        assign(text("tile_size"), ValueView::Vector2i(atlas.texture_region_size)),
    ];
    let last = seq![assign(text("sources/0"), ValueView::SubResource(atlas.id))];
    assert(all_plain_lines(first));
    assert(all_plain_lines(last));
    lemma_terrain_sets_lines(sets, sets.len() as int);
    lemma_plain_lines_joined(first, terrain_sets_assigns(sets, sets.len() as int));
    lemma_plain_lines_joined(first + terrain_sets_assigns(sets, sets.len() as int), last);
    lemma_plain_lines_kept(tag.assigns);
}

/// The file that is written for a tile set is well formed, and is read back as it was
/// written.
pub proof fn lemma_written_file(resource: TileSetResourceView, sets: Seq<Seq<Seq<u8>>>)
    requires
        strings_quotable(resource),
        names_quotable(sets),
    ensures
        resource_file(resource, sets).well_formed(),
        resource_file(resource, sets).read_back() == resource_file(resource, sets),
{
    let file = resource_file(resource, sets);
    lemma_header_tag(resource);
    lemma_texture_tag(resource.texture_resource);
    lemma_atlas_tag(resource.tile_set_atlas_source);
    lemma_resource_tag(resource.tile_set_atlas_source, sets);
    assert(read_back_tags(file.tags) =~= file.tags);
}

/// Property lines of tiles name no texture.
pub proof fn lemma_no_texture_among_tiles(lines: Seq<TagAssignView>, k: int, texture: Seq<u8>)
    requires
        0 <= k <= lines.len(),
        forall|i: int| k <= i < lines.len() ==> is_tile_line(#[trigger] lines[i]),
    ensures
        scan_atlas_assigns(lines, k, texture) == Ok::<Seq<u8>, crate::resource::SchemaError>(
            texture,
        ),
    decreases lines.len() - k,
{
    if k < lines.len() {
        lemma_path_words();
        assert(is_tile_line(lines[k]));
        assert(lines[k].assign[0] != text("texture")[0]);
        lemma_no_texture_among_tiles(lines, k + 1, texture);
    }
}

/// What is read of the tile set from the file that was written for it: all but the
/// size of a cell and the tiles.
pub open spec fn without_tiles(resource: TileSetResourceView) -> TileSetResourceView {
    TileSetResourceView {
        uid: resource.uid,
        texture_resource: resource.texture_resource,
        tile_set_atlas_source: TileSetAtlasSourceView {
            id: resource.tile_set_atlas_source.id,
            texture: resource.tile_set_atlas_source.texture,
            texture_region_size: Vector2i { x: 0, y: 0 },
            tiles: Seq::empty(),
        },
    }
}

/// Whether a tile set has the strings without which no file says it.
pub open spec fn strings_present(resource: TileSetResourceView) -> bool {
    &&& resource.texture_resource.uid.len() > 0
    &&& resource.texture_resource.path.len() > 0
    &&& resource.texture_resource.id.len() > 0
    &&& resource.tile_set_atlas_source.id.len() > 0
    &&& resource.tile_set_atlas_source.texture.len() > 0
}

/// The texture is read from its tag.
pub proof fn lemma_texture_read(texture: TextureResourceView)
    requires
        texture.uid.len() > 0,
        texture.path.len() > 0,
        texture.id.len() > 0,
    ensures
        texture_of_tag(texture_tag(texture)) == Ok::<
            TextureResourceView,
            crate::resource::SchemaError,
        >(texture),
{
    lemma_file_words();
    let fields = texture_tag(texture).fields;
    let s0 = TextureScan {
        found_type: false,
        uid: Seq::empty(),
        path: Seq::empty(),
        id: Seq::empty(),
    };
    let s1 = TextureScan { found_type: true, ..s0 };
    let s2 = TextureScan { uid: texture.uid, ..s1 };
    let s3 = TextureScan { path: texture.path, ..s2 };
    let s4 = TextureScan { id: texture.id, ..s3 };
    assert(scan_texture_fields(fields, 4, s4) == Ok::<TextureScan, crate::resource::SchemaError>(
        s4,
    ));
    assert(scan_texture_fields(fields, 3, s3) == scan_texture_fields(fields, 4, s4));
    assert(scan_texture_fields(fields, 2, s2) == scan_texture_fields(fields, 3, s3));
    assert(scan_texture_fields(fields, 1, s1) == scan_texture_fields(fields, 2, s2));
    assert(scan_texture_fields(fields, 0, s0) == scan_texture_fields(fields, 1, s1));
}

/// The atlas is read from its tag, without its tiles.
pub proof fn lemma_atlas_read(atlas: TileSetAtlasSourceView)
    requires
        atlas.id.len() > 0,
        atlas.texture.len() > 0,
    ensures
        atlas_of_tag(atlas_tag(atlas)) == Ok::<
            TileSetAtlasSourceView,
            crate::resource::SchemaError,
        >(
            TileSetAtlasSourceView {
                id: atlas.id,
                texture: atlas.texture,
                texture_region_size: Vector2i { x: 0, y: 0 },
                tiles: Seq::empty(),
            },
        ),
{
    lemma_file_words();
    lemma_path_words();
    let tag = atlas_tag(atlas);
    let fields = tag.fields;
    let s0 = AtlasScan { found_type: false, id: Seq::empty() };
    let s1 = AtlasScan { found_type: true, ..s0 };
    let s2 = AtlasScan { id: atlas.id, ..s1 };
    assert(scan_atlas_fields(fields, 2, s2) == Ok::<AtlasScan, crate::resource::SchemaError>(s2));
    assert(scan_atlas_fields(fields, 1, s1) == scan_atlas_fields(fields, 2, s2));
    assert(scan_atlas_fields(fields, 0, s0) == scan_atlas_fields(fields, 1, s1));
    let lines = tag.assigns;
    lemma_tiles_lines(atlas.tiles);
    assert forall|i: int| 2 <= i < lines.len() implies is_tile_line(#[trigger] lines[i]) by {
        assert(lines[i] == tiles_assigns(atlas.tiles)[i - 2]);
    }
    lemma_no_texture_among_tiles(lines, 2, atlas.texture);
    assert(lines[0].assign == text("texture"));
    assert(lines[1].assign == text("texture_region_size"));
    assert(scan_atlas_assigns(lines, 1, atlas.texture) == scan_atlas_assigns(
        lines,
        2,
        atlas.texture,
    ));
    assert(scan_atlas_assigns(lines, 0, Seq::empty()) == scan_atlas_assigns(
        lines,
        1,
        atlas.texture,
    ));
}

/// The tile set is read from the file that was written for it, without the size of a
/// cell and without its tiles.
pub proof fn lemma_written_file_says(resource: TileSetResourceView, sets: Seq<Seq<Seq<u8>>>)
    requires
        strings_present(resource),
    ensures
        resource_of_file(resource_file(resource, sets)) == Ok::<
            TileSetResourceView,
            crate::resource::SchemaError,
        >(without_tiles(resource)),
{
    lemma_file_words();
    let file = resource_file(resource, sets);
    let fields = file.header.fields;
    assert(first_field(fields, text("uid"), 3) == Some(3int));
    assert(first_field(fields, text("uid"), 2) == Some(3int));
    assert(first_field(fields, text("uid"), 1) == Some(3int));
    assert(first_field(fields, text("uid"), 0) == Some(3int));
    assert(header_uid(file.header) == Ok::<Seq<u8>, crate::resource::SchemaError>(resource.uid));
    lemma_texture_read(resource.texture_resource);
    lemma_atlas_read(resource.tile_set_atlas_source);
    let tags = file.tags;
    let s0 = TagScan { texture: None, atlas: None, seen_resource: false };
    let s1 = TagScan { texture: Some(resource.texture_resource), ..s0 };
    let s2 = TagScan { atlas: Some(without_tiles(resource).tile_set_atlas_source), ..s1 };
    let s3 = TagScan { seen_resource: true, ..s2 };
    assert(scan_tags(tags, 3, s3) == Ok::<TagScan, crate::resource::SchemaError>(s3));
    assert(scan_tags(tags, 2, s2) == scan_tags(tags, 3, s3));
    assert(scan_tags(tags, 1, s1) == scan_tags(tags, 2, s2));
    assert(scan_tags(tags, 0, s0) == scan_tags(tags, 1, s1));
}

} // verus!
