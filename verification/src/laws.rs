//! What holds of reading and writing together.

use vstd::prelude::*;
use crate::bytes::text;
use crate::document::{GodotFileView, TagView};
use crate::error::{ParseError, SyntaxError};
use crate::roundtrip::tokens::{is_delimiter, lemma_holds_prefix};
use crate::literal::is_integer_literal;
use crate::parser::{
    first_field, format_supported, spec_parse_file, spec_parse_tag, spec_parse_value,
    FORMAT_VERSION,
};
use crate::roundtrip::values::{lemma_read_value, read_back_value};
use crate::roundtrip::files::{
    lemma_read_file, lemma_render_read_back_tag, lemma_render_read_back_tags,
};
use crate::resource::{assign, resource_of_file, tile_assigns, tile_path, SchemaError, Tile};
use crate::value::{render_value, ColorView, DoubleView, ValueView};
use crate::writer::render_file;

verus! {

/// Whether `rest` may follow the text of `v`: it begins with a delimiter, as what
/// follows a value in a file does, or it is empty. A colour literal needs a delimiter.
pub open spec fn may_follow(v: ValueView, rest: Seq<u8>) -> bool {
    if rest.len() == 0 {
        !(v matches ValueView::Color(ColorView::Html(_)))
    } else {
        is_delimiter(rest[0])
    }
}

/// A whole number: a finite number whose text is that of an integer.
pub open spec fn is_whole_number(v: ValueView) -> bool {
    v matches ValueView::Double(DoubleView::Finite(t)) && is_integer_literal(t)
}

/// Reading the text of a well-formed value gives the value back, whatever its kind.
/// The one exception is a whole number: its text is that of an integer, and it is read
/// as this integer, which is written as the same text.
pub proof fn law_value_round_trip(v: ValueView, rest: Seq<u8>)
    requires
        v.well_formed(),
        may_follow(v, rest),
    ensures
        spec_parse_value(render_value(v) + rest, 0) == Ok::<(ValueView, int), SyntaxError>(
            (read_back_value(v), render_value(v).len() as int),
        ),
        !is_whole_number(v) ==> read_back_value(v) == v,
        is_whole_number(v) ==> read_back_value(v) is Integer,
        render_value(read_back_value(v)) == render_value(v),
{
    let s = render_value(v) + rest;
    lemma_holds_prefix(render_value(v), rest);
    if rest.len() > 0 {
        assert(s[render_value(v).len() as int] == rest[0]);
    }
    lemma_read_value(s, 0, v);
}

/// Every value that is read is well formed: its text is read again as the same value,
/// or, for a whole number among the numbers of a colour, as the integer of the same text.
pub proof fn law_read_value_is_well_formed(s: Seq<u8>, i: int)
    requires
        0 <= i <= s.len(),
    ensures
        spec_parse_value(s, i) matches Ok((v, _)) ==> v.well_formed(),
{
    crate::roundtrip::values::lemma_value_read(s, i);
}

/// Reading the text of a well-formed file and writing what was read gives the same
/// text, byte for byte. What is read is the file that was written, with each whole
/// number as the integer of the same text.
pub proof fn law_reserialization(file: GodotFileView)
    requires
        file.well_formed(),
    ensures
        spec_parse_file(render_file(file)) == Ok::<GodotFileView, ParseError>(file.read_back()),
        render_file(file.read_back()) == render_file(file),
{
    lemma_read_file(file);
    lemma_render_read_back_tag(file.header);
    lemma_render_read_back_tags(file.tags);
}

/// The failures of the tags behind the header are failures of a tag or of a property
/// line.
proof fn lemma_tags_failures(s: Seq<u8>, i: int, tags: Seq<TagView>)
    ensures
        crate::parser::spec_parse_tags(s, i, tags) matches Err(e) ==> e is Tag || e is Assign,
    decreases s.len() - i,
{
    match crate::parser::spec_parse_block(s, i, tags.len() as usize) {
        Ok((Some(tag), after)) => {
            if i < after <= s.len() {
                lemma_tags_failures(s, after, tags.push(tag));
            }
        },
        _ => {},
    }
}

/// A file whose header names a format is refused unless the first `format` of the
/// header is the integer of the supported version; a header without `format` is
/// accepted as far as the format goes.
pub proof fn law_version_gate(s: Seq<u8>)
    ensures
        spec_parse_tag(s, 0) matches Ok((Some(header), _)) ==> {
            &&& (spec_parse_file(s) == Err::<GodotFileView, ParseError>(
                ParseError::UnsupportedFormat,
            ) <==> !format_supported(header))
            &&& (first_field(header.fields, text("format"), 0) is None ==> format_supported(
                header,
            ))
            &&& (first_field(header.fields, text("format"), 0) matches Some(k) ==> (
            format_supported(header) <==> header.fields[k].value == ValueView::Integer(
                FORMAT_VERSION,
            )))
        },
{
    if let Ok((Some(header), end)) = spec_parse_tag(s, 0) {
        lemma_tags_failures(s, end, Seq::empty());
    }
}

/// How many of the tags from the one at `from` on have the name `name`.
pub open spec fn count_tags(tags: Seq<TagView>, name: Seq<u8>, from: int) -> nat
    decreases tags.len() - from,
{
    if from < 0 || from >= tags.len() {
        0
    } else if tags[from].name == name {
        1 + count_tags(tags, name, from + 1)
    } else {
        count_tags(tags, name, from + 1)
    }
}

/// A tag of a kind that a tile set file holds.
pub open spec fn is_known_tag(tag: TagView) -> bool {
    tag.name == text("ext_resource") || tag.name == text("sub_resource") || tag.name == text(
        "resource",
    )
}

/// The three names of tags are three names.
proof fn lemma_tag_names_differ()
    ensures
        text("ext_resource") != text("sub_resource"),
        text("ext_resource") != text("resource"),
        text("sub_resource") != text("resource"),
{
    broadcast use vstd::string::is_ascii_spec_bytes;

    reveal_strlit("ext_resource");
    reveal_strlit("sub_resource");
    reveal_strlit("resource");
    assert(vstd::string::is_ascii("ext_resource"));
    assert(vstd::string::is_ascii("sub_resource"));
    assert(vstd::string::is_ascii("resource"));
    assert(text("ext_resource")[0] == 101);
    assert(text("sub_resource")[0] == 115);
    assert(text("ext_resource").len() == 12);
    assert(text("sub_resource").len() == 12);
    assert(text("resource").len() == 8);
}

/// What the walk over the tags from the one at `k` on has found when it ends well.
proof fn lemma_scan_counts(tags: Seq<TagView>, k: int, scan: crate::resource::TagScan)
    requires
        0 <= k <= tags.len(),
        crate::resource::scan_tags(tags, k, scan) is Ok,
    ensures
        ({
            let found = crate::resource::scan_tags(tags, k, scan)->Ok_0;
            &&& count_tags(tags, text("ext_resource"), k) + (if scan.texture is Some {
                1nat
            } else {
                0nat
            }) == (if found.texture is Some {
                1nat
            } else {
                0nat
            })
            &&& count_tags(tags, text("sub_resource"), k) + (if scan.atlas is Some {
                1nat
            } else {
                0nat
            }) == (if found.atlas is Some {
                1nat
            } else {
                0nat
            })
            &&& count_tags(tags, text("resource"), k) + (if scan.seen_resource {
                1nat
            } else {
                0nat
            }) <= 1
            &&& forall|i: int| k <= i < tags.len() ==> is_known_tag(#[trigger] tags[i])
        }),
    decreases tags.len() - k,
{
    lemma_tag_names_differ();
    if k < tags.len() {
        let tag = tags[k];
        if tag.name == text("ext_resource") {
            let texture = crate::resource::texture_of_tag(tag)->Ok_0;
            lemma_scan_counts(
                tags,
                k + 1,
                crate::resource::TagScan { texture: Some(texture), ..scan },
            );
        } else if tag.name == text("sub_resource") {
            let atlas = crate::resource::atlas_of_tag(tag)->Ok_0;
            lemma_scan_counts(tags, k + 1, crate::resource::TagScan { atlas: Some(atlas), ..scan });
        } else if tag.name == text("resource") {
            lemma_scan_counts(
                tags,
                k + 1,
                crate::resource::TagScan { seen_resource: true, ..scan },
            );
        }
    }
}

/// A file that says a tile set has exactly one `ext_resource` tag and exactly one
/// `sub_resource` tag, at most one `resource` tag, and no tag of another name.
pub proof fn law_schema_cardinality(file: GodotFileView)
    requires
        resource_of_file(file) is Ok,
    ensures
        count_tags(file.tags, text("ext_resource"), 0) == 1,
        count_tags(file.tags, text("sub_resource"), 0) == 1,
        count_tags(file.tags, text("resource"), 0) <= 1,
        forall|i: int| 0 <= i < file.tags.len() ==> is_known_tag(#[trigger] file.tags[i]),
{
    lemma_scan_counts(
        file.tags,
        0,
        crate::resource::TagScan { texture: None, atlas: None, seen_resource: false },
    );
}

/// How many terrains a tile has: its terrain set, its terrain, and one for each side
/// with a terrain.
pub open spec fn terrain_count(tile: Tile) -> nat {
    let sides = tile.terrains_peering_bit;
    one_if_some(tile.terrain_set) + one_if_some(tile.terrain) + one_if_some(
        sides.bottom_right_side,
    ) + one_if_some(sides.bottom_side) + one_if_some(sides.bottom_left_side) + one_if_some(
        sides.top_left_side,
    ) + one_if_some(sides.top_side) + one_if_some(sides.top_right_side)
}

/// One for a terrain, none for none.
pub open spec fn one_if_some(slot: Option<u32>) -> nat {
    if slot is Some {
        1
    } else {
        0
    }
}

/// A tile has one property line that marks its cell as taken, which comes first, and one
/// more line for each terrain that it has. A tile with nothing but a position has the
/// first line alone.
pub proof fn law_tile_assign_shape(tile: Tile)
    ensures
        tile_assigns(tile).len() == 1 + terrain_count(tile),
        tile_assigns(tile)[0] == assign(tile_path(tile.position), ValueView::Integer(0)),
        terrain_count(tile) == 0 ==> tile_assigns(tile) == seq![
            assign(tile_path(tile.position), ValueView::Integer(0)),
        ],
{
    if terrain_count(tile) == 0 {
        assert(tile_assigns(tile) =~= seq![
            assign(tile_path(tile.position), ValueView::Integer(0)),
        ]);
    }
}

/// The file that is written for a tile set is read as it was written, whatever the
/// tiles and the terrains, as long as every string can stand between quotes.
pub proof fn law_written_file_reads_back(
    resource: crate::resource::TileSetResourceView,
    sets: Seq<Seq<Seq<u8>>>,
)
    requires
        crate::roundtrip::written::strings_quotable(resource),
        crate::roundtrip::written::names_quotable(sets),
    ensures
        crate::resource::resource_file(resource, sets).well_formed(),
        spec_parse_file(render_file(crate::resource::resource_file(resource, sets))) == Ok::<
            GodotFileView,
            ParseError,
        >(crate::resource::resource_file(resource, sets)),
{
    crate::roundtrip::written::lemma_written_file(resource, sets);
    lemma_read_file(crate::resource::resource_file(resource, sets));
}

/// From the file that is written for a tile set the tile set is read again: its
/// identifier, its texture, and the identifier and the texture of its atlas. The size of
/// a cell and the tiles are not read.
pub proof fn law_written_tile_set_is_read(
    resource: crate::resource::TileSetResourceView,
    sets: Seq<Seq<Seq<u8>>>,
)
    requires
        crate::roundtrip::written::strings_present(resource),
    ensures
        resource_of_file(crate::resource::resource_file(resource, sets)) == Ok::<
            crate::resource::TileSetResourceView,
            SchemaError,
        >(crate::roundtrip::written::without_tiles(resource)),
{
    crate::roundtrip::written::lemma_written_file_says(resource, sets);
}

} // verus!
