//! The drawings of the terrains: which terrains a drawing is for, by its file name.

use vstd::prelude::*;
use crate::ascii::{MINUS, SPACE};
use crate::bytes::{copy_bytes, is_text, text};
use crate::config::TerrainSetConfig;
use crate::terrain::{find_terrain, terrain_named, TerrainId};
use crate::token::find_byte;

verus! {

/// Why a drawing cannot be used.
#[derive(Clone, Copy, Debug, PartialEq, Eq, Structural)]
pub enum ImageError {
    /// The name of the file names more than three terrains.
    TooManyTerrains,
    /// The name at `part` of the name of the file is that of no terrain.
    UnknownTerrain { part: usize },
    /// The drawing has not the size of the parts that it must hold.
    WrongSize { expected_width: u32, expected_height: u64 },
}

/// White space that does not belong to a name.
#[verifier::allow_in_spec]
pub fn is_blank(b: u8) -> bool
    returns
        b == SPACE || (9 <= b && b <= 13),
{
    b == SPACE || (9 <= b && b <= 13)
}

/// Where the name begins that stands between `from` and `to`: behind the white space
/// before it.
pub open spec fn name_start(s: Seq<u8>, from: int, to: int) -> int
    decreases to - from,
{
    if from < to && 0 <= from < s.len() && is_blank(s[from]) {
        name_start(s, from + 1, to)
    } else {
        from
    }
}

/// Where the name ends that stands between `from` and `to`: before the white space
/// behind it.
pub open spec fn name_end(s: Seq<u8>, from: int, to: int) -> int
    decreases to - from,
{
    if from < to && 0 < to <= s.len() && is_blank(s[to - 1]) {
        name_end(s, from, to - 1)
    } else {
        to
    }
}

/// The name that stands between `from` and `to`, without the white space around it.
pub open spec fn name_between(s: Seq<u8>, from: int, to: int) -> Seq<u8> {
    let start = name_start(s, from, to);
    s.subrange(start, name_end(s, start, to))
}

/// The names of which the name of a drawing is made: the parts between its hyphens,
/// of which there are three at most.
pub open spec fn names_of_stem(stem: Seq<u8>) -> Result<Seq<Seq<u8>>, ImageError> {
    let first = find_byte(stem, 0, MINUS);
    let second = find_byte(stem, first + 1, MINUS);
    let third = find_byte(stem, second + 1, MINUS);
    if first >= stem.len() {
        Ok(seq![name_between(stem, 0, first)])
    } else if second >= stem.len() {
        Ok(seq![name_between(stem, 0, first), name_between(stem, first + 1, second)])
    } else if third >= stem.len() {
        Ok(
            seq![
                name_between(stem, 0, first),
                name_between(stem, first + 1, second),
                name_between(stem, second + 1, third),
            ],
        )
    } else {
        Err(ImageError::TooManyTerrains)
    }
}

/// The first hyphen at or after `from`, or the end of `s`.
fn find_hyphen(s: &[u8], from: usize) -> (r: usize)
    requires
        from <= s@.len(),
    ensures
        r == find_byte(s@, from as int, MINUS),
        from <= r <= s@.len(),
{
    let mut i: usize = from;
    while i < s.len() && s[i] != MINUS
        invariant
            from <= i <= s@.len(),
            find_byte(s@, i as int, MINUS) == find_byte(s@, from as int, MINUS),
        decreases s@.len() - i,
    {
        i = i + 1;
    }
    i
}

/// The name that stands between `from` and `to`.
fn name_of(s: &[u8], from: usize, to: usize) -> (r: Vec<u8>)
    requires
        from <= to <= s@.len(),
    ensures
        r@ == name_between(s@, from as int, to as int),
{
    let mut start: usize = from;
    while start < to && is_blank(s[start])
        invariant
            from <= start <= to <= s@.len(),
            name_start(s@, start as int, to as int) == name_start(s@, from as int, to as int),
        decreases to - start,
    {
        start = start + 1;
    }
    let mut end: usize = to;
    while start < end && is_blank(s[end - 1])
        invariant
            start <= end <= to <= s@.len(),
            name_end(s@, start as int, end as int) == name_end(s@, start as int, to as int),
        decreases end - start,
    {
        end = end - 1;
    }
    copy_bytes(&s[start..end])
}

/// The names of the terrains that the drawing with the file name `stem` is for.
pub fn terrain_names(stem: &[u8]) -> (r: Result<Vec<Vec<u8>>, ImageError>)
    ensures
        match names_of_stem(stem@) {
            Ok(names) => r matches Ok(v) && v.deep_view() == names,
            Err(e) => r == Err::<Vec<Vec<u8>>, ImageError>(e),
        },
{
    let mut names: Vec<Vec<u8>> = Vec::new();
    let first = find_hyphen(stem, 0);
    names.push(name_of(stem, 0, first));
    if first < stem.len() {
        let second = find_hyphen(stem, first + 1);
        names.push(name_of(stem, first + 1, second));
        if second < stem.len() {
            let third = find_hyphen(stem, second + 1);
            names.push(name_of(stem, second + 1, third));
            if third < stem.len() {
                return Err(ImageError::TooManyTerrains);
            }
        }
    }
    assert(names.deep_view() =~= names_of_stem(stem@)->Ok_0) by {
        assert forall|i: int| 0 <= i < names@.len() implies #[trigger] names.deep_view()[i]
            =~= names@[i]@ by {}
    }
    Ok(names)
}

/// The terrains of the first `count` names, each found by its name.
pub open spec fn terrains_named(sets: Seq<Seq<Seq<u8>>>, names: Seq<Seq<u8>>, count: int) -> Result<
    Seq<TerrainId>,
    ImageError,
>
    decreases count,
{
    if count <= 0 {
        Ok(Seq::empty())
    } else {
        match terrains_named(sets, names, count - 1) {
            Err(e) => Err(e),
            Ok(found) => match terrain_named(sets, names[count - 1], 0) {
                Some(terrain) => Ok(found.push(terrain)),
                None => Err(ImageError::UnknownTerrain { part: (count - 1) as usize }),
            },
        }
    }
}

/// A name that is that of no terrain fails all the names.
pub proof fn lemma_terrains_named_fails(
    sets: Seq<Seq<Seq<u8>>>,
    names: Seq<Seq<u8>>,
    failed: int,
    count: int,
)
    requires
        0 <= failed <= count,
        terrains_named(sets, names, failed) is Err,
    ensures
        terrains_named(sets, names, count) == terrains_named(sets, names, failed),
    decreases count - failed,
{
    if failed < count {
        lemma_terrains_named_fails(sets, names, failed, count - 1);
    }
}

/// Whether all bytes are below 128.
pub open spec fn is_ascii(s: Seq<u8>) -> bool {
    forall|i: int| 0 <= i < s.len() ==> #[trigger] s[i] < 128
}

/// The terrains that the drawing with the file name `stem` is for: no drawing of
/// terrains where the name is not written in ASCII or is `mask`; else the terrains named
/// between the hyphens of the name, the terrain of the tile first.
pub open spec fn terrains_of_stem(sets: Seq<Seq<Seq<u8>>>, stem: Seq<u8>) -> Result<
    Option<Seq<TerrainId>>,
    ImageError,
> {
    if !is_ascii(stem) || stem == text("mask") {
        Ok(None)
    } else {
        match names_of_stem(stem) {
            Err(e) => Err(e),
            Ok(names) => match terrains_named(sets, names, names.len() as int) {
                Err(e) => Err(e),
                Ok(found) => Ok(Some(found)),
            },
        }
    }
}

/// Whether all bytes are below 128.
fn all_ascii(s: &[u8]) -> (r: bool)
    ensures
        r == is_ascii(s@),
{
    let mut i: usize = 0;
    while i < s.len()
        invariant
            i <= s@.len(),
            forall|k: int| 0 <= k < i ==> #[trigger] s@[k] < 128,
        decreases s@.len() - i,
    {
        if s[i] >= 128 {
            return false;
        }
        i = i + 1;
    }
    true
}

/// The terrains that the drawing with the file name `stem` is for.
pub fn terrains_of_image(stem: &[u8], terrain_sets: &Vec<TerrainSetConfig>) -> (r: Result<
    Option<Vec<TerrainId>>,
    ImageError,
>)
    ensures
        match terrains_of_stem(terrain_sets.deep_view(), stem@) {
            Ok(Some(found)) => r matches Ok(Some(v)) && v@ == found,
            Ok(None) => r matches Ok(None),
            Err(e) => r == Err::<Option<Vec<TerrainId>>, ImageError>(e),
        },
        r matches Ok(Some(v)) ==> 1 <= v@.len() <= 3,
{
    if !all_ascii(stem) || is_text(stem, "mask") {
        return Ok(None);
    }
    let names = match terrain_names(stem) {
        Err(e) => {
            return Err(e);
        },
        Ok(names) => names,
    };
    let ghost sets = terrain_sets.deep_view();
    let ghost all = names.deep_view();
    let mut found: Vec<TerrainId> = Vec::new();
    let mut i: usize = 0;
    while i < names.len()
        invariant
            i <= names.len(),
            all == names.deep_view(),
            all.len() == names@.len(),
            sets == terrain_sets.deep_view(),
            terrains_named(sets, all, i as int) == Ok::<Seq<TerrainId>, ImageError>(found@),
            found@.len() == i,
            1 <= all.len() <= 3,
            terrains_of_stem(sets, stem@) == (match terrains_named(sets, all, all.len() as int) {
                Err(e) => Err::<Option<Seq<TerrainId>>, ImageError>(e),
                Ok(found) => Ok::<Option<Seq<TerrainId>>, ImageError>(Some(found)),
            }),
        decreases names.len() - i,
    {
        assert(all[i as int] =~= names@[i as int]@);
        match find_terrain(names[i].as_slice(), terrain_sets) {
            None => {
                proof {
                    lemma_terrains_named_fails(sets, all, i + 1, all.len() as int);
                }
                return Err(ImageError::UnknownTerrain { part: i });
            },
            Some(terrain) => {
                found.push(terrain);
            },
        }
        i = i + 1;
    }
    Ok(Some(found))
}

/// How many parts the drawing for `count` terrains holds, one below the other: four
/// for one or two terrains, two for three.
pub open spec fn parts_of_image(count: int) -> int {
    if count >= 3 {
        2
    } else {
        4
    }
}

/// Whether the drawing is for terrains of one set.
pub open spec fn of_one_set(terrains: Seq<TerrainId>) -> bool {
    forall|i: int|
        0 <= i < terrains.len() ==> (#[trigger] terrains[i]).terrain_set
            == terrains[0].terrain_set
}

/// Whether a drawing of `size` is used for `terrains`: not where the terrains are of
/// different sets; and a drawing that is used must be as wide as a tile and as high as its
/// parts.
pub fn image_is_used(terrains: &Vec<TerrainId>, size: [u32; 2], tile_size: [u32; 2]) -> (r: Result<
    bool,
    ImageError,
>)
    requires
        1 <= terrains@.len() <= 3,
    ensures
        match r {
            Ok(used) => used == of_one_set(terrains@) && (used ==> size[0] == tile_size[0]
                && size[1] == tile_size[1] * parts_of_image(terrains@.len() as int)),
            Err(e) => of_one_set(terrains@) && e == (ImageError::WrongSize {
                expected_width: tile_size[0],
                expected_height: (tile_size[1] * parts_of_image(terrains@.len() as int)) as u64,
            }) && !(size[0] == tile_size[0] && size[1] == tile_size[1] * parts_of_image(
                terrains@.len() as int,
            )),
        },
{
    let center = terrains[0];
    if terrains.len() > 1 && terrains[1].terrain_set != center.terrain_set {
        return Ok(false);
    }
    if terrains.len() > 2 && terrains[2].terrain_set != center.terrain_set {
        return Ok(false);
    }
    let parts: u64 = if terrains.len() >= 3 { 2 } else { 4 };
    let expected_height: u64 = tile_size[1] as u64 * parts;
    if size[0] != tile_size[0] || size[1] as u64 != expected_height {
        return Err(ImageError::WrongSize { expected_width: tile_size[0], expected_height });
    }
    Ok(true)
}

} // verus!
