//! Terrains: how they are found by name and how they surround a tile.

use vstd::prelude::*;
use crate::arrangements::{
    are_places, combinations, combinations_of, is_permutation, permutations, products, products_of,
};
use crate::bytes::bytes_eq;
use crate::config::TerrainSetConfig;
use crate::document::{lemma_deep_view_prefix, lemma_deep_view_push};
use crate::resource::PeeringBit;

verus! {

/// A terrain, by the place of its set and its place in the set.
#[derive(Clone, Copy, PartialEq, Eq, Hash, Debug, Structural)]
pub struct TerrainId {
    pub terrain_set: usize,
    pub terrain: usize,
}

impl View for TerrainId {
    type V = TerrainId;

    open spec fn view(&self) -> TerrainId {
        *self
    }
}

impl DeepView for TerrainId {
    type V = TerrainId;

    open spec fn deep_view(&self) -> TerrainId {
        *self
    }
}

/// The terrains that meet at one corner of a tile: the terrain of the tile itself first,
/// then the terrains of the two sides at the corner. A side without terrain adds nothing,
/// and where no side differs from the tile, the tile's terrain stands alone.
pub open spec fn terrain_combination(
    center: TerrainId,
    side1: Option<TerrainId>,
    side2: Option<TerrainId>,
) -> Seq<TerrainId> {
    match (side1, side2) {
        (None, None) => seq![center],
        (None, Some(other)) => if other == center {
            seq![center]
        } else {
            seq![center, other]
        },
        (Some(other), None) => if other == center {
            seq![center]
        } else {
            seq![center, other]
        },
        (Some(other1), Some(other2)) => if other1 == center && other2 == center {
            seq![center]
        } else {
            seq![center, other1, other2]
        },
    }
}

/// The terrains that meet at the corner between two sides of a tile.
pub fn get_terrain_combination(
    center_terrain: TerrainId,
    side1: Option<TerrainId>,
    side2: Option<TerrainId>,
) -> (r: Vec<TerrainId>)
    ensures
        r@ == terrain_combination(center_terrain, side1, side2),
{
    let mut combination: Vec<TerrainId> = Vec::new();
    combination.push(center_terrain);
    match (side1, side2) {
        (None, None) => {},
        (None, Some(other)) => {
            if other != center_terrain {
                combination.push(other);
            }
        },
        (Some(other), None) => {
            if other != center_terrain {
                combination.push(other);
            }
        },
        (Some(other1), Some(other2)) => {
            if other1 != center_terrain || other2 != center_terrain {
                combination.push(other1);
                combination.push(other2);
            }
        },
    }
    assert(combination@ =~= terrain_combination(center_terrain, side1, side2));
    combination
}

/// The place of the first terrain named `name` at or after `from` in a set.
pub open spec fn position_in_set(names: Seq<Seq<u8>>, name: Seq<u8>, from: int) -> Option<int>
    decreases names.len() - from,
{
    if from < 0 || from >= names.len() {
        None
    } else if names[from] == name {
        Some(from)
    } else {
        position_in_set(names, name, from + 1)
    }
}

/// The terrain named `name` in the first set, at or after `from`, that has one.
pub open spec fn terrain_named(sets: Seq<Seq<Seq<u8>>>, name: Seq<u8>, from: int) -> Option<
    TerrainId,
>
    decreases sets.len() - from,
{
    if from < 0 || from >= sets.len() {
        None
    } else {
        match position_in_set(sets[from], name, 0) {
            Some(k) => Some(TerrainId { terrain_set: from as usize, terrain: k as usize }),
            None => terrain_named(sets, name, from + 1),
        }
    }
}

/// The place of the first terrain named `name` in a set.
fn find_in_set(terrain_set: &TerrainSetConfig, name: &[u8]) -> (r: Option<usize>)
    ensures
        match r {
            Some(k) => position_in_set(terrain_set@, name@, 0) == Some(k as int),
            None => position_in_set(terrain_set@, name@, 0) is None,
        },
{
    proof {
        lemma_deep_view_prefix(terrain_set.terrains, 0);
    }
    let mut k: usize = 0;
    while k < terrain_set.terrains.len()
        invariant
            k <= terrain_set.terrains.len(),
            terrain_set@.len() == terrain_set.terrains@.len(),
            forall|i: int|
                0 <= i < terrain_set.terrains@.len() ==> terrain_set@[i]
                    == #[trigger] terrain_set.terrains@[i]@,
            position_in_set(terrain_set@, name@, k as int) == position_in_set(
                terrain_set@,
                name@,
                0,
            ),
        decreases terrain_set.terrains.len() - k,
    {
        let terrain = &terrain_set.terrains[k];
        assert(terrain_set@[k as int] == terrain@);
        if bytes_eq(terrain.name.as_slice(), name) {
            return Some(k);
        }
        k = k + 1;
    }
    None
}

/// Finds a terrain by its name: in the first set that has a terrain of this name, the
/// first terrain of this name.
pub fn find_terrain(name: &[u8], terrain_sets: &Vec<TerrainSetConfig>) -> (r: Option<TerrainId>)
    ensures
        r == terrain_named(terrain_sets.deep_view(), name@, 0),
{
    let ghost sets = terrain_sets.deep_view();
    proof {
        lemma_deep_view_prefix(*terrain_sets, 0);
    }
    let mut set: usize = 0;
    while set < terrain_sets.len()
        invariant
            set <= terrain_sets.len(),
            sets == terrain_sets.deep_view(),
            sets.len() == terrain_sets@.len(),
            forall|i: int| 0 <= i < terrain_sets@.len() ==> sets[i] == #[trigger] terrain_sets@[i]@,
            terrain_named(sets, name@, set as int) == terrain_named(sets, name@, 0),
        decreases terrain_sets.len() - set,
    {
        let terrain_set = &terrain_sets[set];
        assert(sets[set as int] == terrain_set@);
        match find_in_set(terrain_set, name) {
            Some(terrain) => {
                return Some(TerrainId { terrain_set: set, terrain });
            },
            None => {},
        }
        set = set + 1;
    }
    None
}

/// The terrain index of a side, as the resource file holds it: the low 32 bits of the
/// terrain's place in its set.
pub open spec fn side_terrain(side: Option<TerrainId>) -> Option<u32> {
    match side {
        Some(t) => Some(t.terrain as u32),
        None => None,
    }
}

/// The terrain index of a side.
fn side_index(side: Option<TerrainId>) -> (r: Option<u32>)
    ensures
        r == side_terrain(side),
{
    match side {
        Some(t) => Some(#[verifier::truncate] (t.terrain as u32)),
        None => None,
    }
}

/// The neighbour terrains of a tile from its six sides, which are given clockwise from
/// the top left.
pub fn sides_to_peering_bit(sides: &[Option<TerrainId>]) -> (r: PeeringBit)
    requires
        sides@.len() == 6,
    ensures
        r == (PeeringBit {
            top_left_side: side_terrain(sides@[0]),
            top_side: side_terrain(sides@[1]),
            top_right_side: side_terrain(sides@[2]),
            bottom_right_side: side_terrain(sides@[3]),
            bottom_side: side_terrain(sides@[4]),
            bottom_left_side: side_terrain(sides@[5]),
        }),
{
    PeeringBit {
        top_left_side: side_index(sides[0]),
        top_side: side_index(sides[1]),
        top_right_side: side_index(sides[2]),
        bottom_right_side: side_index(sides[3]),
        bottom_side: side_index(sides[4]),
        bottom_left_side: side_index(sides[5]),
    }
}


/// Whether two lists of terrains are the same.
pub fn same_terrains(a: &[TerrainId], b: &[TerrainId]) -> (r: bool)
    ensures
        r == (a@ == b@),
{
    if a.len() != b.len() {
        return false;
    }
    let mut i: usize = 0;
    while i < a.len()
        invariant
            i <= a.len(),
            a.len() == b.len(),
            forall|k: int| 0 <= k < i ==> a@[k] == b@[k],
        decreases a.len() - i,
    {
        if a[i] != b[i] {
            return false;
        }
        i = i + 1;
    }
    assert(a@ =~= b@);
    true
}

/// The place of the first image at or after `from` that is drawn for `combination`.
pub open spec fn image_position(
    images: Seq<Seq<TerrainId>>,
    combination: Seq<TerrainId>,
    from: int,
) -> Option<int>
    decreases images.len() - from,
{
    if from < 0 || from >= images.len() {
        None
    } else if images[from] == combination {
        Some(from)
    } else {
        image_position(images, combination, from + 1)
    }
}

/// An image is found at or after `from` exactly where one stands there.
pub proof fn lemma_image_position_from(
    images: Seq<Seq<TerrainId>>,
    combination: Seq<TerrainId>,
    from: int,
)
    requires
        0 <= from,
    ensures
        image_position(images, combination, from) is Some <==> exists|i: int|
            from <= i < images.len() && #[trigger] images[i] == combination,
    decreases images.len() - from,
{
    if from < images.len() {
        lemma_image_position_from(images, combination, from + 1);
        if images[from] != combination {
            if exists|i: int| from <= i < images.len() && #[trigger] images[i] == combination {
                let i = choose|i: int|
                    from <= i < images.len() && #[trigger] images[i] == combination;
                assert(from + 1 <= i);
            }
        }
    }
}

/// An image is found exactly where one is among the images.
pub proof fn lemma_image_position(images: Seq<Seq<TerrainId>>, combination: Seq<TerrainId>)
    ensures
        image_position(images, combination, 0) is Some <==> images.contains(combination),
{
    lemma_image_position_from(images, combination, 0);
    if images.contains(combination) {
        let i = choose|i: int| 0 <= i < images.len() && images[i] == combination;
        assert(images[i] == combination);
    }
    if image_position(images, combination, 0) is Some {
        let i = choose|i: int| 0 <= i < images.len() && #[trigger] images[i] == combination;
        assert(images.contains(combination));
    }
}

/// Finds the image that is drawn for `combination`, each image given by the terrains
/// that it is drawn for: the place of the first such image. The flag that comes with it
/// says whether the image was found for the terrains in another order, which never is so.
pub fn find_image_for_combination(images: &Vec<Vec<TerrainId>>, combination: &Vec<TerrainId>) -> (r:
    Option<(usize, bool)>)
    ensures
        match r {
            Some((place, swapped)) => !swapped && place < images@.len() && image_position(
                images.deep_view(),
                combination@,
                0,
            ) == Some(place as int),
            None => image_position(images.deep_view(), combination@, 0) is None,
        },
{
    proof {
        lemma_deep_view_prefix(*images, 0);
    }
    let mut i: usize = 0;
    while i < images.len()
        invariant
            i <= images.len(),
            images.deep_view().len() == images@.len(),
            forall|k: int|
                0 <= k < images@.len() ==> images.deep_view()[k]
                    == #[trigger] images@[k].deep_view(),
            image_position(images.deep_view(), combination@, i as int) == image_position(
                images.deep_view(),
                combination@,
                0,
            ),
        decreases images.len() - i,
    {
        assert(images.deep_view()[i as int] == images@[i as int].deep_view());
        assert(images@[i as int].deep_view() =~= images@[i as int]@);
        if same_terrains(images[i].as_slice(), combination.as_slice()) {
            return Some((i, false));
        }
        i = i + 1;
    }
    None
}

/// Whether an image is drawn for `combination`.
pub fn has_image(images: &Vec<Vec<TerrainId>>, combination: &Vec<TerrainId>) -> (r: bool)
    ensures
        r == images.deep_view().contains(combination@),
{
    proof {
        lemma_image_position(images.deep_view(), combination@);
    }
    find_image_for_combination(images, combination).is_some()
}

/// The terrains of `combination` at the places `p`.
pub open spec fn terrains_at(combination: Seq<TerrainId>, p: Seq<usize>) -> Seq<TerrainId> {
    Seq::new(p.len(), |a: int| combination[p[a] as int])
}

/// Whether an image is drawn for some `k` of the terrains of `combination`, taken in
/// some order.
pub open spec fn has_transition(
    images: Seq<Seq<TerrainId>>,
    combination: Seq<TerrainId>,
    k: nat,
) -> bool {
    exists|p: Seq<usize>|
        is_permutation(p, combination.len(), k) && images.contains(
            #[trigger] terrains_at(combination, p),
        )
}

/// Whether the images that a combination of terrains needs are there: one for its first
/// terrain alone; with two terrains and more, one for some two of them; with three
/// terrains and more, one for some three of them.
pub open spec fn images_cover(images: Seq<Seq<TerrainId>>, combination: Seq<TerrainId>) -> bool {
    &&& combination.len() >= 1 && images.contains(seq![combination[0]])
    &&& combination.len() >= 2 ==> has_transition(images, combination, 2)
    &&& combination.len() >= 3 ==> has_transition(images, combination, 3)
}

/// The terrains of `combination` at the places `places`.
fn pick(combination: &Vec<TerrainId>, places: &Vec<usize>) -> (r: Vec<TerrainId>)
    requires
        forall|a: int| 0 <= a < places@.len() ==> #[trigger] places@[a] < combination@.len(),
    ensures
        r@ == terrains_at(combination@, places@),
{
    let mut picked: Vec<TerrainId> = Vec::new();
    let mut a: usize = 0;
    while a < places.len()
        invariant
            a <= places.len(),
            forall|b: int| 0 <= b < places@.len() ==> #[trigger] places@[b] < combination@.len(),
            picked@.len() == a,
            forall|b: int| 0 <= b < a ==> picked@[b] == combination@[places@[b] as int],
        decreases places.len() - a,
    {
        picked.push(combination[places[a]]);
        a = a + 1;
    }
    assert(picked@ =~= terrains_at(combination@, places@));
    picked
}

/// Whether an image is drawn for some `k` of the terrains of `combination`.
fn find_transition(images: &Vec<Vec<TerrainId>>, combination: &Vec<TerrainId>, k: usize) -> (r:
    bool)
    requires
        k <= 3,
    ensures
        r == has_transition(images.deep_view(), combination@, k as nat),
{
    let orders = permutations(combination.len(), k);
    let ghost all = orders.deep_view();
    let ghost n = combination@.len();
    proof {
        lemma_deep_view_prefix(orders, 0);
    }
    let mut m: usize = 0;
    while m < orders.len()
        invariant
            m <= orders.len(),
            all == orders.deep_view(),
            all.len() == orders@.len(),
            n == combination@.len(),
            forall|i: int| 0 <= i < orders@.len() ==> all[i] == #[trigger] orders@[i].deep_view(),
            forall|p: Seq<usize>| #[trigger] all.contains(p) <==> is_permutation(p, n, k as nat),
            forall|i: int|
                0 <= i < m ==> !images.deep_view().contains(
                    terrains_at(combination@, #[trigger] all[i]),
                ),
        decreases orders.len() - m,
    {
        let places = &orders[m];
        proof {
            assert(all[m as int] == places.deep_view());
            assert(places.deep_view() =~= places@);
            assert(all.contains(all[m as int]));
            assert(is_permutation(places@, n, k as nat));
        }
        let picked = pick(combination, places);
        if has_image(images, &picked) {
            return true;
        }
        m = m + 1;
    }
    proof {
        if has_transition(images.deep_view(), combination@, k as nat) {
            let p = choose|p: Seq<usize>|
                is_permutation(p, n, k as nat) && images.deep_view().contains(
                    #[trigger] terrains_at(combination@, p),
                );
            assert(all.contains(p));
            let i = choose|i: int| 0 <= i < all.len() && all[i] == p;
            assert(!images.deep_view().contains(terrains_at(combination@, all[i])));
        }
    }
    false
}

/// Whether the images that `combination` needs are among `images`, each image given by
/// the terrains that it is drawn for.
pub fn has_images_for_combination(images: &Vec<Vec<TerrainId>>, combination: &Vec<TerrainId>) -> (r:
    bool)
    ensures
        r == images_cover(images.deep_view(), combination@),
{
    if combination.len() == 0 {
        return false;
    }
    let mut first: Vec<TerrainId> = Vec::new();
    first.push(combination[0]);
    assert(first@ =~= seq![combination@[0]]);
    let matches_one_to_any = has_image(images, &first);
    let matches_one_to_one = combination.len() < 2 || find_transition(images, combination, 2);
    let matches_one_to_two = combination.len() < 3 || find_transition(images, combination, 3);
    matches_one_to_any && matches_one_to_one && matches_one_to_two
}

/// The terrains of the set at `set` at the places `p`.
pub open spec fn terrains_of_set(set: int, p: Seq<usize>) -> Seq<TerrainId> {
    Seq::new(p.len(), |a: int| TerrainId { terrain_set: set as usize, terrain: p[a] })
}

/// Of the first `count` of `choices`, the combinations of terrains of the set at `set`
/// that have their images.
pub open spec fn kept_combinations(
    images: Seq<Seq<TerrainId>>,
    set: int,
    choices: Seq<Seq<usize>>,
    count: int,
) -> Seq<Seq<TerrainId>>
    decreases count,
{
    if count <= 0 {
        Seq::empty()
    } else {
        let before = kept_combinations(images, set, choices, count - 1);
        let combination = terrains_of_set(set, choices[count - 1]);
        if images_cover(images, combination) {
            before.push(combination)
        } else {
            before
        }
    }
}

/// The combinations of up to `longest` terrains of a set of `size` terrains that have
/// their images, the shorter ones first.
pub open spec fn combinations_of_set(
    images: Seq<Seq<TerrainId>>,
    set: int,
    size: nat,
    longest: int,
) -> Seq<Seq<TerrainId>>
    decreases longest,
{
    if longest <= 0 {
        Seq::empty()
    } else {
        let choices = combinations_of(size, longest as nat);
        combinations_of_set(images, set, size, longest - 1) + kept_combinations(
            images,
            set,
            choices,
            choices.len() as int,
        )
    }
}

/// The combinations of terrains of the first `count` sets that have their images. A
/// hexagon has six neighbours, so that no more than seven terrains meet at a tile.
pub open spec fn possible_combinations(
    images: Seq<Seq<TerrainId>>,
    sets: Seq<Seq<Seq<u8>>>,
    count: int,
) -> Seq<Seq<TerrainId>>
    decreases count,
{
    if count <= 0 {
        Seq::empty()
    } else {
        possible_combinations(images, sets, count - 1) + combinations_of_set(
            images,
            count - 1,
            sets[count - 1].len(),
            7,
        )
    }
}

/// A combination of terrains that tiles can be made of: one to seven terrains of one
/// of the sets, in the order of the set, with their images.
pub open spec fn is_possible_combination(
    images: Seq<Seq<TerrainId>>,
    sets: Seq<Seq<Seq<u8>>>,
    combination: Seq<TerrainId>,
) -> bool {
    &&& 1 <= combination.len() <= 7
    &&& combination[0].terrain_set < sets.len()
    &&& forall|a: int|
        0 <= a < combination.len() ==> (#[trigger] combination[a]).terrain_set
            == combination[0].terrain_set && combination[a].terrain
            < sets[combination[0].terrain_set as int].len()
    &&& forall|a: int, b: int|
        0 <= a < b < combination.len() ==> combination[a].terrain < combination[b].terrain
    &&& images_cover(images, combination)
}

/// The terrains of the set at `set` at the places `places`.
fn pick_of_set(set: usize, places: &Vec<usize>) -> (r: Vec<TerrainId>)
    ensures
        r@ == terrains_of_set(set as int, places@),
{
    let mut picked: Vec<TerrainId> = Vec::new();
    let mut a: usize = 0;
    while a < places.len()
        invariant
            a <= places.len(),
            picked@.len() == a,
            forall|b: int|
                0 <= b < a ==> picked@[b] == (TerrainId { terrain_set: set, terrain: places@[b] }),
        decreases places.len() - a,
    {
        picked.push(TerrainId { terrain_set: set, terrain: places[a] });
        a = a + 1;
    }
    assert(picked@ =~= terrains_of_set(set as int, places@));
    picked
}

/// Appends the combinations of `length` terrains of the set at `set` that have their
/// images.
fn push_combinations(
    found: &mut Vec<Vec<TerrainId>>,
    images: &Vec<Vec<TerrainId>>,
    set: usize,
    size: usize,
    length: usize,
    Ghost(sets): Ghost<Seq<Seq<Seq<u8>>>>,
)
    requires
        1 <= length <= 7,
        set < sets.len(),
        sets[set as int].len() == size,
        forall|k: int|
            0 <= k < old(found)@.len() ==> is_possible_combination(
                images.deep_view(),
                sets,
                #[trigger] old(found)@[k]@,
            ),
    ensures
        final(found).deep_view() == old(found).deep_view() + kept_combinations(
            images.deep_view(),
            set as int,
            combinations_of(size as nat, length as nat),
            combinations_of(size as nat, length as nat).len() as int,
        ),
        forall|k: int|
            0 <= k < final(found)@.len() ==> is_possible_combination(
                images.deep_view(),
                sets,
                #[trigger] final(found)@[k]@,
            ),
{
    let choices = combinations(size, length);
    let ghost all = choices.deep_view();
    let ghost before = found.deep_view();
    proof {
        lemma_deep_view_prefix(choices, 0);
    }
    let mut m: usize = 0;
    while m < choices.len()
        invariant
            m <= choices.len(),
            all == choices.deep_view(),
            all.len() == choices@.len(),
            forall|i: int| 0 <= i < choices@.len() ==> all[i] == #[trigger] choices@[i].deep_view(),
            found.deep_view() == before + kept_combinations(
                images.deep_view(),
                set as int,
                all,
                m as int,
            ),
            1 <= length <= 7,
            set < sets.len(),
            sets[set as int].len() == size,
            forall|p: Seq<usize>|
                #[trigger] all.contains(p) <==> crate::arrangements::is_combination(
                    p,
                    size as nat,
                    length as nat,
                ),
            forall|k: int|
                0 <= k < found@.len() ==> is_possible_combination(
                    images.deep_view(),
                    sets,
                    #[trigger] found@[k]@,
                ),
        decreases choices.len() - m,
    {
        let places = &choices[m];
        proof {
            assert(all[m as int] == places.deep_view());
            assert(places.deep_view() =~= places@);
            assert(all.contains(all[m as int]));
        }
        let combination = pick_of_set(set, places);
        if has_images_for_combination(images, &combination) {
            let ghost so_far = *found;
            assert(is_possible_combination(images.deep_view(), sets, combination@));
            found.push(combination);
            proof {
                lemma_deep_view_push(so_far, *found, combination);
                assert(combination.deep_view() =~= combination@);
                assert(found.deep_view() =~= before + kept_combinations(
                    images.deep_view(),
                    set as int,
                    all,
                    m + 1,
                ));
            }
        }
        m = m + 1;
    }
}

/// The combinations of terrains that tiles can be made of: for each set of terrains,
/// the combinations of one to seven of its terrains that have their images, each image
/// given by the terrains that it is drawn for.
pub fn find_combinations(terrain_sets: &Vec<TerrainSetConfig>, images: &Vec<Vec<TerrainId>>) -> (r:
    Vec<Vec<TerrainId>>)
    ensures
        r.deep_view() == possible_combinations(
            images.deep_view(),
            terrain_sets.deep_view(),
            terrain_sets@.len() as int,
        ),
        forall|k: int|
            0 <= k < r@.len() ==> is_possible_combination(
                images.deep_view(),
                terrain_sets.deep_view(),
                #[trigger] r@[k]@,
            ),
{
    let mut found: Vec<Vec<TerrainId>> = Vec::new();
    let ghost sets = terrain_sets.deep_view();
    proof {
        lemma_deep_view_prefix(*terrain_sets, 0);
        lemma_deep_view_prefix(found, 0);
        assert(found.deep_view() =~= Seq::empty());
    }
    let mut set: usize = 0;
    while set < terrain_sets.len()
        invariant
            set <= terrain_sets.len(),
            sets == terrain_sets.deep_view(),
            sets.len() == terrain_sets@.len(),
            forall|i: int| 0 <= i < terrain_sets@.len() ==> sets[i] == #[trigger] terrain_sets@[i]@,
            found.deep_view() == possible_combinations(images.deep_view(), sets, set as int),
            forall|k: int|
                0 <= k < found@.len() ==> is_possible_combination(
                    images.deep_view(),
                    sets,
                    #[trigger] found@[k]@,
                ),
        decreases terrain_sets.len() - set,
    {
        let size = terrain_sets[set].terrains.len();
        proof {
            assert(sets[set as int] == terrain_sets@[set as int]@);
            lemma_deep_view_prefix(terrain_sets@[set as int].terrains, 0);
            assert(sets[set as int].len() == size);
        }
        let ghost before = found.deep_view();
        let mut length: usize = 1;
        while length < 8
            invariant
                1 <= length <= 8,
                found.deep_view() == before + combinations_of_set(
                    images.deep_view(),
                    set as int,
                    size as nat,
                    length - 1,
                ),
                set < sets.len(),
                sets[set as int].len() == size,
                forall|k: int|
                    0 <= k < found@.len() ==> is_possible_combination(
                        images.deep_view(),
                        sets,
                        #[trigger] found@[k]@,
                    ),
            decreases 8 - length,
        {
            push_combinations(&mut found, images, set, size, length, Ghost(sets));
            assert(found.deep_view() =~= before + combinations_of_set(
                images.deep_view(),
                set as int,
                size as nat,
                length as int,
            ));
            length = length + 1;
        }
        assert(found.deep_view() =~= possible_combinations(images.deep_view(), sets, set + 1));
        set = set + 1;
    }
    found
}

/// Which part of an image is drawn at a side of a tile, where the terrains at the corner
/// are those of the tile alone: none where neither the side nor the next side has a
/// terrain; the last part where both have; else the first or the second part, by turns
/// from side to side.
pub open spec fn part_of_image(side: bool, next: bool, index: usize) -> Option<u32> {
    if side && next {
        Some(3u32)
    } else if side {
        Some((1 + index % 2) as u32)
    } else if next {
        Some((2 - index % 2) as u32)
    } else {
        None
    }
}

/// Which part of an image is drawn at the side at `index` of a tile. Only corners at
/// which the terrain of the tile stands alone are drawn.
pub fn sub_image_index(combination_len: usize, side: bool, next: bool, index: usize) -> (r:
    Option<u32>)
    requires
        combination_len == 1,
    ensures
        r == part_of_image(side, next, index),
{
    let turn: u32 = (index % 2) as u32;
    if side && next {
        Some(3)
    } else if side {
        Some(1 + turn)
    } else if next {
        Some(2 - turn)
    } else {
        None
    }
}


/// The terrain of a side by its choice: no terrain for the choice `0`, else the terrain
/// before the place of the choice.
pub open spec fn chosen_side(terrains: Seq<TerrainId>, choice: usize) -> Option<TerrainId> {
    if choice == 0 {
        None
    } else {
        Some(terrains[choice - 1])
    }
}

/// The terrains of the sides of a tile by the choices for its sides.
pub open spec fn chosen_sides(terrains: Seq<TerrainId>, choices: Seq<usize>) -> Seq<
    Option<TerrainId>,
> {
    Seq::new(choices.len(), |a: int| chosen_side(terrains, choices[a]))
}

/// Every way to give each of the six sides of a tile no terrain or one of `terrains`.
pub open spec fn all_sides(terrains: Seq<TerrainId>) -> Seq<Seq<Option<TerrainId>>> {
    let choices = products_of(terrains.len() + 1, 6);
    Seq::new(choices.len(), |m: int| chosen_sides(terrains, choices[m]))
}

/// Every way to give each of the six sides of a tile no terrain or one of `terrains`:
/// a tile is made for each.
pub fn side_assignments(terrains: &Vec<TerrainId>) -> (r: Vec<Vec<Option<TerrainId>>>)
    requires
        terrains@.len() < usize::MAX,
    ensures
        r@.len() == all_sides(terrains@).len(),
        forall|m: int| 0 <= m < r@.len() ==> (#[trigger] r@[m])@ == all_sides(terrains@)[m],
        forall|m: int| 0 <= m < r@.len() ==> (#[trigger] r@[m])@.len() == 6,
{
    let choices = products(terrains.len() + 1, 6);
    let ghost all = choices.deep_view();
    proof {
        lemma_deep_view_prefix(choices, 0);
    }
    let mut assignments: Vec<Vec<Option<TerrainId>>> = Vec::new();
    let mut m: usize = 0;
    while m < choices.len()
        invariant
            m <= choices.len(),
            all == choices.deep_view(),
            all == products_of((terrains@.len() + 1) as nat, 6),
            all.len() == choices@.len(),
            forall|i: int| 0 <= i < choices@.len() ==> all[i] == #[trigger] choices@[i].deep_view(),
            forall|p: Seq<usize>|
                #[trigger] all.contains(p) <==> are_places(p, (terrains@.len() + 1) as nat, 6),
            assignments@.len() == m,
            forall|i: int|
                0 <= i < m ==> (#[trigger] assignments@[i])@ == chosen_sides(terrains@, all[i]),
            forall|i: int| 0 <= i < m ==> (#[trigger] assignments@[i])@.len() == 6,
        decreases choices.len() - m,
    {
        let choice = &choices[m];
        proof {
            assert(all[m as int] == choice.deep_view());
            assert(choice.deep_view() =~= choice@);
            assert(all.contains(all[m as int]));
        }
        let mut sides: Vec<Option<TerrainId>> = Vec::new();
        let mut a: usize = 0;
        while a < choice.len()
            invariant
                a <= choice.len(),
                are_places(choice@, (terrains@.len() + 1) as nat, 6),
                sides@.len() == a,
                forall|b: int| 0 <= b < a ==> sides@[b] == chosen_side(terrains@, choice@[b]),
            decreases choice.len() - a,
        {
            let c = choice[a];
            if c == 0 {
                sides.push(None);
            } else {
                sides.push(Some(terrains[c - 1]));
            }
            a = a + 1;
        }
        assert(sides@ =~= chosen_sides(terrains@, choice@));
        assignments.push(sides);
        m = m + 1;
    }
    assignments
}

/// Why a corner of a tile cannot be drawn.
#[derive(Clone, Copy, Debug, PartialEq, Eq, Structural)]
pub enum CornerError {
    /// No image is drawn for the terrains at the corner at the side `side`.
    NoImage { side: usize },
    /// At the side `side` another terrain than that of the tile stands, for which the
    /// drawing of corners is not made.
    Unsupported { side: usize },
}

/// What is drawn at a side of a tile: the place of the image and the part of it.
pub type Corner = Option<(usize, u32)>;

/// What is drawn at the side `index` of a tile of the terrain `center`, between this
/// side and the next.
pub open spec fn corner_of(
    images: Seq<Seq<TerrainId>>,
    center: TerrainId,
    side: Option<TerrainId>,
    next: Option<TerrainId>,
    index: usize,
) -> Result<Corner, CornerError> {
    let combination = terrain_combination(center, side, next);
    match image_position(images, combination, 0) {
        None => Err(CornerError::NoImage { side: index }),
        Some(place) => if combination.len() != 1 {
            Err(CornerError::Unsupported { side: index })
        } else {
            match part_of_image(side is Some, next is Some, index) {
                None => Ok(None),
                Some(part) => Ok(Some((place as usize, part))),
            }
        },
    }
}

/// What is drawn at the side `index` of a tile of the terrain `center_terrain`, between
/// this side and the next: the place of the image among `images` and the part of it, or
/// nothing where neither side has a terrain.
pub fn tile_corner(
    images: &Vec<Vec<TerrainId>>,
    center_terrain: TerrainId,
    side: Option<TerrainId>,
    next: Option<TerrainId>,
    index: usize,
) -> (r: Result<Corner, CornerError>)
    ensures
        r == corner_of(images.deep_view(), center_terrain, side, next, index),
        r matches Ok(Some((place, part))) ==> place < images@.len() && part <= 3,
{
    let combination = get_terrain_combination(center_terrain, side, next);
    let place = match find_image_for_combination(images, &combination) {
        None => {
            return Err(CornerError::NoImage { side: index });
        },
        Some((place, _)) => place,
    };
    if combination.len() != 1 {
        return Err(CornerError::Unsupported { side: index });
    }
    match sub_image_index(combination.len(), side.is_some(), next.is_some(), index) {
        None => Ok(None),
        Some(part) => Ok(Some((place, part))),
    }
}

} // verus!
