//! Choices of places: the combinations and the permutations of the places of a list.

use itertools::Itertools;
use vstd::prelude::*;

verus! {

/// Whether `p` holds `k` places of a list of `n` items.
pub open spec fn are_places(p: Seq<usize>, n: nat, k: nat) -> bool {
    p.len() == k && forall|a: int| 0 <= a < p.len() ==> #[trigger] p[a] < n
}

/// A combination: `k` places of a list of `n` items in rising order.
pub open spec fn is_combination(p: Seq<usize>, n: nat, k: nat) -> bool {
    are_places(p, n, k) && forall|a: int, b: int| 0 <= a < b < p.len() ==> p[a] < p[b]
}

/// A permutation: `k` places of a list of `n` items, no place twice.
pub open spec fn is_permutation(p: Seq<usize>, n: nat, k: nat) -> bool {
    are_places(p, n, k) && forall|a: int, b: int| 0 <= a < b < p.len() ==> p[a] != p[b]
}

/// The combinations of `k` of the places `0..n`, in the order in which
/// `Itertools::combinations` gives them.
pub uninterp spec fn combinations_of(n: nat, k: nat) -> Seq<Seq<usize>>;

/// The lists of `count` of the places `0..n`, a place as often as one likes, in the order
/// in which `Itertools::multi_cartesian_product` gives them.
pub uninterp spec fn products_of(n: nat, count: nat) -> Seq<Seq<usize>>;

/// `Itertools::multi_cartesian_product` on `count` times the places `0..n`: every list
/// of `count` places, and nothing else. The order of the lists is that of the outside
/// function. Long lists are left out: there would be too many of them.
#[verifier::external_body]
pub(crate) fn products(n: usize, count: usize) -> (r: Vec<Vec<usize>>)
    requires
        count <= 6,
    ensures
        r.deep_view() == products_of(n as nat, count as nat),
        forall|p: Seq<usize>|
            #[trigger] r.deep_view().contains(p) <==> are_places(p, n as nat, count as nat),
{
    itertools::repeat_n(0..n, count).multi_cartesian_product().collect()
}

/// `Itertools::combinations` on the places `0..n`: every choice of `k` places in rising
/// order, and nothing else. The order of the choices is that of the outside function.
/// Large choices are left out: there would be too many of them.
#[verifier::external_body]
pub(crate) fn combinations(n: usize, k: usize) -> (r: Vec<Vec<usize>>)
    requires
        k <= 7,
    ensures
        r.deep_view() == combinations_of(n as nat, k as nat),
        forall|p: Seq<usize>|
            #[trigger] r.deep_view().contains(p) <==> is_combination(p, n as nat, k as nat),
{
    (0..n).combinations(k).collect()
}

/// `Itertools::permutations` on the places `0..n`: every choice of `k` places in any
/// order without a place twice, and nothing else. Nothing is said of the order of the
/// choices. Large choices are left out: there would be too many of them.
#[verifier::external_body]
pub(crate) fn permutations(n: usize, k: usize) -> (r: Vec<Vec<usize>>)
    requires
        k <= 3,
    ensures
        forall|p: Seq<usize>|
            #[trigger] r.deep_view().contains(p) <==> is_permutation(p, n as nat, k as nat),
{
    (0..n).permutations(k).collect()
}

} // verus!
