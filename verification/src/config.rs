//! What the caller configures: the terrains by name.

use vstd::prelude::*;

verus! {

/// A terrain, known by its name.
#[derive(Clone, Debug, PartialEq, Eq)]
pub struct TerrainConfig {
    pub name: Vec<u8>,
}

/// A set of terrains; a terrain is known by its place in its set.
#[derive(Clone, Debug, PartialEq, Eq)]
pub struct TerrainSetConfig {
    pub terrains: Vec<TerrainConfig>,
}

impl View for TerrainConfig {
    type V = Seq<u8>;

    open spec fn view(&self) -> Seq<u8> {
        self.name@
    }
}

impl DeepView for TerrainConfig {
    type V = Seq<u8>;

    open spec fn deep_view(&self) -> Seq<u8> {
        self@
    }
}

impl View for TerrainSetConfig {
    type V = Seq<Seq<u8>>;

    /// The names of the terrains of the set, in their order.
    open spec fn view(&self) -> Seq<Seq<u8>> {
        self.terrains.deep_view()
    }
}

impl DeepView for TerrainSetConfig {
    type V = Seq<Seq<u8>>;

    open spec fn deep_view(&self) -> Seq<Seq<u8>> {
        self@
    }
}

} // verus!
