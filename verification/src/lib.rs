//! Reading and writing of tile set resources in a game engine's text format.

pub mod arrangements;
pub mod ascii;
pub mod bytes;
pub mod config;
pub mod document;
pub mod double;
pub mod error;
pub mod images;
pub mod laws;
pub mod layout;
pub mod literal;
pub mod number;
pub mod parser;
pub mod path;
pub mod picture;
pub mod resource;
pub mod roundtrip;
pub mod terrain;
pub mod tiles;
pub mod token;
pub mod value;
pub mod writer;
