//! Reading what was written: the proofs that the parser reads the text of the writer as the
//! values, tags and files that were written.

pub mod files;
pub mod tokens;
pub mod values;
pub mod words;
pub mod written;
