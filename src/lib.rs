//! Reassembles tab/newline-delimited field values from a byte stream that
//! arrives in arbitrarily cut chunks.

pub mod assembler;
pub mod bytes_model;
pub mod drive;
pub mod laws;
pub mod tokenizer;

pub use assembler::{Action, BufferedValueStream, FullValue};
pub use drive::assemble_all;
pub use tokenizer::{Chunk, Value};

use vstd::prelude::*;

verus! {

/// The tables of the dataset whose dumps this library reads.
#[derive(Debug, PartialEq, Eq)]
pub enum Kind {
    TitlePrincipals,
    NameBasics,
    TitleAkas,
    TitleBasics,
    TitleCrew,
    TitleEpisode,
    TitleRatings,
}

} // verus!
