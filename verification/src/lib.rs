//! pgnq: parsing, manipulation and serialization of chess PGN files,
//! treating each game as a tree of moves.

pub mod cli;
pub mod error;
pub mod nag;
pub mod parser;
pub mod serializer;
pub mod readback;
pub mod report;
pub mod text;
pub mod tree;

pub use error::{Error, Result};
pub use nag::Nag;
pub use parser::{parse, parse_all};
pub use tree::{GameNode, GameResult, GameTree};
