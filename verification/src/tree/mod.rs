//! Tree structures for representing chess games.

pub mod game;
pub mod iter;
pub mod model;
pub mod node;
pub mod path;
pub mod san;

pub use game::{GameResult, GameTree, Headers, SevenTagRoster};
pub use iter::{DfsIter, MainLineIter};
pub use model::GameNode;
pub use path::{NodePath, PathSegment};
