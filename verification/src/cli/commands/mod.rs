//! The commands: their arguments and the computations they make.

pub mod convert;
pub mod extract;
pub mod filter;
pub mod info;
pub mod merge;
pub mod split;
pub mod stats;
pub mod tree;

pub use convert::ConvertArgs;
pub use extract::ExtractArgs;
pub use filter::FilterArgs;
pub use info::InfoArgs;
pub use merge::{MergeArgs, MergeOptions};
pub use split::SplitArgs;
pub use stats::StatsArgs;
pub use tree::TreeArgs;
