//! An in-memory tree of directories and files, addressed by paths, with a
//! line-oriented text snapshot of the whole tree.

pub mod command;
pub mod error;
pub mod fs;
pub mod laws;
pub mod model;
pub mod node;
pub mod order;
pub mod path;
pub mod roundtrip;
pub mod snapshot;
pub mod text;

pub use command::{parse_command, Command};
pub use error::FsError;
pub use fs::FileSystem;
pub use node::{FsNode, NodeType};
pub use path::split_path;
