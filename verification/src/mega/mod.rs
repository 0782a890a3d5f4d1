//! The "structure brain": parse MEGA links, unwrap node keys and reconstruct
//! the folder tree with on-disk relative paths.

pub mod crypto;
pub mod folder;
pub mod link;
pub mod names;
pub mod order;
pub mod paths;

pub use folder::{NodeKind, Tree, TreeNode};
pub use link::{parse, MegaLink};
