//! A tree of files and directories for a browser panel: entries that load
//! their children when they are expanded, a listing of the tree in display
//! order with a cursor into it, and the operations that expand, collapse,
//! find, take out and put in entries. Beside it, the box of keys that a
//! popup shows, and the toggle of a truth value in a text.
//!
//! Every function states what it does over the mathematical values of
//! [`model`], and the statements are proved. What the library takes on
//! trust from std and from unicode-width stands in [`text`] and [`snipe`],
//! each item with what it claims.

pub mod increment;
pub mod laws;
pub mod model;
pub mod node;
pub mod order;
pub mod replace;
pub mod rows;
pub mod search;
pub mod snipe;
pub mod text;
pub mod tree;

pub use node::FileTreeItem;
pub use snipe::Snipe;
pub use tree::FileTree;
