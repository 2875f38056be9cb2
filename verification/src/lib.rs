//! A radix-tree router for URL paths.
//!
//! Patterns such as `/users/:id` or `/files/*` are parsed into pieces
//! ([`parser`]) and stored in a radix tree ([`node`]); a path is matched
//! against the tree ([`find`]) and the captured parameters are handed back
//! with the route that matched.
pub mod bytes;
pub mod cloning;
pub mod drawing;
pub mod find;
pub mod find_laws;
pub mod find_path;
pub mod fresh;
pub mod height;
pub mod keep;
pub mod node;
pub mod order;
pub mod parser;
pub mod path;
pub mod pattern_laws;
pub mod router;
pub mod router_laws;
pub mod shape;
pub mod small;
pub mod text;
pub mod tree_laws;

pub use node::{Key, Node, NodeKind};
pub use parser::{Kind, Parser, Piece, Position};
pub use path::{ParamsIter, Path};
pub use router::PathTree;
pub use small::{Ranges, Raws};
