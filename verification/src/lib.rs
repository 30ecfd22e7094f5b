//! Path-based access to an in-memory hierarchical document of tables,
//! arrays and typed scalars.
//!
//! A document is a [`Node`] tree. A read pointer ([`TomlPtr`]) walks a
//! borrowed tree and extracts typed scalar values with a default; a write
//! pointer ([`TomlPtrMut`]) owns the tree while it is being edited and
//! applies narrowly-scoped mutations. Both pointers are either bound to a
//! node of the tree or empty, and once empty they stay empty through any
//! further chained operation.

pub mod laws;
pub mod model;
pub mod node;
pub mod path;
pub mod read;
pub mod write;

pub use node::Node;
pub use node::NodeView;
pub use path::build_path;
pub use path::parse_index;
pub use read::TomlPtr;
pub use write::TomlPtrMut;
