//! A directed graph whose nodes are addressed by caller-chosen keys, with
//! payloads on nodes and edges, backed by a `petgraph` stable graph; plus the
//! plain texture-layout arithmetic used by renderers built on top of it.

pub mod dot;
pub mod error;
pub mod key;
pub mod lemmas;
pub mod model;
pub mod nodegraph;
pub mod scene;
pub mod texture;
pub mod topology;

pub use crate::error::NodeGraphError;
pub use crate::key::NodeKey;
pub use crate::nodegraph::NodeGraph;

