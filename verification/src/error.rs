use vstd::prelude::*;
use vstd::string::StringExecFns;

verus! {

/// What can go wrong when working with a [`crate::NodeGraph`].
///
/// `NodeAlreadyExists` and `EdgeError` are part of the vocabulary but no
/// operation of the graph returns them: inserting under a key that is already
/// in use replaces the node, and a missing endpoint is `NodeNotFound`.
#[derive(Debug)]
pub enum NodeGraphError {
    NodeAlreadyExists,
    NodeNotFound,
    EdgeError,
    SerializationError(String),
    DeserializationError(String),
}

/// The fixed part of the text that describes each error.
pub open spec fn error_prefix(e: NodeGraphError) -> Seq<char> {
    match e {
        NodeGraphError::NodeAlreadyExists => "Node with this ID already exists"@,
        NodeGraphError::NodeNotFound => "Node with this ID does not exist"@,
        NodeGraphError::EdgeError => "One of the node IDs does not exist"@,
        NodeGraphError::SerializationError(_) => "Serialization error: "@,
        NodeGraphError::DeserializationError(_) => "Deserialization error: "@,
    }
}

/// The full text that describes an error: its prefix, followed by the
/// carried message where there is one.
pub open spec fn error_text(e: NodeGraphError) -> Seq<char> {
    match e {
        NodeGraphError::SerializationError(m) => error_prefix(e) + m@,
        NodeGraphError::DeserializationError(m) => error_prefix(e) + m@,
        _ => error_prefix(e),
    }
}

impl NodeGraphError {
    /// The human-readable description of the error.
    pub fn message(&self) -> (text: String)
        ensures
            text@ == error_text(*self),
    {
        match self {
            NodeGraphError::NodeAlreadyExists => "Node with this ID already exists".to_owned(),
            NodeGraphError::NodeNotFound => "Node with this ID does not exist".to_owned(),
            NodeGraphError::EdgeError => "One of the node IDs does not exist".to_owned(),
            NodeGraphError::SerializationError(m) => {
                let mut text = "Serialization error: ".to_owned();
                text.append(m.as_str());
                text
            },
            NodeGraphError::DeserializationError(m) => {
                let mut text = "Deserialization error: ".to_owned();
                text.append(m.as_str());
                text
            },
        }
    }
}

} // verus!
