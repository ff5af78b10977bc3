//! The document tree that styles are applied to.
use vstd::prelude::*;

verus! {

/// The data of one element: its tag name, its id (at most one) and its classes.
pub struct ElementData {
    pub tag_name: String,
    pub id: Option<String>,
    pub classes: Vec<String>,
}

pub enum NodeType {
    Element(ElementData),
    Text(String),
}

/// A node of the document tree, with its children in document order.
pub struct Node {
    pub children: Vec<Node>,
    pub node_type: NodeType,
}

impl ElementData {
    /// The element's id, if it has one.
    pub fn id(&self) -> (r: Option<&String>)
        ensures
            r == match self.id {
                Some(s) => Some(&s),
                None => None::<&String>,
            },
    {
        match &self.id {
            Some(s) => Some(s),
            None => None,
        }
    }

    /// The element's classes.
    pub fn classes(&self) -> (r: &Vec<String>)
        ensures
            r == &self.classes,
    {
        &self.classes
    }
}

} // verus!
