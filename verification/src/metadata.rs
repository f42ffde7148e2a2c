//! Metadata policy: an opaque serializable collaborator value.

use vstd::prelude::*;

use crate::node::Node;
use crate::node::NodeView;

verus! {

/// Metadata settings, carried and re-emitted whole.
pub struct Metadata {
    pub content: Node,
}

impl View for Metadata {
    type V = NodeView;

    open spec fn view(&self) -> NodeView {
        self.content@
    }
}

impl Metadata {
    pub fn new(content: Node) -> (r: Self)
        ensures
            r@ == content@,
    {
        Metadata { content }
    }
}

impl Clone for Metadata {
    fn clone(&self) -> (r: Self)
        ensures
            r@ == self@,
    {
        Metadata { content: self.content.clone() }
    }
}

} // verus!
