//! Output-selection filters: an opaque serializable collaborator value.

use vstd::prelude::*;

use crate::node::Node;
use crate::node::NodeView;

verus! {

/// The requested output artifacts, carried and re-emitted whole.
pub struct Selection {
    pub content: Node,
}

impl View for Selection {
    type V = NodeView;

    open spec fn view(&self) -> NodeView {
        self.content@
    }
}

impl Selection {
    pub fn new(content: Node) -> (r: Self)
        ensures
            r@ == content@,
    {
        Selection { content }
    }
}

impl Clone for Selection {
    fn clone(&self) -> (r: Self)
        ensures
            r@ == self@,
    {
        Selection { content: self.content.clone() }
    }
}

} // verus!
