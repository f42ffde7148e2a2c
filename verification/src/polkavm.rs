//! Backend-specific tuning: an opaque serializable collaborator value that
//! normalization strips from the settings.

use vstd::prelude::*;

use crate::node::Node;
use crate::node::NodeView;

verus! {

/// Backend tuning, carried and re-emitted whole until `normalize` drops it.
pub struct PolkaVM {
    pub content: Node,
}

impl View for PolkaVM {
    type V = NodeView;

    open spec fn view(&self) -> NodeView {
        self.content@
    }
}

impl PolkaVM {
    pub fn new(content: Node) -> (r: Self)
        ensures
            r@ == content@,
    {
        PolkaVM { content }
    }
}

impl Clone for PolkaVM {
    fn clone(&self) -> (r: Self)
        ensures
            r@ == self@,
    {
        PolkaVM { content: self.content.clone() }
    }
}

} // verus!
