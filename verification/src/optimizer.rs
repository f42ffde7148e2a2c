//! Optimizer configuration: an opaque collaborator of the settings
//! aggregate with its own normalization step.

use vstd::prelude::*;

use crate::node::fields_view;
use crate::node::lemma_fields_view_push;
use crate::node::obj_find;
use crate::node::obj_lookup;
use crate::node::Node;
use crate::node::NodeView;

verus! {

/// Optimizer settings. Only the fields the settings aggregate carries are
/// modelled; their meaning belongs to the optimizer itself.
#[derive(Clone, Copy, Debug)]
pub struct Optimizer {
    /// Whether optimization is switched on.
    pub enabled: Option<bool>,
    /// Backend-only knob; stripped when settings are normalized for a
    /// target that does not understand it.
    pub fallback_to_optimizing_for_size: Option<bool>,
}

/// The form `normalize` leaves an optimizer in: backend-only knobs reset,
/// unconditionally.
pub open spec fn normalized_optimizer(o: Optimizer) -> Optimizer {
    Optimizer { enabled: o.enabled, fallback_to_optimizing_for_size: None }
}

impl Optimizer {
    pub fn new(enabled: Option<bool>, fallback_to_optimizing_for_size: Option<bool>) -> (r: Self)
        ensures
            r.enabled == enabled,
            r.fallback_to_optimizing_for_size == fallback_to_optimizing_for_size,
    {
        Optimizer { enabled, fallback_to_optimizing_for_size }
    }

    /// Sets the defaults required before the settings go downstream: the
    /// backend-only knobs are cleared, whatever they held.
    pub fn normalize(&mut self)
        ensures
            *final(self) == normalized_optimizer(*old(self)),
    {
        self.fallback_to_optimizing_for_size = None;
    }
}

/// The document fields an optimizer serializes to: each present field under
/// its camel-case name, absent fields omitted.
pub open spec fn optimizer_fields(o: Optimizer) -> Seq<(Seq<char>, NodeView)> {
    let f0 = Seq::<(Seq<char>, NodeView)>::empty();
    let f1 = match o.enabled {
        Some(b) => f0.push(("enabled"@, NodeView::Boolean(b))),
        None => f0,
    };
    match o.fallback_to_optimizing_for_size {
        Some(b) => f1.push(("fallbackToOptimizingForSize"@, NodeView::Boolean(b))),
        None => f1,
    }
}

/// The document node of an optimizer.
pub open spec fn optimizer_doc(o: Optimizer) -> NodeView {
    NodeView::Object(optimizer_fields(o))
}

/// A field of an optimizer object read back: absent stays absent; only a
/// boolean value is accepted.
pub open spec fn bool_field(fs: Seq<(Seq<char>, NodeView)>, k: Seq<char>) -> Option<Option<bool>> {
    match obj_lookup(fs, k) {
        None => Some(None),
        Some(NodeView::Boolean(b)) => Some(Some(b)),
        Some(_) => None,
    }
}

/// What an optimizer object reads back as, if its fields are well-typed.
pub open spec fn optimizer_of_fields(fs: Seq<(Seq<char>, NodeView)>) -> Option<Optimizer> {
    match (bool_field(fs, "enabled"@), bool_field(fs, "fallbackToOptimizingForSize"@)) {
        (Some(en), Some(fb)) => Some(
            Optimizer { enabled: en, fallback_to_optimizing_for_size: fb },
        ),
        _ => None,
    }
}

impl Optimizer {
    /// Renders the optimizer as a document object.
    pub fn to_node(&self) -> (r: Node)
        ensures
            r@ == optimizer_doc(*self),
    {
        let mut fields: Vec<(String, Node)> = Vec::new();
        proof {
            assert(fields_view(fields@) =~= Seq::<(Seq<char>, NodeView)>::empty());
        }
        match self.enabled {
            Some(b) => {
                let ghost pre = fields@;
                let pair = ("enabled".to_owned(), Node::Boolean(b));
                fields.push(pair);
                proof {
                    lemma_fields_view_push(pre, pair);
                }
            },
            None => {},
        }
        match self.fallback_to_optimizing_for_size {
            Some(b) => {
                let ghost pre = fields@;
                let pair = ("fallbackToOptimizingForSize".to_owned(), Node::Boolean(b));
                fields.push(pair);
                proof {
                    lemma_fields_view_push(pre, pair);
                }
            },
            None => {},
        }
        let r = Node::Object(fields);
        proof {
            assert(fields_view(fields@) =~= optimizer_fields(*self));
        }
        r
    }

    /// Reads an optimizer back from the fields of a document object.
    pub fn from_fields(fields: &Vec<(String, Node)>) -> (r: Option<Optimizer>)
        ensures
            r == optimizer_of_fields(fields_view(fields@)),
    {
        let enabled = match obj_find(fields, "enabled") {
            None => None,
            Some(i) => match &fields[i].1 {
                Node::Boolean(b) => Some(*b),
                _ => {
                    return None;
                },
            },
        };
        let fallback = match obj_find(fields, "fallbackToOptimizingForSize") {
            None => None,
            Some(i) => match &fields[i].1 {
                Node::Boolean(b) => Some(*b),
                _ => {
                    return None;
                },
            },
        };
        Some(Optimizer { enabled, fallback_to_optimizing_for_size: fallback })
    }
}

/// An optimizer reads back from its own document unchanged.
pub proof fn lemma_optimizer_round_trip(o: Optimizer)
    ensures
        optimizer_of_fields(optimizer_fields(o)) == Some(o),
{
    reveal_strlit("enabled");
    reveal_strlit("fallbackToOptimizingForSize");
    assert("enabled"@.len() == 7);
    assert("fallbackToOptimizingForSize"@.len() == 27);
    let f0 = Seq::<(Seq<char>, NodeView)>::empty();
    let f1 = match o.enabled {
        Some(b) => f0.push(("enabled"@, NodeView::Boolean(b))),
        None => f0,
    };
    let f2 = optimizer_fields(o);
    assert("enabled"@ != "fallbackToOptimizingForSize"@);
    assert(obj_lookup(f0, "enabled"@) is None);
    assert(obj_lookup(f0, "fallbackToOptimizingForSize"@) is None);
    match o.enabled {
        Some(b) => {
            assert(f1.drop_last() =~= f0);
            assert(obj_lookup(f1, "enabled"@) == Some(NodeView::Boolean(b)));
            assert(obj_lookup(f1, "fallbackToOptimizingForSize"@) is None);
        },
        None => {
            assert(f1 == f0);
        },
    }
    match o.fallback_to_optimizing_for_size {
        Some(b) => {
            assert(f2 == f1.push(("fallbackToOptimizingForSize"@, NodeView::Boolean(b))));
            assert(f2.drop_last() =~= f1);
            assert(obj_lookup(f2, "fallbackToOptimizingForSize"@) == Some(NodeView::Boolean(b)));
            assert(obj_lookup(f2, "enabled"@) == obj_lookup(f1, "enabled"@));
        },
        None => {
            assert(f2 == f1);
        },
    }
}

/// Normalizing an optimizer twice changes nothing beyond the first pass.
pub proof fn lemma_optimizer_normalize_idempotent(o: Optimizer)
    ensures
        normalized_optimizer(normalized_optimizer(o)) == normalized_optimizer(o),
{
}

} // verus!
