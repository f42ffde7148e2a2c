//! The nested key-value document that settings serialize to and from.

use vstd::prelude::*;

verus! {

broadcast use {
    vstd::std_specs::vec::axiom_vec_decreases_to_view,
    vstd::seq::axiom_seq_index_decreases,
    vstd::seq::axiom_seq_subrange_decreases,
};

/// One node of a structured (JSON-like) document: a boolean, a piece of
/// text, a list, or an object of key-value fields in a fixed order.
pub enum Node {
    Boolean(bool),
    Text(String),
    List(Vec<Node>),
    Object(Vec<(String, Node)>),
}

/// The mathematical shape of a [`Node`].
pub enum NodeView {
    Boolean(bool),
    Text(Seq<char>),
    List(Seq<NodeView>),
    Object(Seq<(Seq<char>, NodeView)>),
}

pub open spec fn node_view(n: Node) -> NodeView
    decreases n,
{
    match n {
        Node::Boolean(b) => NodeView::Boolean(b),
        Node::Text(s) => NodeView::Text(s@),
        Node::List(items) => NodeView::List(nodes_view(items@)),
        Node::Object(fields) => NodeView::Object(fields_view(fields@)),
    }
}

pub open spec fn nodes_view(s: Seq<Node>) -> Seq<NodeView>
    decreases s,
{
    if s.len() == 0 {
        Seq::empty()
    } else {
        nodes_view(s.subrange(0, s.len() - 1)).push(node_view(s[s.len() - 1]))
    }
}

pub open spec fn fields_view(s: Seq<(String, Node)>) -> Seq<(Seq<char>, NodeView)>
    decreases s,
{
    if s.len() == 0 {
        Seq::empty()
    } else {
        fields_view(s.subrange(0, s.len() - 1)).push(
            (s[s.len() - 1].0@, node_view(s[s.len() - 1].1)),
        )
    }
}

pub broadcast proof fn lemma_nodes_view_len(s: Seq<Node>)
    ensures
        (#[trigger] nodes_view(s)).len() == s.len(),
    decreases s.len(),
{
    if s.len() > 0 {
        lemma_nodes_view_len(s.subrange(0, s.len() - 1));
    }
}

pub broadcast proof fn lemma_nodes_view_index(s: Seq<Node>, i: int)
    requires
        0 <= i < s.len(),
    ensures
        #[trigger] nodes_view(s)[i] == node_view(s[i]),
    decreases s.len(),
{
    lemma_nodes_view_len(s);
    if s.len() > 0 && i < s.len() - 1 {
        lemma_nodes_view_index(s.subrange(0, s.len() - 1), i);
    }
}

pub broadcast proof fn lemma_fields_view_len(s: Seq<(String, Node)>)
    ensures
        (#[trigger] fields_view(s)).len() == s.len(),
    decreases s.len(),
{
    if s.len() > 0 {
        lemma_fields_view_len(s.subrange(0, s.len() - 1));
    }
}

pub broadcast proof fn lemma_fields_view_index(s: Seq<(String, Node)>, i: int)
    requires
        0 <= i < s.len(),
    ensures
        #[trigger] fields_view(s)[i] == (s[i].0@, node_view(s[i].1)),
    decreases s.len(),
{
    lemma_fields_view_len(s);
    if s.len() > 0 && i < s.len() - 1 {
        lemma_fields_view_index(s.subrange(0, s.len() - 1), i);
    }
}

pub broadcast proof fn lemma_nodes_view_push(s: Seq<Node>, n: Node)
    ensures
        #[trigger] nodes_view(s.push(n)) == nodes_view(s).push(node_view(n)),
{
    assert(s.push(n).subrange(0, s.push(n).len() - 1) =~= s);
    assert(s.push(n)[s.push(n).len() - 1] == n);
}

pub broadcast proof fn lemma_fields_view_push(s: Seq<(String, Node)>, p: (String, Node))
    ensures
        #[trigger] fields_view(s.push(p)) == fields_view(s).push((p.0@, node_view(p.1))),
{
    assert(s.push(p).subrange(0, s.push(p).len() - 1) =~= s);
    assert(s.push(p)[s.push(p).len() - 1] == p);
}

/// The value an object associates with `k`: its last field named `k`.
pub open spec fn obj_lookup(fields: Seq<(Seq<char>, NodeView)>, k: Seq<char>) -> Option<NodeView>
    decreases fields.len(),
{
    if fields.len() == 0 {
        None
    } else if fields.last().0 == k {
        Some(fields.last().1)
    } else {
        obj_lookup(fields.drop_last(), k)
    }
}

pub proof fn lemma_obj_lookup_push(s: Seq<(Seq<char>, NodeView)>, p: (Seq<char>, NodeView), k: Seq<char>)
    ensures
        obj_lookup(s.push(p), k) == (if p.0 == k {
            Some(p.1)
        } else {
            obj_lookup(s, k)
        }),
{
    assert(s.push(p).drop_last() =~= s);
    assert(s.push(p).last() == p);
}

pub proof fn lemma_obj_lookup_at(s: Seq<(Seq<char>, NodeView)>, i: int)
    requires
        0 <= i < s.len(),
        forall|j: int| i < j < s.len() ==> s[j].0 != s[i].0,
    ensures
        obj_lookup(s, s[i].0) == Some(s[i].1),
    decreases s.len(),
{
    if i < s.len() - 1 {
        assert forall|j: int| i < j < s.drop_last().len() implies s.drop_last()[j].0
            != s.drop_last()[i].0 by {
            assert(s.drop_last()[j] == s[j]);
        }
        lemma_obj_lookup_at(s.drop_last(), i);
    }
}

pub proof fn lemma_obj_lookup_none(s: Seq<(Seq<char>, NodeView)>, k: Seq<char>)
    requires
        forall|i: int| 0 <= i < s.len() ==> s[i].0 != k,
    ensures
        obj_lookup(s, k) is None,
    decreases s.len(),
{
    if s.len() > 0 {
        lemma_obj_lookup_none(s.drop_last(), k);
    }
}

/// Finds the position of the last field named `key`, if any.
pub fn obj_find(fields: &Vec<(String, Node)>, key: &str) -> (r: Option<usize>)
    ensures
        match r {
            Some(i) => i < fields@.len() && fields@[i as int].0@ == key@ && obj_lookup(
                fields_view(fields@),
                key@,
            ) == Some(node_view(fields@[i as int].1)),
            None => obj_lookup(fields_view(fields@), key@) is None,
        },
{
    broadcast use lemma_fields_view_len, lemma_fields_view_index;

    let mut i: usize = fields.len();
    while i > 0
        invariant
            i <= fields@.len(),
            forall|j: int| i <= j < fields@.len() ==> fields@[j].0@ != key@,
        decreases i,
    {
        i -= 1;
        if crate::text::str_eq(fields[i].0.as_str(), key) {
            proof {
                let fv = fields_view(fields@);
                lemma_fields_view_len(fields@);
                lemma_fields_view_index(fields@, i as int);
                assert forall|j: int| i < j < fv.len() implies fv[j].0 != fv[i as int].0 by {
                    lemma_fields_view_index(fields@, j);
                    assert(fv[j].0 == fields@[j].0@);
                }
                lemma_obj_lookup_at(fv, i as int);
            }
            return Some(i);
        }
    }
    proof {
        let fv = fields_view(fields@);
        lemma_fields_view_len(fields@);
        assert forall|j: int| 0 <= j < fv.len() implies fv[j].0 != key@ by {
            lemma_fields_view_index(fields@, j);
            assert(fv[j].0 == fields@[j].0@);
        }
        lemma_obj_lookup_none(fv, key@);
    }
    None
}

impl View for Node {
    type V = NodeView;

    open spec fn view(&self) -> NodeView {
        node_view(*self)
    }
}

impl Clone for Node {
    fn clone(&self) -> (r: Self)
        ensures
            r@ == self@,
        decreases self,
    {
        broadcast use lemma_nodes_view_len, lemma_nodes_view_index, lemma_fields_view_len, lemma_fields_view_index;

        match self {
            Node::Boolean(b) => Node::Boolean(*b),
            Node::Text(s) => Node::Text(s.clone()),
            Node::List(items) => {
                let mut out: Vec<Node> = Vec::new();
                let n = items.len();
                let mut i: usize = 0;
                while i < n
                    invariant
                        *self is List && (*self)->List_0 == *items,
                        n == items@.len(),
                        0 <= i <= n,
                        out@.len() == i,
                        forall|j: int| 0 <= j < i ==> out@[j]@ == items@[j]@,
                    decreases n - i,
                {
                    proof {
                        assert(decreases_to!(*self => (*self)->List_0));
                        assert(decreases_to!(*items => items@));
                        assert(decreases_to!(items@ => items@[i as int]));
                    }
                    out.push(items[i].clone());
                    i += 1;
                }
                let r = Node::List(out);
                proof {
                    assert(nodes_view(out@) =~= nodes_view(items@));
                }
                r
            },
            Node::Object(fields) => {
                let mut out: Vec<(String, Node)> = Vec::new();
                let n = fields.len();
                let mut i: usize = 0;
                while i < n
                    invariant
                        *self is Object && (*self)->Object_0 == *fields,
                        n == fields@.len(),
                        0 <= i <= n,
                        out@.len() == i,
                        forall|j: int|
                            0 <= j < i ==> out@[j].0@ == fields@[j].0@ && out@[j].1@
                                == fields@[j].1@,
                    decreases n - i,
                {
                    proof {
                        assert(decreases_to!(*self => (*self)->Object_0));
                        assert(decreases_to!(*fields => fields@));
                        assert(decreases_to!(fields@ => fields@[i as int]));
                        assert(decreases_to!(fields@[i as int] => fields@[i as int].1));
                    }
                    let key = fields[i].0.clone();
                    let value = fields[i].1.clone();
                    out.push((key, value));
                    i += 1;
                }
                let r = Node::Object(out);
                proof {
                    assert(fields_view(out@) =~= fields_view(fields@));
                }
                r
            },
        }
    }
}

} // verus!
