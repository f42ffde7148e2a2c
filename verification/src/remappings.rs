//! The sorted, deduplicated set of import remapping strings.

use vstd::prelude::*;

use crate::node::lemma_nodes_view_push;
use crate::node::nodes_view;
use crate::node::Node;
use crate::node::NodeView;
use crate::str_map::StrMap;
use crate::str_map::lemma_pairs_map_dom;
use crate::str_map::lemma_sorted_index;

verus! {

/// The document items of a remapping set, in its sorted order.
pub open spec fn remaps_items(entries: Seq<Seq<char>>) -> Seq<NodeView> {
    Seq::new(entries.len(), |i: int| NodeView::Text(entries[i]))
}

/// The document node of a remapping set.
pub open spec fn remaps_doc(entries: Seq<Seq<char>>) -> NodeView {
    NodeView::List(remaps_items(entries))
}

/// The set that a sequence of strings covers.
pub open spec fn strs_set(keys: Seq<Seq<char>>) -> Set<Seq<char>>
    decreases keys.len(),
{
    if keys.len() == 0 {
        Set::empty()
    } else {
        strs_set(keys.drop_last()).insert(keys.last())
    }
}

pub proof fn lemma_strs_set_contains(keys: Seq<Seq<char>>, k: Seq<char>)
    ensures
        strs_set(keys).contains(k) <==> exists|i: int| 0 <= i < keys.len() && keys[i] == k,
    decreases keys.len(),
{
    if keys.len() > 0 {
        lemma_strs_set_contains(keys.drop_last(), k);
        if keys.last() == k {
            assert(keys[keys.len() - 1] == k);
        } else if exists|i: int| 0 <= i < keys.len() && keys[i] == k {
            let i = choose|i: int| 0 <= i < keys.len() && keys[i] == k;
            assert(keys.drop_last()[i] == k);
        }
    }
}

/// A sorted set of remapping strings, passed through opaquely.
pub struct Remappings {
    pub set: StrMap<bool>,
}

impl View for Remappings {
    type V = Seq<Seq<char>>;

    /// The remapping strings in their sorted order.
    open spec fn view(&self) -> Seq<Seq<char>> {
        Seq::new(self.set@.len(), |i: int| self.set@[i].0)
    }
}

impl Remappings {
    pub open spec fn wf(&self) -> bool {
        self.set.wf()
    }

    /// The set of remapping strings this value holds.
    pub open spec fn as_set(&self) -> Set<Seq<char>> {
        self.set.as_map().dom()
    }

    pub fn new() -> (r: Self)
        ensures
            r.wf(),
            r@ =~= Seq::<Seq<char>>::empty(),
            r.as_set() == Set::<Seq<char>>::empty(),
    {
        let r = Remappings { set: StrMap::new() };
        proof {
            assert(r.as_set() =~= Set::<Seq<char>>::empty());
        }
        r
    }

    /// Adds one remapping; a string already present stays present once.
    pub fn insert(&mut self, s: String)
        requires
            old(self).wf(),
        ensures
            final(self).wf(),
            final(self).as_set() == old(self).as_set().insert(s@),
    {
        self.set.insert(s, true);
        proof {
            assert(self.as_set() =~= old(self).as_set().insert(s@));
        }
    }

    /// Whether `s` is among the remappings.
    pub fn contains(&self, s: &str) -> (r: bool)
        requires
            self.wf(),
        ensures
            r == self.as_set().contains(s@),
    {
        match self.set.find_index(s) {
            Some(i) => {
                proof {
                    lemma_sorted_index(self.set@, i as int);
                }
                true
            },
            None => {
                proof {
                    lemma_pairs_map_dom(self.set@, s@);
                }
                false
            },
        }
    }

    /// How many distinct remappings are held.
    pub fn len(&self) -> (n: usize)
        ensures
            n == self@.len(),
    {
        self.set.entries.len()
    }

    /// Renders the remappings as a document list.
    pub fn to_node(&self) -> (r: Node)
        ensures
            r@ == remaps_doc(self@),
    {
        let mut out: Vec<Node> = Vec::new();
        let n = self.set.entries.len();
        let mut i: usize = 0;
        proof {
            assert(nodes_view(out@) =~= remaps_items(self@).take(0));
        }
        while i < n
            invariant
                n == self.set.entries@.len(),
                n == self@.len(),
                0 <= i <= n,
                nodes_view(out@) == remaps_items(self@).take(i as int),
            decreases n - i,
        {
            let value = Node::Text(self.set.entries[i].0.clone());
            let ghost pre = out@;
            out.push(value);
            proof {
                lemma_nodes_view_push(pre, value);
                assert(remaps_items(self@)[i as int] == NodeView::Text(self@[i as int]));
                assert(nodes_view(out@) =~= remaps_items(self@).take(i as int + 1));
            }
            i += 1;
        }
        let r = Node::List(out);
        proof {
            assert(remaps_items(self@).take(n as int) =~= remaps_items(self@));
        }
        r
    }

    /// Collects the given strings into a sorted, deduplicated set.
    pub fn from_vec(input: Vec<String>) -> (r: Self)
        ensures
            r.wf(),
            r.as_set() == Set::new(
                |k: Seq<char>| exists|i: int| 0 <= i < input@.len() && input@[i]@ == k,
            ),
    {
        let mut r = Remappings::new();
        let n = input.len();
        let mut i: usize = 0;
        while i < n
            invariant
                n == input@.len(),
                0 <= i <= n,
                r.wf(),
                r.as_set() =~= Set::new(
                    |k: Seq<char>| exists|j: int| 0 <= j < i && input@[j]@ == k,
                ),
            decreases n - i,
        {
            r.insert(input[i].clone());
            proof {
                assert forall|k: Seq<char>|
                    r.as_set().contains(k) == (exists|j: int|
                        0 <= j < i + 1 && input@[j]@ == k) by {
                    if r.as_set().contains(k) {
                        if k == input@[i as int]@ {
                            assert(input@[i as int]@ == k);
                        }
                    } else {
                        assert(forall|j: int| 0 <= j < i + 1 ==> input@[j]@ != k);
                    }
                }
                assert(r.as_set() =~= Set::new(
                    |k: Seq<char>| exists|j: int| 0 <= j < i + 1 && input@[j]@ == k,
                ));
            }
            i += 1;
        }
        r
    }
}

/// The set a remapping value holds is the set its sorted sequence covers.
pub proof fn lemma_remappings_as_set(r: Remappings)
    ensures
        r.as_set() == strs_set(r@),
{
    assert forall|k: Seq<char>| r.as_set().contains(k) == strs_set(r@).contains(k) by {
        lemma_strs_set_contains(r@, k);
        lemma_pairs_map_dom(r.set@, k);
        if exists|i: int| 0 <= i < r.set@.len() && r.set@[i].0 == k {
            let i = choose|i: int| 0 <= i < r.set@.len() && r.set@[i].0 == k;
            assert(r@[i] == k);
        }
        if exists|i: int| 0 <= i < r@.len() && r@[i] == k {
            let i = choose|i: int| 0 <= i < r@.len() && r@[i] == k;
            assert(r.set@[i].0 == k);
        }
    }
    assert(r.as_set() =~= strs_set(r@));
}

} // verus!
