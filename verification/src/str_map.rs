//! A string-keyed association container kept strictly sorted by key: the
//! executable counterpart of a `Map<Seq<char>, _>` with deterministic
//! iteration order.

use vstd::prelude::*;

use crate::text::lex_lt;
use crate::text::lemma_lex_le_antisymmetric;
use crate::text::lemma_lex_le_refl;
use crate::text::lemma_lex_le_total;
use crate::text::lemma_lex_lt_trans;
use crate::text::str_eq;
use crate::text::str_lex_le;

verus! {

/// Whether the keys of `s` are pairwise strictly ascending.
pub open spec fn strictly_sorted<T>(s: Seq<(Seq<char>, T)>) -> bool {
    forall|i: int, j: int| 0 <= i < j < s.len() ==> lex_lt(s[i].0, s[j].0)
}

/// The mapping denoted by a sequence of key-value pairs; a later pair with
/// the same key overrides an earlier one.
pub open spec fn pairs_map<T>(s: Seq<(Seq<char>, T)>) -> Map<Seq<char>, T>
    decreases s.len(),
{
    if s.len() == 0 {
        Map::empty()
    } else {
        pairs_map(s.drop_last()).insert(s.last().0, s.last().1)
    }
}

pub proof fn lemma_pairs_map_dom<T>(s: Seq<(Seq<char>, T)>, k: Seq<char>)
    ensures
        pairs_map(s).contains_key(k) <==> exists|i: int| 0 <= i < s.len() && s[i].0 == k,
    decreases s.len(),
{
    if s.len() > 0 {
        lemma_pairs_map_dom(s.drop_last(), k);
        if s.last().0 == k {
            assert(s[s.len() - 1].0 == k);
        } else {
            if exists|i: int| 0 <= i < s.len() && s[i].0 == k {
                let i = choose|i: int| 0 <= i < s.len() && s[i].0 == k;
                assert(s.drop_last()[i].0 == k);
            }
        }
    }
}

pub proof fn lemma_pairs_map_index<T>(s: Seq<(Seq<char>, T)>, i: int)
    requires
        0 <= i < s.len(),
        forall|j: int| i < j < s.len() ==> s[j].0 != s[i].0,
    ensures
        pairs_map(s).contains_key(s[i].0),
        pairs_map(s)[s[i].0] == s[i].1,
    decreases s.len(),
{
    if i < s.len() - 1 {
        assert forall|j: int| i < j < s.drop_last().len() implies s.drop_last()[j].0
            != s.drop_last()[i].0 by {
            assert(s.drop_last()[j] == s[j]);
        }
        lemma_pairs_map_index(s.drop_last(), i);
        assert(s.last().0 != s[i].0);
    }
}

pub proof fn lemma_pairs_map_insert<T>(s: Seq<(Seq<char>, T)>, p: int, k: Seq<char>, v: T)
    requires
        0 <= p <= s.len(),
        forall|i: int| 0 <= i < s.len() ==> s[i].0 != k,
    ensures
        pairs_map(s.insert(p, (k, v))) == pairs_map(s).insert(k, v),
    decreases s.len(),
{
    let t = s.insert(p, (k, v));
    if p == s.len() {
        assert(t.drop_last() =~= s);
        assert(t.last() == (k, v));
    } else {
        assert(t.last() == s.last());
        assert(t.drop_last() =~= s.drop_last().insert(p, (k, v)));
        assert forall|i: int| 0 <= i < s.drop_last().len() implies s.drop_last()[i].0 != k by {
            assert(s.drop_last()[i] == s[i]);
        }
        lemma_pairs_map_insert(s.drop_last(), p, k, v);
        let m = pairs_map(s.drop_last());
        assert(s.last().0 != k);
        assert(m.insert(k, v).insert(s.last().0, s.last().1) =~= m.insert(
            s.last().0,
            s.last().1,
        ).insert(k, v));
    }
}

pub proof fn lemma_pairs_map_update<T>(s: Seq<(Seq<char>, T)>, p: int, k: Seq<char>, v: T)
    requires
        0 <= p < s.len(),
        s[p].0 == k,
        forall|i: int| 0 <= i < s.len() && i != p ==> s[i].0 != k,
    ensures
        pairs_map(s.update(p, (k, v))) == pairs_map(s).insert(k, v),
    decreases s.len(),
{
    let t = s.update(p, (k, v));
    if p == s.len() - 1 {
        assert(t.drop_last() =~= s.drop_last());
        let m = pairs_map(s.drop_last());
        assert(m.insert(k, s[p].1).insert(k, v) =~= m.insert(k, v));
        assert(s.last() == (s[p].0, s[p].1));
    } else {
        assert(t.last() == s.last());
        assert(t.drop_last() =~= s.drop_last().update(p, (k, v)));
        assert forall|i: int| 0 <= i < s.drop_last().len() && i != p implies s.drop_last()[i].0
            != k by {
            assert(s.drop_last()[i] == s[i]);
        }
        lemma_pairs_map_update(s.drop_last(), p, k, v);
        let m = pairs_map(s.drop_last());
        assert(s.last().0 != k);
        assert(m.insert(k, v).insert(s.last().0, s.last().1) =~= m.insert(
            s.last().0,
            s.last().1,
        ).insert(k, v));
    }
}

pub proof fn lemma_sorted_insert<T>(s: Seq<(Seq<char>, T)>, p: int, k: Seq<char>, v: T)
    requires
        strictly_sorted(s),
        0 <= p <= s.len(),
        forall|j: int| 0 <= j < p ==> lex_lt(s[j].0, k),
        forall|j: int| p <= j < s.len() ==> lex_lt(k, s[j].0),
    ensures
        strictly_sorted(s.insert(p, (k, v))),
        pairs_map(s.insert(p, (k, v))) == pairs_map(s).insert(k, v),
{
    let t = s.insert(p, (k, v));
    assert forall|a: int, b: int| 0 <= a < b < t.len() implies lex_lt(t[a].0, t[b].0) by {
        if a < p && b > p {
            assert(t[a] == s[a] && t[b] == s[b - 1]);
            if a < b - 1 {
                assert(lex_lt(s[a].0, s[b - 1].0));
            }
        } else if a > p && b > p {
            assert(lex_lt(s[a - 1].0, s[b - 1].0));
        } else if a < p && b < p {
            assert(lex_lt(s[a].0, s[b].0));
        }
    }
    assert forall|i: int| 0 <= i < s.len() implies s[i].0 != k by {
        if i < p {
            assert(lex_lt(s[i].0, k));
        } else {
            assert(lex_lt(k, s[i].0));
        }
    }
    lemma_pairs_map_insert(s, p, k, v);
}

pub proof fn lemma_sorted_update<T>(s: Seq<(Seq<char>, T)>, p: int, k: Seq<char>, v: T)
    requires
        strictly_sorted(s),
        0 <= p < s.len(),
        s[p].0 == k,
    ensures
        strictly_sorted(s.update(p, (k, v))),
        pairs_map(s.update(p, (k, v))) == pairs_map(s).insert(k, v),
{
    let t = s.update(p, (k, v));
    assert forall|a: int, b: int| 0 <= a < b < t.len() implies lex_lt(t[a].0, t[b].0) by {
        assert(lex_lt(s[a].0, s[b].0));
    }
    assert forall|i: int| 0 <= i < s.len() && i != p implies s[i].0 != k by {
        if i < p {
            assert(lex_lt(s[i].0, s[p].0));
        } else {
            assert(lex_lt(s[p].0, s[i].0));
        }
    }
    lemma_pairs_map_update(s, p, k, v);
}

/// In a sorted pair sequence, entry `p` gives the mapping's value at its key.
pub proof fn lemma_sorted_index<T>(s: Seq<(Seq<char>, T)>, p: int)
    requires
        strictly_sorted(s),
        0 <= p < s.len(),
    ensures
        pairs_map(s).contains_key(s[p].0),
        pairs_map(s)[s[p].0] == s[p].1,
{
    assert forall|j: int| p < j < s.len() implies s[j].0 != s[p].0 by {
        assert(lex_lt(s[p].0, s[j].0));
    }
    lemma_pairs_map_index(s, p);
}

/// A vector of key-value pairs, kept strictly sorted by key under
/// [`StrMap::insert`].
pub struct StrMap<V> {
    pub entries: Vec<(String, V)>,
}

impl<V: View> View for StrMap<V> {
    type V = Seq<(Seq<char>, V::V)>;

    open spec fn view(&self) -> Seq<(Seq<char>, V::V)> {
        Seq::new(self.entries@.len(), |i: int| (self.entries@[i].0@, self.entries@[i].1@))
    }
}

impl<V: View> StrMap<V> {
    /// Keys strictly ascending: the container's well-formedness.
    pub open spec fn wf(&self) -> bool {
        strictly_sorted(self@)
    }

    /// The mapping this container holds.
    pub open spec fn as_map(&self) -> Map<Seq<char>, V::V> {
        pairs_map(self@)
    }

    pub fn new() -> (r: Self)
        ensures
            r.wf(),
            r@ =~= Seq::<(Seq<char>, V::V)>::empty(),
            r.as_map() == Map::<Seq<char>, V::V>::empty(),
    {
        let r = StrMap { entries: Vec::new() };
        proof {
            assert(r@ =~= Seq::<(Seq<char>, V::V)>::empty());
        }
        r
    }

    /// Position of the entry whose key equals `key`, if one exists.
    pub fn find_index(&self, key: &str) -> (r: Option<usize>)
        ensures
            match r {
                Some(i) => i < self@.len() && self@[i as int].0 == key@,
                None => forall|i: int| 0 <= i < self@.len() ==> self@[i].0 != key@,
            },
    {
        let n = self.entries.len();
        let mut i: usize = 0;
        while i < n
            invariant
                n == self.entries@.len(),
                n == self@.len(),
                0 <= i <= n,
                forall|j: int| 0 <= j < i ==> self@[j].0 != key@,
            decreases n - i,
        {
            if str_eq(self.entries[i].0.as_str(), key) {
                return Some(i);
            }
            i += 1;
        }
        None
    }

    /// Where `key` stands or belongs among the sorted keys: the position,
    /// and whether the entry already there carries exactly `key`.
    pub(crate) fn insert_position(&self, key: &str) -> (r: (usize, bool))
        requires
            self.wf(),
        ensures
            r.0 <= self@.len(),
            forall|j: int| 0 <= j < r.0 ==> lex_lt(self@[j].0, key@),
            r.1 ==> r.0 < self@.len() && self@[r.0 as int].0 == key@,
            !r.1 ==> forall|j: int| r.0 <= j < self@.len() ==> lex_lt(key@, self@[j].0),
    {
        let n = self.entries.len();
        let mut i: usize = 0;
        while i < n
            invariant
                self.wf(),
                n == self.entries@.len(),
                n == self@.len(),
                0 <= i <= n,
                forall|j: int| 0 <= j < i ==> lex_lt(self@[j].0, key@),
            decreases n - i,
        {
            if str_lex_le(key, self.entries[i].0.as_str()) {
                if str_lex_le(self.entries[i].0.as_str(), key) {
                    proof {
                        lemma_lex_le_antisymmetric(self@[i as int].0, key@);
                    }
                    return (i, true);
                } else {
                    proof {
                        lemma_lex_le_refl(key@);
                        assert(lex_lt(key@, self@[i as int].0));
                        assert forall|j: int| i <= j < self@.len() implies lex_lt(
                            key@,
                            self@[j].0,
                        ) by {
                            if j > i {
                                lemma_lex_lt_trans(key@, self@[i as int].0, self@[j].0);
                            }
                        }
                    }
                    return (i, false);
                }
            }
            proof {
                lemma_lex_le_total(key@, self@[i as int].0);
                lemma_lex_le_refl(key@);
                assert(lex_lt(self@[i as int].0, key@));
            }
            i += 1;
        }
        (i, false)
    }

    /// Binds `key` to `value`, replacing any earlier binding of the same key
    /// and keeping the keys sorted.
    pub fn insert(&mut self, key: String, value: V)
        requires
            old(self).wf(),
        ensures
            final(self).wf(),
            final(self).as_map() == old(self).as_map().insert(key@, value@),
            forall|n: int|
                0 <= n < final(self)@.len() ==> final(self)@[n] == (key@, value@)
                    || old(self)@.contains(final(self)@[n]),
    {
        let ghost orig = self@;
        let (p, present) = self.insert_position(key.as_str());
        if present {
            let _prev = self.entries.remove(p);
            self.entries.insert(p, (key, value));
            proof {
                assert(self.entries@ =~= old(self).entries@.update(p as int, (key, value)));
                assert forall|m: int|
                    0 <= m < self@.len() implies self@[m] == orig.update(
                    p as int,
                    (key@, value@),
                )[m] by {
                    if m != p {
                        assert(self.entries@[m] == old(self).entries@[m]);
                    }
                }
                assert(self@ =~= orig.update(p as int, (key@, value@)));
                assert forall|a: int, b: int| 0 <= a < b < self@.len() implies lex_lt(
                    self@[a].0,
                    self@[b].0,
                ) by {
                    assert(lex_lt(orig[a].0, orig[b].0));
                }
                assert forall|m: int| 0 <= m < orig.len() && m != p implies orig[m].0 != key@ by {
                    if m < p {
                        assert(lex_lt(orig[m].0, orig[p as int].0));
                    } else {
                        assert(lex_lt(orig[p as int].0, orig[m].0));
                    }
                }
                lemma_pairs_map_update(orig, p as int, key@, value@);
                assert forall|m: int|
                    0 <= m < self@.len() implies self@[m] == (key@, value@) || orig.contains(
                    self@[m],
                ) by {
                    if m != p {
                        assert(orig[m] == self@[m]);
                    }
                }
            }
        } else {
            self.entries.insert(p, (key, value));
            proof {
                assert forall|m: int|
                    0 <= m < self@.len() implies self@[m] == orig.insert(
                    p as int,
                    (key@, value@),
                )[m] by {
                    if m < p {
                        assert(self.entries@[m] == old(self).entries@[m]);
                    } else if m > p {
                        assert(self.entries@[m] == old(self).entries@[m - 1]);
                    }
                }
                assert(self@.len() == orig.insert(p as int, (key@, value@)).len());
                assert(self@ =~= orig.insert(p as int, (key@, value@)));
                assert forall|a: int, b: int| 0 <= a < b < self@.len() implies lex_lt(
                    self@[a].0,
                    self@[b].0,
                ) by {
                    if a < p && b > p {
                        assert(lex_lt(orig[a].0, orig[b - 1].0));
                    } else if a > p && b > p {
                        assert(lex_lt(orig[a - 1].0, orig[b - 1].0));
                    }
                }
                assert forall|j: int| 0 <= j < orig.len() implies orig[j].0 != key@ by {
                    if j < p {
                        assert(lex_lt(orig[j].0, key@));
                    } else {
                        assert(lex_lt(key@, orig[j].0));
                    }
                }
                lemma_pairs_map_insert(orig, p as int, key@, value@);
                assert forall|m: int|
                    0 <= m < self@.len() implies self@[m] == (key@, value@) || orig.contains(
                    self@[m],
                ) by {
                    if m < p {
                        assert(orig[m] == self@[m]);
                    } else if m > p {
                        assert(orig[m - 1] == self@[m]);
                    }
                }
            }
        }
    }
}

} // verus!
