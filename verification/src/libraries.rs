//! The linker-library association `file -> (contract -> address)` and the
//! parser turning textual bindings `file:contract=address` into it.

use vstd::prelude::*;

use crate::str_map::lemma_pairs_map_dom;
use crate::str_map::lemma_sorted_index;
use crate::str_map::lemma_sorted_insert;
use crate::str_map::lemma_sorted_update;
use crate::str_map::pairs_map;
use crate::str_map::strictly_sorted;
use crate::str_map::StrMap;
use crate::node::fields_view;
use crate::node::lemma_fields_view_push;
use crate::node::Node;
use crate::node::NodeView;
use crate::text::find_char;
use crate::text::first_pos;
use crate::text::has_char;
use crate::text::lemma_first_pos;
use crate::text::lex_lt;
use crate::text::substring;

verus! {

/// What is wrong with a single binding, before its position is known.
pub enum BindingError {
    /// No `=` separator: the path cannot be told apart from the address.
    MissingPath,
    /// The path part has no `:` separator; carries the path text.
    MissingFileName(Seq<char>),
    /// Nothing follows the path's first `:`; carries the path text.
    MissingContractName(Seq<char>),
    /// Nothing follows the binding's first `=`; carries the path text.
    MissingAddress(Seq<char>),
}

/// A parse failure, with the context the caller is told about.
pub enum ParseError {
    /// The binding at this 0-based position has no `=` separator.
    MissingPath(usize),
    /// This path text has no `:` separator.
    MissingFileName(String),
    /// This path text ends right after its first `:`.
    MissingContractName(String),
    /// The binding with this path text has nothing after its `=`.
    MissingAddress(String),
}

/// The mathematical shape of a [`ParseError`].
pub enum ParseErrorView {
    MissingPath(int),
    MissingFileName(Seq<char>),
    MissingContractName(Seq<char>),
    MissingAddress(Seq<char>),
}

impl View for ParseError {
    type V = ParseErrorView;

    open spec fn view(&self) -> ParseErrorView {
        match self {
            ParseError::MissingPath(i) => ParseErrorView::MissingPath(*i as int),
            ParseError::MissingFileName(p) => ParseErrorView::MissingFileName(p@),
            ParseError::MissingContractName(p) => ParseErrorView::MissingContractName(p@),
            ParseError::MissingAddress(p) => ParseErrorView::MissingAddress(p@),
        }
    }
}

/// Attaches a binding's 0-based position to its error.
pub open spec fn err_at(e: BindingError, index: int) -> ParseErrorView {
    match e {
        BindingError::MissingPath => ParseErrorView::MissingPath(index),
        BindingError::MissingFileName(p) => ParseErrorView::MissingFileName(p),
        BindingError::MissingContractName(p) => ParseErrorView::MissingContractName(p),
        BindingError::MissingAddress(p) => ParseErrorView::MissingAddress(p),
    }
}

/// The binding grammar `<file>:<contract>=<address>`: split on the first
/// `=`, then split the left part on its first `:`; the contract keeps any
/// further `:`, the address any further `=`; contract and address must be
/// non-empty.
pub open spec fn split_binding(s: Seq<char>) -> Result<
    (Seq<char>, Seq<char>, Seq<char>),
    BindingError,
> {
    if !has_char(s, '=') {
        Err(BindingError::MissingPath)
    } else {
        let e = first_pos(s, '=');
        let path = s.subrange(0, e);
        let address = s.subrange(e + 1, s.len() as int);
        if !has_char(path, ':') {
            Err(BindingError::MissingFileName(path))
        } else {
            let k = first_pos(path, ':');
            let file = path.subrange(0, k);
            let contract = path.subrange(k + 1, path.len() as int);
            if contract.len() == 0 {
                Err(BindingError::MissingContractName(path))
            } else if address.len() == 0 {
                Err(BindingError::MissingAddress(path))
            } else {
                Ok((file, contract, address))
            }
        }
    }
}

/// The mapping that a whole binding list denotes, or its first error:
/// bindings apply in order, and a later binding for the same
/// `(file, contract)` pair overwrites the earlier address.
pub open spec fn parse_all(bindings: Seq<Seq<char>>) -> Result<
    Map<Seq<char>, Map<Seq<char>, Seq<char>>>,
    ParseErrorView,
>
    decreases bindings.len(),
{
    if bindings.len() == 0 {
        Ok(Map::empty())
    } else {
        match parse_all(bindings.drop_last()) {
            Err(e) => Err(e),
            Ok(m) => match split_binding(bindings.last()) {
                Err(e) => Err(err_at(e, bindings.len() - 1)),
                Ok(t) => Ok(
                    m.insert(
                        t.0,
                        if m.contains_key(t.0) {
                            m[t.0].insert(t.1, t.2)
                        } else {
                            Map::<Seq<char>, Seq<char>>::empty().insert(t.1, t.2)
                        },
                    ),
                ),
            },
        }
    }
}

/// A well-formed binding splits into exactly its three parts. The file may
/// not contain `:` or `=` and the contract may not contain `=`, but the
/// contract may contain further `:` (kept verbatim) and the address may
/// contain anything.
pub proof fn lemma_split_well_formed(f: Seq<char>, c: Seq<char>, a: Seq<char>)
    requires
        !has_char(f, '='),
        !has_char(f, ':'),
        !has_char(c, '='),
        c.len() > 0,
        a.len() > 0,
    ensures
        split_binding(f + seq![':'] + c + seq!['='] + a) == Ok::<
            (Seq<char>, Seq<char>, Seq<char>),
            BindingError,
        >((f, c, a)),
{
    let s = f + seq![':'] + c + seq!['='] + a;
    let fl = f.len() as int;
    let cl = c.len() as int;
    let e = fl + 1 + cl;
    assert(s.len() == fl + 1 + cl + 1 + a.len());
    assert(s[e] == '=');
    assert forall|j: int| 0 <= j < e implies s[j] != '=' by {
        if j < fl {
            assert(s[j] == f[j]);
            if f[j] == '=' {
                assert(has_char(f, '='));
            }
        } else if j == fl {
            assert(s[j] == ':');
        } else {
            assert(s[j] == c[j - fl - 1]);
            if c[j - fl - 1] == '=' {
                assert(has_char(c, '='));
            }
        }
    }
    assert(has_char(s, '='));
    lemma_first_pos(s, '=');
    assert(first_pos(s, '=') == e);
    let path = s.subrange(0, e);
    assert(path =~= f + seq![':'] + c);
    assert(s.subrange(e + 1, s.len() as int) =~= a);
    assert(path[fl] == ':');
    assert forall|j: int| 0 <= j < fl implies path[j] != ':' by {
        assert(path[j] == f[j]);
        if f[j] == ':' {
            assert(has_char(f, ':'));
        }
    }
    assert(has_char(path, ':'));
    lemma_first_pos(path, ':');
    assert(first_pos(path, ':') == fl);
    assert(path.subrange(0, fl) =~= f);
    assert(path.subrange(fl + 1, path.len() as int) =~= c);
}

/// One well-formed binding parses to the singleton nested mapping.
pub proof fn lemma_parse_single(f: Seq<char>, c: Seq<char>, a: Seq<char>)
    requires
        !has_char(f, '='),
        !has_char(f, ':'),
        !has_char(c, '='),
        c.len() > 0,
        a.len() > 0,
    ensures
        parse_all(seq![f + seq![':'] + c + seq!['='] + a]) == Ok::<
            Map<Seq<char>, Map<Seq<char>, Seq<char>>>,
            ParseErrorView,
        >(
            Map::<Seq<char>, Map<Seq<char>, Seq<char>>>::empty().insert(
                f,
                Map::<Seq<char>, Seq<char>>::empty().insert(c, a),
            ),
        ),
{
    lemma_split_well_formed(f, c, a);
    let bs = seq![f + seq![':'] + c + seq!['='] + a];
    assert(bs.drop_last() =~= Seq::<Seq<char>>::empty());
    assert(parse_all(Seq::<Seq<char>>::empty()) == Ok::<
        Map<Seq<char>, Map<Seq<char>, Seq<char>>>,
        ParseErrorView,
    >(Map::empty()));
    assert(bs.last() == f + seq![':'] + c + seq!['='] + a);
    assert(!Map::<Seq<char>, Map<Seq<char>, Seq<char>>>::empty().contains_key(f));
    assert(parse_all(bs) == Ok::<Map<Seq<char>, Map<Seq<char>, Seq<char>>>, ParseErrorView>(
        Map::<Seq<char>, Map<Seq<char>, Seq<char>>>::empty().insert(
            f,
            Map::<Seq<char>, Seq<char>>::empty().insert(c, a),
        ),
    ));
}

/// A later binding of the same `(file, contract)` pair wins: the earlier
/// address never shows in the result.
pub proof fn lemma_last_write_wins(bs: Seq<Seq<char>>, b1: Seq<char>, b2: Seq<char>)
    requires
        split_binding(b1) is Ok,
        split_binding(b2) is Ok,
        split_binding(b1)->Ok_0.0 == split_binding(b2)->Ok_0.0,
        split_binding(b1)->Ok_0.1 == split_binding(b2)->Ok_0.1,
    ensures
        parse_all(bs.push(b1).push(b2)) == parse_all(bs.push(b2)),
{
    let t1 = bs.push(b1);
    let t2 = t1.push(b2);
    assert(t2.drop_last() =~= t1);
    assert(t1.drop_last() =~= bs);
    assert(bs.push(b2).drop_last() =~= bs);
    match parse_all(bs) {
        Err(_) => {
        },
        Ok(m) => {
            let f = split_binding(b1)->Ok_0.0;
            let c = split_binding(b1)->Ok_0.1;
            let a1 = split_binding(b1)->Ok_0.2;
            let a2 = split_binding(b2)->Ok_0.2;
            let base = if m.contains_key(f) {
                m[f]
            } else {
                Map::<Seq<char>, Seq<char>>::empty()
            };
            let m1 = m.insert(f, base.insert(c, a1));
            assert(parse_all(t1) == Ok::<_, ParseErrorView>(m1));
            assert(m1.contains_key(f));
            assert(m1[f] == base.insert(c, a1));
            assert(base.insert(c, a1).insert(c, a2) =~= base.insert(c, a2));
            let z = base.insert(c, a1).insert(c, a2);
            assert(parse_all(t2) == Ok::<_, ParseErrorView>(m1.insert(f, z)));
            assert(parse_all(bs.push(b2)) == Ok::<_, ParseErrorView>(
                m.insert(f, base.insert(c, a2)),
            ));
            assert(m1.insert(f, z) =~~= m.insert(f, base.insert(c, a2)));
        },
    }
}

/// Bindings of distinct `(file, contract)` pairs may change places without
/// changing the resulting mapping: the content is order-independent.
pub proof fn lemma_order_independent(bs: Seq<Seq<char>>, b1: Seq<char>, b2: Seq<char>)
    requires
        split_binding(b1) is Ok,
        split_binding(b2) is Ok,
        split_binding(b1)->Ok_0.0 != split_binding(b2)->Ok_0.0 || split_binding(b1)->Ok_0.1
            != split_binding(b2)->Ok_0.1,
    ensures
        parse_all(bs.push(b1).push(b2)) == parse_all(bs.push(b2).push(b1)),
{
    assert(bs.push(b1).push(b2).drop_last() =~= bs.push(b1));
    assert(bs.push(b2).push(b1).drop_last() =~= bs.push(b2));
    assert(bs.push(b1).drop_last() =~= bs);
    assert(bs.push(b2).drop_last() =~= bs);
    match parse_all(bs) {
        Err(_) => {
        },
        Ok(m) => {
            let f1 = split_binding(b1)->Ok_0.0;
            let c1 = split_binding(b1)->Ok_0.1;
            let a1 = split_binding(b1)->Ok_0.2;
            let f2 = split_binding(b2)->Ok_0.0;
            let c2 = split_binding(b2)->Ok_0.1;
            let a2 = split_binding(b2)->Ok_0.2;
            if f1 == f2 {
                let base = if m.contains_key(f1) {
                    m[f1]
                } else {
                    Map::<Seq<char>, Seq<char>>::empty()
                };
                let m1 = m.insert(f1, base.insert(c1, a1));
                let m2 = m.insert(f1, base.insert(c2, a2));
                assert(parse_all(bs.push(b1)) == Ok::<_, ParseErrorView>(m1));
                assert(parse_all(bs.push(b2)) == Ok::<_, ParseErrorView>(m2));
                assert(m1.contains_key(f1) && m1[f1] == base.insert(c1, a1));
                assert(m2.contains_key(f1) && m2[f1] == base.insert(c2, a2));
                assert(base.insert(c1, a1).insert(c2, a2) =~= base.insert(c2, a2).insert(c1, a1));
                assert(m1.contains_key(f2) && m1[f2] == base.insert(c1, a1));
                assert(m2.contains_key(f1) && m2[f1] == base.insert(c2, a2));
                assert(parse_all(bs.push(b1).push(b2)) == Ok::<_, ParseErrorView>(
                    m1.insert(f1, base.insert(c1, a1).insert(c2, a2)),
                ));
                assert(parse_all(bs.push(b2).push(b1)) == Ok::<_, ParseErrorView>(
                    m2.insert(f1, base.insert(c2, a2).insert(c1, a1)),
                ));
                assert(m1.insert(f1, base.insert(c1, a1).insert(c2, a2)) =~~= m2.insert(
                    f1,
                    base.insert(c2, a2).insert(c1, a1),
                ));
            } else {
                let base1 = if m.contains_key(f1) {
                    m[f1]
                } else {
                    Map::<Seq<char>, Seq<char>>::empty()
                };
                let base2 = if m.contains_key(f2) {
                    m[f2]
                } else {
                    Map::<Seq<char>, Seq<char>>::empty()
                };
                let m1 = m.insert(f1, base1.insert(c1, a1));
                let m2 = m.insert(f2, base2.insert(c2, a2));
                assert(parse_all(bs.push(b1)) == Ok::<_, ParseErrorView>(m1));
                assert(parse_all(bs.push(b2)) == Ok::<_, ParseErrorView>(m2));
                assert(m1.contains_key(f2) == m.contains_key(f2));
                assert(m1.contains_key(f2) ==> m1[f2] == m[f2]);
                assert(m2.contains_key(f1) == m.contains_key(f1));
                assert(m2.contains_key(f1) ==> m2[f1] == m[f1]);
                assert(parse_all(bs.push(b1).push(b2)) == Ok::<_, ParseErrorView>(
                    m1.insert(f2, base2.insert(c2, a2)),
                ));
                assert(parse_all(bs.push(b2).push(b1)) == Ok::<_, ParseErrorView>(
                    m2.insert(f1, base1.insert(c1, a1)),
                ));
                assert(m1.insert(f2, base2.insert(c2, a2)) =~~= m2.insert(
                    f1,
                    base1.insert(c1, a1),
                ));
            }
        },
    }
}

/// Once a prefix of the bindings fails, the whole list fails the same way:
/// the parser reports the first error.
pub proof fn lemma_parse_all_prefix_err(bs: Seq<Seq<char>>, k: int)
    requires
        0 <= k <= bs.len(),
        parse_all(bs.take(k)) is Err,
    ensures
        parse_all(bs) == parse_all(bs.take(k)),
    decreases bs.len() - k,
{
    if k == bs.len() {
        assert(bs.take(k) =~= bs);
    } else {
        assert(bs.drop_last().take(k) =~= bs.take(k));
        lemma_parse_all_prefix_err(bs.drop_last(), k);
    }
}

/// Splits one binding into `(file, contract, address)`, or reports what is
/// missing; `index` is the binding's 0-based position among its list.
pub fn parse_binding(binding: &str, index: usize) -> (r: Result<(String, String, String), ParseError>)
    ensures
        match r {
            Ok(t) => split_binding(binding@) == Ok::<(Seq<char>, Seq<char>, Seq<char>), BindingError>(
                (t.0@, t.1@, t.2@),
            ),
            Err(e) => split_binding(binding@) is Err && e@ == err_at(
                split_binding(binding@)->Err_0,
                index as int,
            ),
        },
{
    let n = binding.unicode_len();
    let eq = match find_char(binding, '=') {
        Some(e) => e,
        None => {
            return Err(ParseError::MissingPath(index));
        },
    };
    let path = binding.substring_char(0, eq);
    let plen = path.unicode_len();
    let col = match find_char(path, ':') {
        Some(k) => k,
        None => {
            return Err(ParseError::MissingFileName(path.to_owned()));
        },
    };
    if col + 1 == plen {
        return Err(ParseError::MissingContractName(path.to_owned()));
    }
    if eq + 1 == n {
        return Err(ParseError::MissingAddress(path.to_owned()));
    }
    let file = substring(path, 0, col);
    let contract = substring(path, col + 1, plen);
    let address = substring(binding, eq + 1, n);
    Ok((file, contract, address))
}

/// The inner contract-to-address maps, paired with their file keys.
pub open spec fn inner_maps(s: Seq<(Seq<char>, Seq<(Seq<char>, Seq<char>)>)>) -> Seq<
    (Seq<char>, Map<Seq<char>, Seq<char>>),
> {
    Seq::new(s.len(), |i: int| (s[i].0, pairs_map(s[i].1)))
}

/// The document fields of one inner contract-to-address object.
pub open spec fn texts_doc(inner: Seq<(Seq<char>, Seq<char>)>) -> Seq<(Seq<char>, NodeView)> {
    Seq::new(inner.len(), |j: int| (inner[j].0, NodeView::Text(inner[j].1)))
}

/// The document fields of a library association: one object per file.
pub open spec fn libs_fields(entries: Seq<(Seq<char>, Seq<(Seq<char>, Seq<char>)>)>) -> Seq<
    (Seq<char>, NodeView),
> {
    Seq::new(entries.len(), |i: int| (entries[i].0, NodeView::Object(texts_doc(entries[i].1))))
}

/// The document node of a library association.
pub open spec fn libs_doc(entries: Seq<(Seq<char>, Seq<(Seq<char>, Seq<char>)>)>) -> NodeView {
    NodeView::Object(libs_fields(entries))
}

/// Renders one contract-to-address association as a document object.
fn contracts_to_node(m: &StrMap<String>) -> (r: Node)
    ensures
        r@ == NodeView::Object(texts_doc(m@)),
{
    broadcast use lemma_fields_view_push;

    let mut out: Vec<(String, Node)> = Vec::new();
    let n = m.entries.len();
    let mut i: usize = 0;
    proof {
        assert(fields_view(out@) =~= texts_doc(m@).take(0));
    }
    while i < n
        invariant
            n == m.entries@.len(),
            n == m@.len(),
            0 <= i <= n,
            fields_view(out@) == texts_doc(m@).take(i as int),
        decreases n - i,
    {
        let pair = &m.entries[i];
        let key = pair.0.clone();
        let value = Node::Text(pair.1.clone());
        let ghost pre = out@;
        out.push((key, value));
        proof {
            lemma_fields_view_push(pre, (key, value));
            assert(texts_doc(m@)[i as int] == (m@[i as int].0, NodeView::Text(m@[i as int].1)));
            assert(fields_view(out@) =~= texts_doc(m@).take(i as int + 1));
        }
        i += 1;
    }
    let r = Node::Object(out);
    proof {
        assert(texts_doc(m@).take(n as int) =~= texts_doc(m@));
    }
    r
}

/// Linked-library addresses: a sorted association of file names, each with
/// a sorted association of contract names to address strings.
pub struct Libraries {
    pub map: StrMap<StrMap<String>>,
}

impl View for Libraries {
    type V = Seq<(Seq<char>, Seq<(Seq<char>, Seq<char>)>)>;

    open spec fn view(&self) -> Seq<(Seq<char>, Seq<(Seq<char>, Seq<char>)>)> {
        self.map@
    }
}

impl Libraries {
    /// Both association levels are strictly sorted by key.
    pub open spec fn wf(&self) -> bool {
        &&& strictly_sorted(self@)
        &&& forall|i: int| 0 <= i < self@.len() ==> strictly_sorted(#[trigger] self@[i].1)
    }

    /// The nested mapping this value holds.
    pub open spec fn content(&self) -> Map<Seq<char>, Map<Seq<char>, Seq<char>>> {
        pairs_map(inner_maps(self@))
    }

    pub fn new() -> (r: Self)
        ensures
            r.wf(),
            r@ =~= Seq::<(Seq<char>, Seq<(Seq<char>, Seq<char>)>)>::empty(),
            r.content() == Map::<Seq<char>, Map<Seq<char>, Seq<char>>>::empty(),
    {
        let r = Libraries { map: StrMap::new() };
        proof {
            assert(inner_maps(r@) =~= Seq::<(Seq<char>, Map<Seq<char>, Seq<char>>)>::empty());
        }
        r
    }

    /// How many files carry bindings.
    pub fn file_count(&self) -> (n: usize)
        ensures
            n == self@.len(),
    {
        self.map.entries.len()
    }

    /// Binds `address` to `contract` under `file`, overwriting an earlier
    /// address of the same `(file, contract)` pair.
    pub fn add(&mut self, file: String, contract: String, address: String)
        requires
            old(self).wf(),
        ensures
            final(self).wf(),
            final(self).content() == old(self).content().insert(
                file@,
                if old(self).content().contains_key(file@) {
                    old(self).content()[file@].insert(contract@, address@)
                } else {
                    Map::<Seq<char>, Seq<char>>::empty().insert(contract@, address@)
                },
            ),
    {
        let ghost orig = self.map@;
        proof {
            assert forall|a: int, b: int| 0 <= a < b < inner_maps(orig).len() implies lex_lt(
                inner_maps(orig)[a].0,
                inner_maps(orig)[b].0,
            ) by {
                assert(lex_lt(orig[a].0, orig[b].0));
            }
        }
        let (p, present) = self.map.insert_position(file.as_str());
        if present {
            let pair = self.map.entries.remove(p);
            let k = pair.0;
            let mut inner = pair.1;
            proof {
                assert(k@ == orig[p as int].0 && inner@ == orig[p as int].1);
                assert(strictly_sorted(inner@));
            }
            inner.insert(contract, address);
            self.map.entries.insert(p, (k, inner));
            proof {
                assert forall|m: int| 0 <= m < self.map@.len() implies self.map@[m] == orig.update(
                    p as int,
                    (file@, inner@),
                )[m] by {
                    if m != p {
                        assert(self.map.entries@[m] == old(self).map.entries@[m]);
                    }
                }
                assert(self.map@ =~= orig.update(p as int, (file@, inner@)));
                lemma_sorted_update(orig, p as int, file@, inner@);
                assert forall|m: int| 0 <= m < self@.len() implies strictly_sorted(
                    #[trigger] self@[m].1,
                ) by {
                    if m != p {
                        assert(self@[m] == orig[m]);
                    }
                }
                assert forall|m: int| 0 <= m < inner_maps(self.map@).len() implies inner_maps(
                    self.map@,
                )[m] == inner_maps(orig).update(p as int, (file@, pairs_map(inner@)))[m] by {
                    if m != p {
                        assert(self.map@[m] == orig[m]);
                    }
                }
                assert(inner_maps(self.map@) =~= inner_maps(orig).update(
                    p as int,
                    (file@, pairs_map(inner@)),
                ));
                lemma_sorted_update(inner_maps(orig), p as int, file@, pairs_map(inner@));
                lemma_sorted_index(inner_maps(orig), p as int);
            }
        } else {
            let mut inner: StrMap<String> = StrMap::new();
            inner.insert(contract, address);
            self.map.entries.insert(p, (file, inner));
            proof {
                assert forall|m: int| 0 <= m < self.map@.len() implies self.map@[m] == orig.insert(
                    p as int,
                    (file@, inner@),
                )[m] by {
                    if m < p {
                        assert(self.map.entries@[m] == old(self).map.entries@[m]);
                    } else if m > p {
                        assert(self.map.entries@[m] == old(self).map.entries@[m - 1]);
                    }
                }
                assert(self.map@.len() == orig.insert(p as int, (file@, inner@)).len());
                assert(self.map@ =~= orig.insert(p as int, (file@, inner@)));
                lemma_sorted_insert(orig, p as int, file@, inner@);
                assert forall|m: int| 0 <= m < self@.len() implies strictly_sorted(
                    #[trigger] self@[m].1,
                ) by {
                    if m < p {
                        assert(self@[m] == orig[m]);
                    } else if m > p {
                        assert(self@[m] == orig[m - 1]);
                    }
                }
                assert forall|m: int| 0 <= m < inner_maps(self.map@).len() implies inner_maps(
                    self.map@,
                )[m] == inner_maps(orig).insert(p as int, (file@, pairs_map(inner@)))[m] by {
                    if m < p {
                        assert(self.map@[m] == orig[m]);
                    } else if m > p {
                        assert(self.map@[m] == orig[m - 1]);
                    }
                }
                assert(inner_maps(self.map@) =~= inner_maps(orig).insert(
                    p as int,
                    (file@, pairs_map(inner@)),
                ));
                lemma_sorted_insert(inner_maps(orig), p as int, file@, pairs_map(inner@));
                assert forall|i: int| 0 <= i < inner_maps(orig).len() implies inner_maps(
                    orig,
                )[i].0 != file@ by {
                    if i < p {
                        assert(lex_lt(orig[i].0, file@));
                    } else {
                        assert(lex_lt(file@, orig[i].0));
                    }
                }
                lemma_pairs_map_dom(inner_maps(orig), file@);
            }
        }
    }

    /// Replaces the whole inner association of `file` with `contracts`.
    pub fn set_file(&mut self, file: String, contracts: StrMap<String>)
        requires
            old(self).wf(),
            contracts.wf(),
        ensures
            final(self).wf(),
            final(self).content() == old(self).content().insert(file@, contracts.as_map()),
    {
        let ghost orig = self.map@;
        proof {
            assert forall|a: int, b: int| 0 <= a < b < inner_maps(orig).len() implies lex_lt(
                inner_maps(orig)[a].0,
                inner_maps(orig)[b].0,
            ) by {
                assert(lex_lt(orig[a].0, orig[b].0));
            }
        }
        let (p, present) = self.map.insert_position(file.as_str());
        if present {
            let _prev = self.map.entries.remove(p);
            self.map.entries.insert(p, (file, contracts));
            proof {
                assert forall|m: int| 0 <= m < self.map@.len() implies self.map@[m] == orig.update(
                    p as int,
                    (file@, contracts@),
                )[m] by {
                    if m != p {
                        assert(self.map.entries@[m] == old(self).map.entries@[m]);
                    }
                }
                assert(self.map@ =~= orig.update(p as int, (file@, contracts@)));
                lemma_sorted_update(orig, p as int, file@, contracts@);
                assert forall|m: int| 0 <= m < self@.len() implies strictly_sorted(
                    #[trigger] self@[m].1,
                ) by {
                    if m != p {
                        assert(self@[m] == orig[m]);
                    }
                }
                assert forall|m: int| 0 <= m < inner_maps(self.map@).len() implies inner_maps(
                    self.map@,
                )[m] == inner_maps(orig).update(p as int, (file@, pairs_map(contracts@)))[m] by {
                    if m != p {
                        assert(self.map@[m] == orig[m]);
                    }
                }
                assert(inner_maps(self.map@) =~= inner_maps(orig).update(
                    p as int,
                    (file@, pairs_map(contracts@)),
                ));
                lemma_sorted_update(inner_maps(orig), p as int, file@, pairs_map(contracts@));
            }
        } else {
            self.map.entries.insert(p, (file, contracts));
            proof {
                assert forall|m: int| 0 <= m < self.map@.len() implies self.map@[m] == orig.insert(
                    p as int,
                    (file@, contracts@),
                )[m] by {
                    if m < p {
                        assert(self.map.entries@[m] == old(self).map.entries@[m]);
                    } else if m > p {
                        assert(self.map.entries@[m] == old(self).map.entries@[m - 1]);
                    }
                }
                assert(self.map@.len() == orig.insert(p as int, (file@, contracts@)).len());
                assert(self.map@ =~= orig.insert(p as int, (file@, contracts@)));
                lemma_sorted_insert(orig, p as int, file@, contracts@);
                assert forall|m: int| 0 <= m < self@.len() implies strictly_sorted(
                    #[trigger] self@[m].1,
                ) by {
                    if m < p {
                        assert(self@[m] == orig[m]);
                    } else if m > p {
                        assert(self@[m] == orig[m - 1]);
                    }
                }
                assert forall|m: int| 0 <= m < inner_maps(self.map@).len() implies inner_maps(
                    self.map@,
                )[m] == inner_maps(orig).insert(p as int, (file@, pairs_map(contracts@)))[m] by {
                    if m < p {
                        assert(self.map@[m] == orig[m]);
                    } else if m > p {
                        assert(self.map@[m] == orig[m - 1]);
                    }
                }
                assert(inner_maps(self.map@) =~= inner_maps(orig).insert(
                    p as int,
                    (file@, pairs_map(contracts@)),
                ));
                lemma_sorted_insert(inner_maps(orig), p as int, file@, pairs_map(contracts@));
            }
        }
    }

    /// Renders the association as a nested document object.
    pub fn to_node(&self) -> (r: Node)
        ensures
            r@ == libs_doc(self@),
    {
        broadcast use lemma_fields_view_push;

        let mut files: Vec<(String, Node)> = Vec::new();
        let n = self.map.entries.len();
        let mut i: usize = 0;
        proof {
            assert(fields_view(files@) =~= libs_fields(self@).take(0));
        }
        while i < n
            invariant
                n == self.map.entries@.len(),
                n == self@.len(),
                0 <= i <= n,
                fields_view(files@) == libs_fields(self@).take(i as int),
            decreases n - i,
        {
            let entry = &self.map.entries[i];
            let inner = contracts_to_node(&entry.1);
            let key = entry.0.clone();
            let ghost pre = files@;
            files.push((key, inner));
            proof {
                lemma_fields_view_push(pre, (key, inner));
                assert(libs_fields(self@)[i as int] == (
                    self@[i as int].0,
                    NodeView::Object(texts_doc(self@[i as int].1)),
                ));
                assert(fields_view(files@) =~= libs_fields(self@).take(i as int + 1));
            }
            i += 1;
        }
        let r = Node::Object(files);
        proof {
            assert(libs_fields(self@).take(n as int) =~= libs_fields(self@));
        }
        r
    }

    /// The address bound to `(file, contract)`, if any.
    pub fn get(&self, file: &str, contract: &str) -> (r: Option<String>)
        requires
            self.wf(),
        ensures
            match r {
                Some(a) => self.content().contains_key(file@) && self.content()[file@].contains_key(
                    contract@,
                ) && a@ == self.content()[file@][contract@],
                None => !self.content().contains_key(file@) || !self.content()[file@].contains_key(
                    contract@,
                ),
            },
    {
        proof {
            assert forall|a: int, b: int| 0 <= a < b < inner_maps(self@).len() implies lex_lt(
                inner_maps(self@)[a].0,
                inner_maps(self@)[b].0,
            ) by {
                assert(lex_lt(self@[a].0, self@[b].0));
            }
        }
        match self.map.find_index(file) {
            Some(i) => {
                proof {
                    lemma_sorted_index(inner_maps(self@), i as int);
                }
                let inner = &self.map.entries[i].1;
                match inner.find_index(contract) {
                    Some(j) => {
                        proof {
                            lemma_sorted_index(inner@, j as int);
                        }
                        Some(inner.entries[j].1.clone())
                    },
                    None => {
                        proof {
                            lemma_pairs_map_dom(inner@, contract@);
                        }
                        None
                    },
                }
            },
            None => {
                proof {
                    assert forall|i: int| 0 <= i < inner_maps(self@).len() implies inner_maps(
                        self@,
                    )[i].0 != file@ by {
                        assert(self@[i].0 != file@);
                    }
                    lemma_pairs_map_dom(inner_maps(self@), file@);
                }
                None
            },
        }
    }
}

} // verus!
