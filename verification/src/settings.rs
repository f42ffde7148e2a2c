//! The compiler-input settings aggregate: construction, normalization, and
//! the library-binding parser entry point.

use vstd::prelude::*;

use crate::evm_version::tag_view;
use crate::evm_version::version_of_tag;
use crate::evm_version::EvmVersion;
use crate::libraries::libs_doc;
use crate::libraries::libs_fields;
use crate::libraries::parse_all;
use crate::libraries::parse_binding;
use crate::libraries::texts_doc;
use crate::libraries::inner_maps;
use crate::libraries::Libraries;
use crate::libraries::ParseError;
use crate::libraries::ParseErrorView;
use crate::metadata::Metadata;
use crate::node::fields_view;
use crate::node::lemma_fields_view_index;
use crate::node::lemma_fields_view_len;
use crate::node::lemma_fields_view_push;
use crate::node::lemma_nodes_view_index;
use crate::node::lemma_nodes_view_len;
use crate::node::node_view;
use crate::node::nodes_view;
use crate::node::obj_find;
use crate::node::obj_lookup;
use crate::node::Node;
use crate::node::NodeView;
use crate::optimizer::normalized_optimizer;
use crate::optimizer::optimizer_fields;
use crate::optimizer::optimizer_of_fields;
use crate::optimizer::Optimizer;
use crate::polkavm::PolkaVM;
use crate::remappings::remaps_doc;
use crate::remappings::remaps_items;
use crate::remappings::Remappings;
use crate::selection::Selection;
use crate::str_map::pairs_map;
use crate::str_map::StrMap;

verus! {

/// The settings sub-document of a standard-JSON compiler input. Every
/// optional field distinguishes "absent" from "present but empty"; absent
/// fields are omitted from the serialized document.
pub struct Settings {
    /// The target platform version, if the caller named one.
    pub evm_version: Option<EvmVersion>,
    /// The linked library addresses.
    pub libraries: Option<Libraries>,
    /// The sorted set of import remappings.
    pub remappings: Option<Remappings>,
    /// The output selection filters.
    pub output_selection: Option<Selection>,
    /// Whether to compile via intermediate representation. Write-only:
    /// never populated when a document is read back.
    pub via_ir: Option<bool>,
    /// The optimizer settings; the one field that is always present.
    pub optimizer: Optimizer,
    /// The metadata settings.
    pub metadata: Option<Metadata>,
    /// The backend-specific tuning; `normalize` clears it.
    pub polkavm: Option<PolkaVM>,
}

/// The mathematical content of a [`Settings`] value: association fields as
/// maps and sets, opaque fields as document shapes.
pub struct SettingsView {
    pub evm_version: Option<EvmVersion>,
    pub libraries: Option<Map<Seq<char>, Map<Seq<char>, Seq<char>>>>,
    pub remappings: Option<Set<Seq<char>>>,
    pub output_selection: Option<NodeView>,
    pub via_ir: Option<bool>,
    pub optimizer: Optimizer,
    pub metadata: Option<NodeView>,
    pub polkavm: Option<NodeView>,
}

impl View for Settings {
    type V = SettingsView;

    open spec fn view(&self) -> SettingsView {
        SettingsView {
            evm_version: self.evm_version,
            libraries: match self.libraries {
                Some(l) => Some(l.content()),
                None => None,
            },
            remappings: match self.remappings {
                Some(r) => Some(r.as_set()),
                None => None,
            },
            output_selection: match self.output_selection {
                Some(s) => Some(s@),
                None => None,
            },
            via_ir: self.via_ir,
            optimizer: self.optimizer,
            metadata: match self.metadata {
                Some(m) => Some(m@),
                None => None,
            },
            polkavm: match self.polkavm {
                Some(p) => Some(p@),
                None => None,
            },
        }
    }
}

/// The form `normalize` leaves a settings value in: backend tuning gone,
/// optimizer reset, everything else untouched.
pub open spec fn normalized_settings(s: SettingsView) -> SettingsView {
    SettingsView {
        evm_version: s.evm_version,
        libraries: s.libraries,
        remappings: s.remappings,
        output_selection: s.output_selection,
        via_ir: s.via_ir,
        optimizer: normalized_optimizer(s.optimizer),
        metadata: s.metadata,
        polkavm: None,
    }
}

impl Settings {
    /// The association fields, where present, are well-formed.
    pub open spec fn wf(&self) -> bool {
        &&& (self.libraries matches Some(l) ==> l.wf())
        &&& (self.remappings matches Some(r) ==> r.wf())
    }

    /// A shortcut constructor. The libraries and the output selection are
    /// wrapped as present even when empty, and `via_ir` is always `true`:
    /// this construction path always wants intermediate-representation
    /// compilation. Nothing is validated; there is no failure path.
    pub fn new(
        evm_version: Option<EvmVersion>,
        libraries: Libraries,
        remappings: Option<Remappings>,
        output_selection: Selection,
        optimizer: Optimizer,
        metadata: Option<Metadata>,
        polkavm: Option<PolkaVM>,
    ) -> (r: Self)
        ensures
            r.evm_version == evm_version,
            r.libraries == Some(libraries),
            r.remappings == remappings,
            r.output_selection == Some(output_selection),
            r.via_ir == Some(true),
            r.optimizer == optimizer,
            r.metadata == metadata,
            r.polkavm == polkavm,
    {
        Settings {
            evm_version,
            libraries: Some(libraries),
            remappings,
            output_selection: Some(output_selection),
            via_ir: Some(true),
            optimizer,
            metadata,
            polkavm,
        }
    }

    /// Sets the defaults required before the settings go to a target that
    /// does not understand backend tuning: the tuning field is cleared and
    /// the optimizer normalizes itself, both unconditionally.
    pub fn normalize(&mut self)
        ensures
            final(self)@ == normalized_settings(old(self)@),
            final(self).evm_version == old(self).evm_version,
            final(self).libraries == old(self).libraries,
            final(self).remappings == old(self).remappings,
            final(self).output_selection == old(self).output_selection,
            final(self).via_ir == old(self).via_ir,
            final(self).optimizer == normalized_optimizer(old(self).optimizer),
            final(self).metadata == old(self).metadata,
            final(self).polkavm is None,
            final(self).wf() == old(self).wf(),
    {
        self.polkavm = None;
        self.optimizer.normalize();
    }

    /// Parses library bindings `file:contract=address` into the nested
    /// association, in order, failing fast on the first malformed binding;
    /// a later binding of the same `(file, contract)` pair wins.
    pub fn parse_libraries(input: Vec<String>) -> (r: Result<Libraries, ParseError>)
        ensures
            match r {
                Ok(libs) => libs.wf() && parse_all(input.deep_view())
                    == Ok::<Map<Seq<char>, Map<Seq<char>, Seq<char>>>, ParseErrorView>(
                    libs.content(),
                ),
                Err(e) => parse_all(input.deep_view()) == Err::<
                    Map<Seq<char>, Map<Seq<char>, Seq<char>>>,
                    ParseErrorView,
                >(e@),
            },
    {
        let ghost all = input.deep_view();
        let mut libs = Libraries::new();
        let n = input.len();
        let mut i: usize = 0;
        while i < n
            invariant
                n == input@.len(),
                all == input.deep_view(),
                all.len() == n,
                0 <= i <= n,
                libs.wf(),
                parse_all(all.take(i as int)) == Ok::<
                    Map<Seq<char>, Map<Seq<char>, Seq<char>>>,
                    ParseErrorView,
                >(libs.content()),
            decreases n - i,
        {
            proof {
                assert(all[i as int] == input@[i as int]@);
                assert(all.take(i as int + 1).drop_last() =~= all.take(i as int));
                assert(all.take(i as int + 1).last() == all[i as int]);
            }
            match parse_binding(input[i].as_str(), i) {
                Ok(t) => {
                    let (file, contract, address) = t;
                    libs.add(file, contract, address);
                },
                Err(e) => {
                    proof {
                        crate::libraries::lemma_parse_all_prefix_err(all, i as int + 1);
                    }
                    return Err(e);
                },
            }
            i += 1;
        }
        proof {
            assert(all.take(n as int) =~= all);
        }
        Ok(libs)
    }

    /// Serializes the settings to their document: camel-case field names,
    /// absent fields omitted, `viaIR` under its fixed literal name.
    pub fn to_document(&self) -> (doc: Node)
        ensures
            doc@ == settings_doc(*self),
    {
        let mut fields: Vec<(String, Node)> = Vec::new();
        proof {
            assert(fields_view(fields@) =~= Seq::<(Seq<char>, NodeView)>::empty());
        }
        match &self.evm_version {
            Some(v) => {
                let ghost pre = fields@;
                let pair = ("evmVersion".to_owned(), Node::Text(v.tag()));
                fields.push(pair);
                proof {
                    lemma_fields_view_push(pre, pair);
                }
            },
            None => {},
        }
        match &self.libraries {
            Some(l) => {
                let ghost pre = fields@;
                let pair = ("libraries".to_owned(), l.to_node());
                fields.push(pair);
                proof {
                    lemma_fields_view_push(pre, pair);
                }
            },
            None => {},
        }
        match &self.remappings {
            Some(r) => {
                let ghost pre = fields@;
                let pair = ("remappings".to_owned(), r.to_node());
                fields.push(pair);
                proof {
                    lemma_fields_view_push(pre, pair);
                }
            },
            None => {},
        }
        match &self.output_selection {
            Some(sel) => {
                let ghost pre = fields@;
                let pair = ("outputSelection".to_owned(), sel.content.clone());
                fields.push(pair);
                proof {
                    lemma_fields_view_push(pre, pair);
                }
            },
            None => {},
        }
        match self.via_ir {
            Some(b) => {
                let ghost pre = fields@;
                let pair = ("viaIR".to_owned(), Node::Boolean(b));
                fields.push(pair);
                proof {
                    lemma_fields_view_push(pre, pair);
                }
            },
            None => {},
        }
        let ghost pre = fields@;
        let pair = ("optimizer".to_owned(), self.optimizer.to_node());
        fields.push(pair);
        proof {
            lemma_fields_view_push(pre, pair);
        }
        match &self.metadata {
            Some(m) => {
                let ghost pre = fields@;
                let pair = ("metadata".to_owned(), m.content.clone());
                fields.push(pair);
                proof {
                    lemma_fields_view_push(pre, pair);
                }
            },
            None => {},
        }
        match &self.polkavm {
            Some(p) => {
                let ghost pre = fields@;
                let pair = ("polkavm".to_owned(), p.content.clone());
                fields.push(pair);
                proof {
                    lemma_fields_view_push(pre, pair);
                }
            },
            None => {},
        }
        let doc = Node::Object(fields);
        proof {
            assert(fields_view(fields@) =~= settings_fields(*self));
        }
        doc
    }

    /// Reads settings back from a document. Unknown fields are ignored, and
    /// `viaIR` is never populated, whatever the document holds for it.
    pub fn from_document(doc: &Node) -> (r: Result<Settings, DocError>)
        ensures
            match r {
                Ok(s) => doc_to_settings(doc@) == Ok::<SettingsView, DocError>(s@) && s.wf()
                    && s.via_ir is None,
                Err(e) => doc_to_settings(doc@) == Err::<SettingsView, DocError>(e),
            },
    {
        let fields = match doc {
            Node::Object(f) => f,
            _ => {
                return Err(DocError::NotAnObject);
            },
        };
        let evm_version = match obj_find(fields, "evmVersion") {
            None => None,
            Some(i) => match &fields[i].1 {
                Node::Text(t) => match EvmVersion::from_tag(t.as_str()) {
                    Some(v) => Some(v),
                    None => {
                        return Err(DocError::BadEvmVersion);
                    },
                },
                _ => {
                    return Err(DocError::BadEvmVersion);
                },
            },
        };
        let libraries = match obj_find(fields, "libraries") {
            None => None,
            Some(i) => match &fields[i].1 {
                Node::Object(lf) => match libraries_from_fields(lf) {
                    Some(l) => Some(l),
                    None => {
                        return Err(DocError::BadLibraries);
                    },
                },
                _ => {
                    return Err(DocError::BadLibraries);
                },
            },
        };
        let remappings = match obj_find(fields, "remappings") {
            None => None,
            Some(i) => match &fields[i].1 {
                Node::List(items) => match remaps_from_items(items) {
                    Some(r) => Some(r),
                    None => {
                        return Err(DocError::BadRemappings);
                    },
                },
                _ => {
                    return Err(DocError::BadRemappings);
                },
            },
        };
        let optimizer = match obj_find(fields, "optimizer") {
            Some(i) => match &fields[i].1 {
                Node::Object(of) => match Optimizer::from_fields(of) {
                    Some(o) => o,
                    None => {
                        return Err(DocError::BadOptimizer);
                    },
                },
                _ => {
                    return Err(DocError::BadOptimizer);
                },
            },
            None => {
                return Err(DocError::BadOptimizer);
            },
        };
        let output_selection = match obj_find(fields, "outputSelection") {
            Some(i) => Some(Selection::new(fields[i].1.clone())),
            None => None,
        };
        let metadata = match obj_find(fields, "metadata") {
            Some(i) => Some(Metadata::new(fields[i].1.clone())),
            None => None,
        };
        let polkavm = match obj_find(fields, "polkavm") {
            Some(i) => Some(PolkaVM::new(fields[i].1.clone())),
            None => None,
        };
        Ok(
            Settings {
                evm_version,
                libraries,
                remappings,
                output_selection,
                via_ir: None,
                optimizer,
                metadata,
                polkavm,
            },
        )
    }
}

/// A failed prefix spoils the whole inner object read.
proof fn lemma_texts_content_prefix_none(fs: Seq<(Seq<char>, NodeView)>, k: int)
    requires
        0 <= k <= fs.len(),
        texts_content(fs.take(k)) is None,
    ensures
        texts_content(fs) is None,
    decreases fs.len() - k,
{
    if k == fs.len() {
        assert(fs.take(k) =~= fs);
    } else {
        assert(fs.drop_last().take(k) =~= fs.take(k));
        lemma_texts_content_prefix_none(fs.drop_last(), k);
    }
}

proof fn lemma_libs_content_prefix_none(lf: Seq<(Seq<char>, NodeView)>, k: int)
    requires
        0 <= k <= lf.len(),
        libs_content(lf.take(k)) is None,
    ensures
        libs_content(lf) is None,
    decreases lf.len() - k,
{
    if k == lf.len() {
        assert(lf.take(k) =~= lf);
    } else {
        assert(lf.drop_last().take(k) =~= lf.take(k));
        lemma_libs_content_prefix_none(lf.drop_last(), k);
    }
}

proof fn lemma_texts_set_prefix_none(items: Seq<NodeView>, k: int)
    requires
        0 <= k <= items.len(),
        texts_set(items.take(k)) is None,
    ensures
        texts_set(items) is None,
    decreases items.len() - k,
{
    if k == items.len() {
        assert(items.take(k) =~= items);
    } else {
        assert(items.drop_last().take(k) =~= items.take(k));
        lemma_texts_set_prefix_none(items.drop_last(), k);
    }
}

/// Reads one inner contract-to-address object.
fn texts_from_fields(fs: &Vec<(String, Node)>) -> (r: Option<StrMap<String>>)
    ensures
        match r {
            Some(m) => m.wf() && texts_content(fields_view(fs@)) == Some(m.as_map()),
            None => texts_content(fields_view(fs@)) is None,
        },
{
    broadcast use lemma_fields_view_len, lemma_fields_view_index;

    let ghost fv = fields_view(fs@);
    let mut m: StrMap<String> = StrMap::new();
    let n = fs.len();
    let mut i: usize = 0;
    proof {
        assert(fv.take(0) =~= Seq::<(Seq<char>, NodeView)>::empty());
        assert(m.as_map() =~= Map::<Seq<char>, Seq<char>>::empty());
    }
    while i < n
        invariant
            n == fs@.len(),
            fv == fields_view(fs@),
            fv.len() == n,
            0 <= i <= n,
            m.wf(),
            texts_content(fv.take(i as int)) == Some(m.as_map()),
        decreases n - i,
    {
        proof {
            assert(fv.take(i as int + 1).drop_last() =~= fv.take(i as int));
            assert(fv.take(i as int + 1).last() == fv[i as int]);
            lemma_fields_view_index(fs@, i as int);
            assert(fv[i as int] == (fs@[i as int].0@, node_view(fs@[i as int].1)));
        }
        match &fs[i].1 {
            Node::Text(t) => {
                m.insert(fs[i].0.clone(), t.clone());
            },
            _ => {
                proof {
                    lemma_texts_content_prefix_none(fv, i as int + 1);
                }
                return None;
            },
        }
        i += 1;
    }
    proof {
        assert(fv.take(n as int) =~= fv);
    }
    Some(m)
}

/// Reads a whole libraries object.
fn libraries_from_fields(lf: &Vec<(String, Node)>) -> (r: Option<Libraries>)
    ensures
        match r {
            Some(l) => l.wf() && libs_content(fields_view(lf@)) == Some(l.content()),
            None => libs_content(fields_view(lf@)) is None,
        },
{
    broadcast use lemma_fields_view_len, lemma_fields_view_index;

    let ghost fv = fields_view(lf@);
    let mut libs = Libraries::new();
    let n = lf.len();
    let mut i: usize = 0;
    proof {
        assert(fv.take(0) =~= Seq::<(Seq<char>, NodeView)>::empty());
        assert(libs.content() =~= Map::<Seq<char>, Map<Seq<char>, Seq<char>>>::empty());
    }
    while i < n
        invariant
            n == lf@.len(),
            fv == fields_view(lf@),
            fv.len() == n,
            0 <= i <= n,
            libs.wf(),
            libs_content(fv.take(i as int)) == Some(libs.content()),
        decreases n - i,
    {
        proof {
            assert(fv.take(i as int + 1).drop_last() =~= fv.take(i as int));
            assert(fv.take(i as int + 1).last() == fv[i as int]);
            lemma_fields_view_index(lf@, i as int);
            assert(fv[i as int] == (lf@[i as int].0@, node_view(lf@[i as int].1)));
        }
        match &lf[i].1 {
            Node::Object(inner) => match texts_from_fields(inner) {
                Some(m) => {
                    libs.set_file(lf[i].0.clone(), m);
                },
                None => {
                    proof {
                        lemma_libs_content_prefix_none(fv, i as int + 1);
                    }
                    return None;
                },
            },
            _ => {
                proof {
                    lemma_libs_content_prefix_none(fv, i as int + 1);
                }
                return None;
            },
        }
        i += 1;
    }
    proof {
        assert(fv.take(n as int) =~= fv);
    }
    Some(libs)
}

/// Reads a remapping list.
fn remaps_from_items(items: &Vec<Node>) -> (r: Option<Remappings>)
    ensures
        match r {
            Some(rm) => rm.wf() && texts_set(nodes_view(items@)) == Some(rm.as_set()),
            None => texts_set(nodes_view(items@)) is None,
        },
{
    broadcast use lemma_nodes_view_len, lemma_nodes_view_index;

    let ghost iv = nodes_view(items@);
    let mut rm = Remappings::new();
    let n = items.len();
    let mut i: usize = 0;
    proof {
        assert(iv.take(0) =~= Seq::<NodeView>::empty());
        assert(rm.as_set() =~= Set::<Seq<char>>::empty());
    }
    while i < n
        invariant
            n == items@.len(),
            iv == nodes_view(items@),
            iv.len() == n,
            0 <= i <= n,
            rm.wf(),
            texts_set(iv.take(i as int)) == Some(rm.as_set()),
        decreases n - i,
    {
        proof {
            assert(iv.take(i as int + 1).drop_last() =~= iv.take(i as int));
            assert(iv.take(i as int + 1).last() == iv[i as int]);
            lemma_nodes_view_index(items@, i as int);
            assert(iv[i as int] == node_view(items@[i as int]));
        }
        match &items[i] {
            Node::Text(t) => {
                rm.insert(t.clone());
            },
            _ => {
                proof {
                    lemma_texts_set_prefix_none(iv, i as int + 1);
                }
                return None;
            },
        }
        i += 1;
    }
    proof {
        assert(iv.take(n as int) =~= iv);
    }
    Some(rm)
}

/// Why a document cannot be read back as settings.
#[derive(Clone, Copy, PartialEq, Eq, Structural, Debug)]
pub enum DocError {
    /// The document is not an object.
    NotAnObject,
    /// `evmVersion` is present but is not a known version tag.
    BadEvmVersion,
    /// `libraries` is present but is not an object of objects of text.
    BadLibraries,
    /// `remappings` is present but is not a list of text.
    BadRemappings,
    /// `optimizer` is missing or is not an optimizer object.
    BadOptimizer,
}

/// The document fields a settings value serializes to: camel-case names,
/// absent fields omitted, and `viaIR` under its fixed literal name.
pub open spec fn settings_fields(s: Settings) -> Seq<(Seq<char>, NodeView)> {
    let f0 = Seq::<(Seq<char>, NodeView)>::empty();
    let f1 = match s.evm_version {
        Some(v) => f0.push(("evmVersion"@, NodeView::Text(tag_view(v)))),
        None => f0,
    };
    let f2 = match s.libraries {
        Some(l) => f1.push(("libraries"@, libs_doc(l@))),
        None => f1,
    };
    let f3 = match s.remappings {
        Some(r) => f2.push(("remappings"@, remaps_doc(r@))),
        None => f2,
    };
    let f4 = match s.output_selection {
        Some(sel) => f3.push(("outputSelection"@, sel@)),
        None => f3,
    };
    let f5 = match s.via_ir {
        Some(b) => f4.push(("viaIR"@, NodeView::Boolean(b))),
        None => f4,
    };
    let f6 = f5.push(("optimizer"@, NodeView::Object(optimizer_fields(s.optimizer))));
    let f7 = match s.metadata {
        Some(m) => f6.push(("metadata"@, m@)),
        None => f6,
    };
    match s.polkavm {
        Some(p) => f7.push(("polkavm"@, p@)),
        None => f7,
    }
}

/// The document a settings value serializes to.
pub open spec fn settings_doc(s: Settings) -> NodeView {
    NodeView::Object(settings_fields(s))
}

/// The inner contract-to-address mapping a document object reads back as.
pub open spec fn texts_content(fs: Seq<(Seq<char>, NodeView)>) -> Option<Map<Seq<char>, Seq<char>>>
    decreases fs.len(),
{
    if fs.len() == 0 {
        Some(Map::empty())
    } else {
        match texts_content(fs.drop_last()) {
            None => None,
            Some(m) => match fs.last().1 {
                NodeView::Text(t) => Some(m.insert(fs.last().0, t)),
                _ => None,
            },
        }
    }
}

/// The library mapping a document object reads back as: a later field of
/// the same file name replaces the earlier one whole.
pub open spec fn libs_content(lf: Seq<(Seq<char>, NodeView)>) -> Option<
    Map<Seq<char>, Map<Seq<char>, Seq<char>>>,
>
    decreases lf.len(),
{
    if lf.len() == 0 {
        Some(Map::empty())
    } else {
        match libs_content(lf.drop_last()) {
            None => None,
            Some(m) => match lf.last().1 {
                NodeView::Object(inner) => match texts_content(inner) {
                    Some(im) => Some(m.insert(lf.last().0, im)),
                    None => None,
                },
                _ => None,
            },
        }
    }
}

/// The remapping set a document list reads back as.
pub open spec fn texts_set(items: Seq<NodeView>) -> Option<Set<Seq<char>>>
    decreases items.len(),
{
    if items.len() == 0 {
        Some(Set::empty())
    } else {
        match texts_set(items.drop_last()) {
            None => None,
            Some(s) => match items.last() {
                NodeView::Text(t) => Some(s.insert(t)),
                _ => None,
            },
        }
    }
}

pub open spec fn spec_evm(fields: Seq<(Seq<char>, NodeView)>) -> Result<
    Option<EvmVersion>,
    DocError,
> {
    match obj_lookup(fields, "evmVersion"@) {
        None => Ok(None),
        Some(NodeView::Text(t)) => match version_of_tag(t) {
            Some(v) => Ok(Some(v)),
            None => Err(DocError::BadEvmVersion),
        },
        Some(_) => Err(DocError::BadEvmVersion),
    }
}

pub open spec fn spec_libs(fields: Seq<(Seq<char>, NodeView)>) -> Result<
    Option<Map<Seq<char>, Map<Seq<char>, Seq<char>>>>,
    DocError,
> {
    match obj_lookup(fields, "libraries"@) {
        None => Ok(None),
        Some(NodeView::Object(lf)) => match libs_content(lf) {
            Some(m) => Ok(Some(m)),
            None => Err(DocError::BadLibraries),
        },
        Some(_) => Err(DocError::BadLibraries),
    }
}

pub open spec fn spec_remaps(fields: Seq<(Seq<char>, NodeView)>) -> Result<
    Option<Set<Seq<char>>>,
    DocError,
> {
    match obj_lookup(fields, "remappings"@) {
        None => Ok(None),
        Some(NodeView::List(items)) => match texts_set(items) {
            Some(s) => Ok(Some(s)),
            None => Err(DocError::BadRemappings),
        },
        Some(_) => Err(DocError::BadRemappings),
    }
}

pub open spec fn spec_opt(fields: Seq<(Seq<char>, NodeView)>) -> Result<Optimizer, DocError> {
    match obj_lookup(fields, "optimizer"@) {
        Some(NodeView::Object(of)) => match optimizer_of_fields(of) {
            Some(o) => Ok(o),
            None => Err(DocError::BadOptimizer),
        },
        Some(_) => Err(DocError::BadOptimizer),
        None => Err(DocError::BadOptimizer),
    }
}

/// What a document reads back as: the settings content, or the first
/// failure in field order. `viaIR` is never populated, whatever the
/// document holds for it.
pub open spec fn doc_to_settings(d: NodeView) -> Result<SettingsView, DocError> {
    match d {
        NodeView::Object(fields) => match spec_evm(fields) {
            Err(e) => Err(e),
            Ok(ev) => match spec_libs(fields) {
                Err(e) => Err(e),
                Ok(libs) => match spec_remaps(fields) {
                    Err(e) => Err(e),
                    Ok(rm) => match spec_opt(fields) {
                        Err(e) => Err(e),
                        Ok(op) => Ok(
                            SettingsView {
                                evm_version: ev,
                                libraries: libs,
                                remappings: rm,
                                output_selection: obj_lookup(fields, "outputSelection"@),
                                via_ir: None,
                                optimizer: op,
                                metadata: obj_lookup(fields, "metadata"@),
                                polkavm: obj_lookup(fields, "polkavm"@),
                            },
                        ),
                    },
                },
            },
        },
        _ => Err(DocError::NotAnObject),
    }
}

proof fn lemma_texts_round_trip(inner: Seq<(Seq<char>, Seq<char>)>)
    ensures
        texts_content(texts_doc(inner)) == Some(pairs_map(inner)),
    decreases inner.len(),
{
    if inner.len() == 0 {
        assert(texts_doc(inner) =~= Seq::<(Seq<char>, NodeView)>::empty());
    } else {
        let td = texts_doc(inner);
        assert(td.drop_last() =~= texts_doc(inner.drop_last()));
        assert(td.last() == (inner.last().0, NodeView::Text(inner.last().1)));
        lemma_texts_round_trip(inner.drop_last());
    }
}

proof fn lemma_libs_round_trip(entries: Seq<(Seq<char>, Seq<(Seq<char>, Seq<char>)>)>)
    ensures
        libs_content(libs_fields(entries)) == Some(pairs_map(inner_maps(entries))),
    decreases entries.len(),
{
    if entries.len() == 0 {
        assert(libs_fields(entries) =~= Seq::<(Seq<char>, NodeView)>::empty());
        assert(inner_maps(entries) =~= Seq::<(Seq<char>, Map<Seq<char>, Seq<char>>)>::empty());
    } else {
        let lf = libs_fields(entries);
        assert(lf.drop_last() =~= libs_fields(entries.drop_last()));
        assert(lf.last() == (entries.last().0, NodeView::Object(texts_doc(entries.last().1))));
        lemma_libs_round_trip(entries.drop_last());
        lemma_texts_round_trip(entries.last().1);
        assert(inner_maps(entries).drop_last() =~= inner_maps(entries.drop_last()));
        assert(inner_maps(entries).last() == (entries.last().0, pairs_map(entries.last().1)));
    }
}

proof fn lemma_remaps_round_trip(entries: Seq<Seq<char>>)
    ensures
        texts_set(remaps_items(entries)) == Some(crate::remappings::strs_set(entries)),
    decreases entries.len(),
{
    if entries.len() == 0 {
        assert(remaps_items(entries) =~= Seq::<NodeView>::empty());
    } else {
        assert(remaps_items(entries).drop_last() =~= remaps_items(entries.drop_last()));
        assert(remaps_items(entries).last() == NodeView::Text(entries.last()));
        lemma_remaps_round_trip(entries.drop_last());
    }
}

/// Serializing a settings value and reading the document back preserves
/// every present field and leaves `viaIR` absent, whatever was written
/// for it.
pub proof fn lemma_document_round_trip(s: Settings)
    requires
        s.wf(),
    ensures
        doc_to_settings(settings_doc(s)) == Ok::<SettingsView, DocError>(
            SettingsView { via_ir: None, ..s@ },
        ),
{
    reveal_strlit("evmVersion");
    reveal_strlit("libraries");
    reveal_strlit("remappings");
    reveal_strlit("outputSelection");
    reveal_strlit("viaIR");
    reveal_strlit("optimizer");
    reveal_strlit("metadata");
    reveal_strlit("polkavm");
    assert("evmVersion"@.len() == 10);
    assert("libraries"@.len() == 9);
    assert("remappings"@.len() == 10);
    assert("outputSelection"@.len() == 15);
    assert("viaIR"@.len() == 5);
    assert("optimizer"@.len() == 9);
    assert("metadata"@.len() == 8);
    assert("polkavm"@.len() == 7);
    assert("evmVersion"@ != "remappings"@) by {
        assert("evmVersion"@[0] != "remappings"@[0]);
    }
    assert("libraries"@ != "optimizer"@) by {
        assert("libraries"@[0] != "optimizer"@[0]);
    }
    let f0 = Seq::<(Seq<char>, NodeView)>::empty();
    let f1 = match s.evm_version {
        Some(v) => f0.push(("evmVersion"@, NodeView::Text(tag_view(v)))),
        None => f0,
    };
    let f2 = match s.libraries {
        Some(l) => f1.push(("libraries"@, libs_doc(l@))),
        None => f1,
    };
    let f3 = match s.remappings {
        Some(r) => f2.push(("remappings"@, remaps_doc(r@))),
        None => f2,
    };
    let f4 = match s.output_selection {
        Some(sel) => f3.push(("outputSelection"@, sel@)),
        None => f3,
    };
    let f5 = match s.via_ir {
        Some(b) => f4.push(("viaIR"@, NodeView::Boolean(b))),
        None => f4,
    };
    let f6 = f5.push(("optimizer"@, NodeView::Object(optimizer_fields(s.optimizer))));
    let f7 = match s.metadata {
        Some(m) => f6.push(("metadata"@, m@)),
        None => f6,
    };
    let f8 = match s.polkavm {
        Some(p) => f7.push(("polkavm"@, p@)),
        None => f7,
    };
    assert(settings_fields(s) == f8);
    assert forall|k: Seq<char>| #[trigger] obj_lookup(f1, k) == (if s.evm_version is Some && k
        == "evmVersion"@ {
        Some(NodeView::Text(tag_view(s.evm_version->0)))
    } else {
        obj_lookup(f0, k)
    }) by {
        match s.evm_version {
            Some(v) => crate::node::lemma_obj_lookup_push(
                f0,
                ("evmVersion"@, NodeView::Text(tag_view(v))),
                k,
            ),
            None => {},
        }
    }
    assert forall|k: Seq<char>| #[trigger] obj_lookup(f2, k) == (if s.libraries is Some && k
        == "libraries"@ {
        Some(libs_doc(s.libraries->0@))
    } else {
        obj_lookup(f1, k)
    }) by {
        match s.libraries {
            Some(l) => crate::node::lemma_obj_lookup_push(f1, ("libraries"@, libs_doc(l@)), k),
            None => {},
        }
    }
    assert forall|k: Seq<char>| #[trigger] obj_lookup(f3, k) == (if s.remappings is Some && k
        == "remappings"@ {
        Some(remaps_doc(s.remappings->0@))
    } else {
        obj_lookup(f2, k)
    }) by {
        match s.remappings {
            Some(r) => crate::node::lemma_obj_lookup_push(f2, ("remappings"@, remaps_doc(r@)), k),
            None => {},
        }
    }
    assert forall|k: Seq<char>| #[trigger] obj_lookup(f4, k) == (if s.output_selection is Some && k
        == "outputSelection"@ {
        Some(s.output_selection->0@)
    } else {
        obj_lookup(f3, k)
    }) by {
        match s.output_selection {
            Some(sel) => crate::node::lemma_obj_lookup_push(f3, ("outputSelection"@, sel@), k),
            None => {},
        }
    }
    assert forall|k: Seq<char>| #[trigger] obj_lookup(f5, k) == (if s.via_ir is Some && k
        == "viaIR"@ {
        Some(NodeView::Boolean(s.via_ir->0))
    } else {
        obj_lookup(f4, k)
    }) by {
        match s.via_ir {
            Some(b) => crate::node::lemma_obj_lookup_push(f4, ("viaIR"@, NodeView::Boolean(b)), k),
            None => {},
        }
    }
    assert forall|k: Seq<char>| #[trigger] obj_lookup(f6, k) == (if k == "optimizer"@ {
        Some(NodeView::Object(optimizer_fields(s.optimizer)))
    } else {
        obj_lookup(f5, k)
    }) by {
        crate::node::lemma_obj_lookup_push(
            f5,
            ("optimizer"@, NodeView::Object(optimizer_fields(s.optimizer))),
            k,
        );
    }
    assert forall|k: Seq<char>| #[trigger] obj_lookup(f7, k) == (if s.metadata is Some && k
        == "metadata"@ {
        Some(s.metadata->0@)
    } else {
        obj_lookup(f6, k)
    }) by {
        match s.metadata {
            Some(m) => crate::node::lemma_obj_lookup_push(f6, ("metadata"@, m@), k),
            None => {},
        }
    }
    assert forall|k: Seq<char>| #[trigger] obj_lookup(f8, k) == (if s.polkavm is Some && k
        == "polkavm"@ {
        Some(s.polkavm->0@)
    } else {
        obj_lookup(f7, k)
    }) by {
        match s.polkavm {
            Some(p) => crate::node::lemma_obj_lookup_push(f7, ("polkavm"@, p@), k),
            None => {},
        }
    }
    assert forall|k: Seq<char>| obj_lookup(f0, k) is None by {
    }
    // evmVersion
    match s.evm_version {
        Some(v) => {
            assert(obj_lookup(f8, "evmVersion"@) == Some(NodeView::Text(tag_view(v))));
            crate::evm_version::lemma_tag_round_trip(v);
            assert(spec_evm(f8) == Ok::<Option<EvmVersion>, DocError>(Some(v)));
        },
        None => {
            assert(obj_lookup(f8, "evmVersion"@) is None);
            assert(spec_evm(f8) == Ok::<Option<EvmVersion>, DocError>(None));
        },
    }
    // libraries
    match s.libraries {
        Some(l) => {
            assert(obj_lookup(f8, "libraries"@) == Some(libs_doc(l@)));
            lemma_libs_round_trip(l@);
            assert(spec_libs(f8) == Ok::<Option<Map<Seq<char>, Map<Seq<char>, Seq<char>>>>, DocError>(
                Some(l.content()),
            ));
        },
        None => {
            assert(obj_lookup(f8, "libraries"@) is None);
        },
    }
    // remappings
    match s.remappings {
        Some(r) => {
            assert(obj_lookup(f8, "remappings"@) == Some(remaps_doc(r@)));
            lemma_remaps_round_trip(r@);
            crate::remappings::lemma_remappings_as_set(r);
            assert(spec_remaps(f8) == Ok::<Option<Set<Seq<char>>>, DocError>(Some(r.as_set())));
        },
        None => {
            assert(obj_lookup(f8, "remappings"@) is None);
        },
    }
    // optimizer
    assert(obj_lookup(f8, "optimizer"@) == Some(
        NodeView::Object(optimizer_fields(s.optimizer)),
    ));
    crate::optimizer::lemma_optimizer_round_trip(s.optimizer);
    assert(spec_opt(f8) == Ok::<Optimizer, DocError>(s.optimizer));
}

/// Normalization is idempotent: a second pass yields the same field values
/// as the first, and the backend tuning is absent after either.
pub proof fn lemma_normalize_idempotent(s: SettingsView)
    ensures
        normalized_settings(normalized_settings(s)) == normalized_settings(s),
        normalized_settings(s).polkavm is None,
{
}

} // verus!
