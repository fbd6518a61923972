//! The document sink: a node arena plus the tree mutation operations that an
//! external tree-building algorithm drives.

use vstd::prelude::*;

use crate::model::{
    attrs_view, merge_attrs, Attr, AttrV, Doctype, Handle, HtmlAttribute, NextParserState, Node,
    NodeData, NodeKind, NodeOrText, QualName, QuirksMode, SinkError, Tag,
};
use crate::model::{html_namespace, mathml_namespace, ns_html, ns_mathml, qual_name_eq};
use crate::seqs::{
    lemma_remove_at_first_index, lemma_remove_first_contains, lemma_remove_first_distinct,
    seq_remove_first,
};

verus! {

/// The DOM-construction sink.  It owns every node of the document being
/// built, hands out stable [`Handle`]s, and applies the mutation commands of
/// the external tree builder.
pub struct HtmlParser {
    nodes: Vec<Node>,
    doctype: Option<Doctype>,
    quirks: QuirksMode,
    finished: bool,
}

/// The finished document tree, produced by [`HtmlParser::finish`]: the node
/// arena rooted at the document node, together with the captured doctype and
/// quirks mode.
pub struct HtmlAst {
    nodes: Vec<Node>,
    doctype: Option<Doctype>,
    quirks: QuirksMode,
}

/// Is a node of this kind allowed to hold children?
pub open spec fn container_kind(k: NodeKind) -> bool {
    k == NodeKind::Document || k == NodeKind::Element
}

pub(crate) open spec fn child_in(nodes: Seq<Node>, p: int, c: int) -> bool {
    exists|k: int| 0 <= k < nodes[p].children@.len() && (#[trigger] nodes[p].children@[k]).idx == c
}

/// Well-formedness of one node record: stored handles resolve, the parent
/// back-reference and the children lists agree, children lists are
/// duplicate-free, no node is its own parent, and only documents and
/// elements hold children.
pub(crate) open spec fn node_wf(nodes: Seq<Node>, i: int) -> bool {
    let n = nodes[i];
    &&& (match n.parent {
        Some(p) => p.idx < nodes.len() && p.idx != i && child_in(nodes, p.idx as int, i),
        None => true,
    })
    &&& (forall|k: int|
        0 <= k < n.children@.len() ==> ((#[trigger] n.children@[k]).idx < nodes.len()
            && nodes[n.children@[k].idx as int].parent == Some(Handle { idx: i as usize })))
    &&& n.children@.no_duplicates()
    &&& (!container_kind(n.kind()) ==> n.children@.len() == 0)
    &&& (match n.template() {
        Some(t) => t.idx < nodes.len(),
        None => true,
    })
}

pub(crate) open spec fn arena_wf(nodes: Seq<Node>) -> bool {
    &&& nodes.len() >= 1
    &&& nodes[0].kind() == NodeKind::Document
    &&& nodes[0].parent is None
    &&& forall|i: int| 0 <= i < nodes.len() ==> #[trigger] node_wf(nodes, i)
}

impl HtmlParser {
    /// How many nodes the arena holds.
    pub closed spec fn node_count(&self) -> nat {
        self.nodes@.len()
    }

    /// Does this handle refer to a node of the arena?
    pub closed spec fn valid(&self, h: Handle) -> bool {
        h.idx < self.nodes@.len()
    }

    /// The handle the next allocation will return.
    pub closed spec fn next_handle(&self) -> Handle {
        Handle { idx: self.nodes@.len() as usize }
    }

    /// The handle of the document root.
    pub closed spec fn doc_handle(&self) -> Handle {
        Handle { idx: 0 }
    }

    pub closed spec fn parent_of(&self, h: Handle) -> Option<Handle> {
        self.nodes@[h.idx as int].parent
    }

    pub closed spec fn children_of(&self, h: Handle) -> Seq<Handle> {
        self.nodes@[h.idx as int].children@
    }

    pub closed spec fn kind_of(&self, h: Handle) -> NodeKind {
        self.nodes@[h.idx as int].kind()
    }

    /// The text buffer of a text or comment node.
    pub closed spec fn text_of(&self, h: Handle) -> Seq<char> {
        self.nodes@[h.idx as int].text()
    }

    pub closed spec fn elem_ns_of(&self, h: Handle) -> Seq<char> {
        self.nodes@[h.idx as int].elem_ns()
    }

    pub closed spec fn elem_local_of(&self, h: Handle) -> Seq<char> {
        self.nodes@[h.idx as int].elem_local()
    }

    /// The attribute list of an element, in storage order.
    pub closed spec fn attrs_of(&self, h: Handle) -> Seq<AttrV> {
        self.nodes@[h.idx as int].attrs()
    }

    /// The template-contents handle of a template element, once created.
    pub closed spec fn template_of(&self, h: Handle) -> Option<Handle> {
        self.nodes@[h.idx as int].template()
    }

    pub closed spec fn pi_target_of(&self, h: Handle) -> Seq<char> {
        self.nodes@[h.idx as int].pi_target()
    }

    pub closed spec fn pi_data_of(&self, h: Handle) -> Seq<char> {
        self.nodes@[h.idx as int].pi_data()
    }

    /// The doctype captured on the document: name, public identifier,
    /// system identifier.
    pub closed spec fn doctype_of(&self) -> Option<(Seq<char>, Seq<char>, Seq<char>)> {
        match self.doctype {
            Some(d) => Some((d.name@, d.public_id@, d.system_id@)),
            None => None,
        }
    }

    pub closed spec fn quirks_of(&self) -> QuirksMode {
        self.quirks
    }

    pub closed spec fn is_finished(&self) -> bool {
        self.finished
    }

    pub closed spec fn arena_ok(&self) -> bool {
        arena_wf(self.nodes@)
    }

    /// Well-formedness of the sink.  Established by [`HtmlParser::new`] and
    /// preserved by every operation; a finished sink no longer carries the
    /// arena.
    pub open spec fn wf(&self) -> bool {
        self.is_finished() || self.arena_ok()
    }
}

/// The payload of node `h` (kind, names, buffers, attributes, template
/// link) is the same in both states.
pub open spec fn node_payload_unchanged(s0: &HtmlParser, s1: &HtmlParser, h: Handle) -> bool {
    &&& s1.kind_of(h) == s0.kind_of(h)
    &&& s1.text_of(h) == s0.text_of(h)
    &&& s1.elem_ns_of(h) == s0.elem_ns_of(h)
    &&& s1.elem_local_of(h) == s0.elem_local_of(h)
    &&& s1.attrs_of(h) == s0.attrs_of(h)
    &&& s1.template_of(h) == s0.template_of(h)
    &&& s1.pi_target_of(h) == s0.pi_target_of(h)
    &&& s1.pi_data_of(h) == s0.pi_data_of(h)
}

/// Node `h` is entirely the same in both states.
pub open spec fn node_unchanged(s0: &HtmlParser, s1: &HtmlParser, h: Handle) -> bool {
    &&& s1.parent_of(h) == s0.parent_of(h)
    &&& s1.children_of(h) == s0.children_of(h)
    &&& node_payload_unchanged(s0, s1, h)
}

/// The document metadata (doctype, quirks mode) and the finished flag are
/// the same in both states.
pub open spec fn meta_unchanged(s0: &HtmlParser, s1: &HtmlParser) -> bool {
    &&& s1.doctype_of() == s0.doctype_of()
    &&& s1.quirks_of() == s0.quirks_of()
    &&& s1.is_finished() == s0.is_finished()
    &&& s1.doc_handle() == s0.doc_handle()
}

/// Handles are stable: no live handle is ever invalidated, and no handle
/// springs into existence, across a non-allocating operation.
pub open spec fn valid_unchanged(s0: &HtmlParser, s1: &HtmlParser) -> bool {
    forall|h: Handle| (#[trigger] s1.valid(h)) == s0.valid(h)
}

/// No node of the arena changed in any way.
pub open spec fn all_nodes_unchanged(s0: &HtmlParser, s1: &HtmlParser) -> bool {
    &&& s1.node_count() == s0.node_count()
    &&& valid_unchanged(s0, s1)
    &&& s1.doc_handle() == s0.doc_handle()
    &&& forall|h: Handle| s0.valid(h) ==> #[trigger] node_unchanged(s0, s1, h)
}

/// Node `x` was detached from its former parent `q`: it is parentless, `q`
/// lost exactly the one entry for `x`, and nothing else changed.
pub open spec fn detached(s0: &HtmlParser, s1: &HtmlParser, x: Handle, q: Handle) -> bool {
    &&& valid_unchanged(s0, s1)
    &&& s1.parent_of(x) == None::<Handle>
    &&& s1.children_of(x) == s0.children_of(x)
    &&& node_payload_unchanged(s0, s1, x)
    &&& s1.children_of(q) == seq_remove_first(s0.children_of(q), x)
    &&& !s1.children_of(q).contains(x)
    &&& s1.parent_of(q) == s0.parent_of(q)
    &&& node_payload_unchanged(s0, s1, q)
    &&& s1.node_count() == s0.node_count()
    &&& meta_unchanged(s0, s1)
    &&& forall|h: Handle|
        s0.valid(h) && h != x && h != q ==> #[trigger] node_unchanged(s0, s1, h)
}

/// A freshly created element with the given name and deduplicated
/// attributes: parentless, childless, with a fresh template-contents
/// fragment exactly when the name is the HTML `template` element.
pub open spec fn created_element(
    s0: &HtmlParser,
    s1: &HtmlParser,
    ns: Seq<char>,
    local: Seq<char>,
    attrs: Seq<AttrV>,
    r: Handle,
) -> bool {
    let is_template = ns == html_namespace() && local == "template"@;
    &&& !s0.valid(r)
    &&& s1.valid(r)
    &&& s1.node_count() == s0.node_count() + (if is_template { 2int } else { 1int })
    &&& (forall|h: Handle|
        (#[trigger] s1.valid(h)) == (s0.valid(h) || h == r || (is_template
            && s1.template_of(r) == Some(h))))
    &&& s1.kind_of(r) == NodeKind::Element
    &&& s1.parent_of(r) == None::<Handle>
    &&& s1.children_of(r) == Seq::<Handle>::empty()
    &&& s1.elem_ns_of(r) == ns
    &&& s1.elem_local_of(r) == local
    &&& s1.attrs_of(r) == merge_attrs(Seq::<AttrV>::empty(), attrs)
    &&& (if is_template {
        s1.template_of(r) matches Some(f) && !s0.valid(f) && s1.valid(f) && f != r
            && s1.kind_of(f) == NodeKind::Document && s1.parent_of(f) == None::<Handle>
            && s1.children_of(f) == Seq::<Handle>::empty() && s1.template_of(f)
            == None::<Handle>
    } else {
        s1.template_of(r) == None::<Handle>
    })
    &&& (forall|h: Handle| s0.valid(h) ==> #[trigger] node_unchanged(s0, s1, h))
    &&& (forall|h: Handle| s0.valid(h) ==> #[trigger] s1.valid(h))
    &&& meta_unchanged(s0, s1)
}

/// A freshly created leaf node (text, comment or processing instruction):
/// parentless, childless, everything else of the arena untouched.
pub open spec fn created_leaf(s0: &HtmlParser, s1: &HtmlParser, k: NodeKind, r: Handle) -> bool {
    &&& !s0.valid(r)
    &&& s1.valid(r)
    &&& r == s0.next_handle()
    &&& s1.node_count() == s0.node_count() + 1
    &&& (forall|h: Handle| (#[trigger] s1.valid(h)) == (s0.valid(h) || h == r))
    &&& s1.kind_of(r) == k
    &&& s1.parent_of(r) == None::<Handle>
    &&& s1.children_of(r) == Seq::<Handle>::empty()
    &&& (forall|h: Handle| s0.valid(h) ==> #[trigger] node_unchanged(s0, s1, h))
    &&& (forall|h: Handle| s0.valid(h) ==> #[trigger] s1.valid(h))
    &&& meta_unchanged(s0, s1)
}

/// Appending a parentless, childless node whose stored handles resolve
/// keeps the arena well-formed.
proof fn lemma_arena_push(nodes: Seq<Node>, n: Node)
    requires
        arena_wf(nodes),
        n.parent == None::<Handle>,
        n.children@.len() == 0,
        match n.template() {
            Some(t) => t.idx < nodes.len() + 1,
            None => true,
        },
    ensures
        arena_wf(nodes.push(n)),
{
    let m = nodes.push(n);
    assert forall|i: int| 0 <= i < m.len() implies #[trigger] node_wf(m, i) by {
        if i < nodes.len() {
            assert(node_wf(nodes, i));
            assert(m[i] == nodes[i]);
            match nodes[i].parent {
                Some(p) => {
                    let k = choose|k: int|
                        0 <= k < nodes[p.idx as int].children@.len()
                            && (#[trigger] nodes[p.idx as int].children@[k]).idx == i;
                    assert(m[p.idx as int].children@[k].idx == i);
                    assert(child_in(m, p.idx as int, i));
                },
                None => {},
            }
            assert forall|k: int| 0 <= k < m[i].children@.len() implies ((
            #[trigger] m[i].children@[k]).idx < m.len()
                && m[m[i].children@[k].idx as int].parent == Some(
                Handle { idx: i as usize },
            )) by {
                assert(nodes[i].children@[k].idx < nodes.len());
            }
        } else {
            assert(m[i] == n);
        }
    }
}

impl HtmlParser {
    /// Keep only the first attribute of each qualified name, in order.
    fn dedup_attrs(attrs: Vec<Attr>) -> (out: Vec<Attr>)
        ensures
            attrs_view(out@) == merge_attrs(Seq::<AttrV>::empty(), attrs_view(attrs@)),
    {
        let total = attrs.len();
        let ghost orig: Seq<Attr> = attrs@;
        proof {
            assert(orig.len() == total);
        }
        let mut attrs = attrs;
        let mut out: Vec<Attr> = Vec::new();
        proof {
            assert(attrs_view(out@) =~= Seq::<AttrV>::empty());
            assert(attrs_view(Seq::<Attr>::empty()) =~= Seq::<AttrV>::empty());
            assert(orig.skip(0) =~= orig);
        }
        let mut done: usize = 0;
        while attrs.len() > 0
            invariant
                orig.len() <= usize::MAX,
                done + attrs@.len() == orig.len(),
                attrs@ == orig.skip(done as int),
                attrs_view(out@) == merge_attrs(
                    Seq::<AttrV>::empty(),
                    attrs_view(orig.take(done as int)),
                ),
            decreases attrs@.len(),
        {
            let a = attrs.remove(0);
            let present = Self::has_attr_in(&out, &a.name);
            proof {
                assert(a == orig[done as int]);
                assert(attrs@ =~= orig.skip(done as int + 1));
                assert(attrs_view(orig.take(done as int + 1)) =~= attrs_view(
                    orig.take(done as int),
                ).push(a.view_attr()));
                crate::model::lemma_merge_attrs_snoc(
                    Seq::<AttrV>::empty(),
                    attrs_view(orig.take(done as int)),
                    a.view_attr(),
                );
            }
            if !present {
                out.push(a);
            }
            done = done + 1;
        }
        proof {
            assert(orig.take(done as int) =~= orig);
        }
        out
    }

    /// Is an attribute with this qualified name present?
    fn has_attr_in(attrs: &Vec<Attr>, name: &QualName) -> (r: bool)
        ensures
            r == crate::model::has_attr_name(attrs_view(attrs@), name.ns@, name.local@),
    {
        let mut i: usize = 0;
        while i < attrs.len()
            invariant
                i <= attrs@.len(),
                forall|j: int|
                    0 <= j < i ==> !((#[trigger] attrs_view(attrs@)[j]).0 == name.ns@
                        && attrs_view(attrs@)[j].1 == name.local@),
            decreases attrs@.len() - i,
        {
            if qual_name_eq(&attrs[i].name, name) {
                assert(attrs_view(attrs@)[i as int].0 == name.ns@);
                return true;
            }
            i = i + 1;
        }
        false
    }

    /// Create an element node from a tag.  The element starts parentless and
    /// childless; duplicate attribute names within the tag collapse with
    /// first-set-wins semantics.  Creating an HTML `template` element also
    /// creates its private template-contents fragment, a fresh parentless
    /// document-like root.
    pub fn create_element(&mut self, tag: Tag) -> (r: Result<Handle, SinkError>)
        requires
            old(self).wf(),
        ensures
            final(self).wf(),
            old(self).is_finished() ==> r == Err::<Handle, SinkError>(SinkError::SinkFinished)
                && *final(self) == *old(self),
            !old(self).is_finished() ==> (r matches Ok(h) && created_element(
                old(self),
                final(self),
                tag.name.ns@,
                tag.name.local@,
                attrs_view(tag.attributes@),
                h,
            )),
    {
        if self.finished {
            return Err(SinkError::SinkFinished);
        }
        let Tag { name, attributes } = tag;
        let attrs = Self::dedup_attrs(attributes);
        let is_template = name.ns == ns_html() && name.local == "template".to_string();
        let n = self.nodes.len();
        if is_template {
            let fragment = Node { parent: None, children: Vec::new(), data: NodeData::Document };
            proof {
                lemma_arena_push(self.nodes@, fragment);
            }
            self.nodes.push(fragment);
            let elem_idx = self.nodes.len();
            let elem = Node {
                parent: None,
                children: Vec::new(),
                data: NodeData::Element {
                    name,
                    attrs,
                    template_contents: Some(Handle { idx: n }),
                },
            };
            proof {
                lemma_arena_push(self.nodes@, elem);
            }
            self.nodes.push(elem);
            let h = Handle { idx: elem_idx };
            proof {
                assert(self.children_of(h) =~= Seq::<Handle>::empty());
                assert(self.children_of(Handle { idx: n }) =~= Seq::<Handle>::empty());
            }
            Ok(h)
        } else {
            let elem = Node {
                parent: None,
                children: Vec::new(),
                data: NodeData::Element { name, attrs, template_contents: None },
            };
            proof {
                lemma_arena_push(self.nodes@, elem);
            }
            self.nodes.push(elem);
            let h = Handle { idx: n };
            proof {
                assert(self.children_of(h) =~= Seq::<Handle>::empty());
            }
            Ok(h)
        }
    }

    /// Create a comment node with the given text.  It starts parentless.
    pub fn create_comment(&mut self, text: String) -> (r: Result<Handle, SinkError>)
        requires
            old(self).wf(),
        ensures
            final(self).wf(),
            old(self).is_finished() ==> r == Err::<Handle, SinkError>(SinkError::SinkFinished)
                && *final(self) == *old(self),
            !old(self).is_finished() ==> (r matches Ok(h) && created_leaf(
                old(self),
                final(self),
                NodeKind::Comment,
                h,
            ) && final(self).text_of(h) == text@),
    {
        if self.finished {
            return Err(SinkError::SinkFinished);
        }
        let n = self.nodes.len();
        let node = Node { parent: None, children: Vec::new(), data: NodeData::Comment {
            contents: text,
        } };
        proof {
            lemma_arena_push(self.nodes@, node);
        }
        self.nodes.push(node);
        let h = Handle { idx: n };
        proof {
            assert(self.children_of(h) =~= Seq::<Handle>::empty());
        }
        Ok(h)
    }

    /// Create a processing-instruction node with the given target and data.
    /// It starts parentless.
    pub fn create_pi(&mut self, target: String, data: String) -> (r: Result<Handle, SinkError>)
        requires
            old(self).wf(),
        ensures
            final(self).wf(),
            old(self).is_finished() ==> r == Err::<Handle, SinkError>(SinkError::SinkFinished)
                && *final(self) == *old(self),
            !old(self).is_finished() ==> (r matches Ok(h) && created_leaf(
                old(self),
                final(self),
                NodeKind::ProcessingInstruction,
                h,
            ) && final(self).pi_target_of(h) == target@ && final(self).pi_data_of(h) == data@),
    {
        if self.finished {
            return Err(SinkError::SinkFinished);
        }
        let n = self.nodes.len();
        let node = Node {
            parent: None,
            children: Vec::new(),
            data: NodeData::ProcessingInstruction { target, data },
        };
        proof {
            lemma_arena_push(self.nodes@, node);
        }
        self.nodes.push(node);
        let h = Handle { idx: n };
        proof {
            assert(self.children_of(h) =~= Seq::<Handle>::empty());
        }
        Ok(h)
    }

    /// A fresh sink: an arena holding exactly the document root, no doctype,
    /// no quirks, not finished.
    pub fn new() -> (s: HtmlParser)
        ensures
            s.wf(),
            !s.is_finished(),
            s.node_count() == 1,
            s.valid(s.doc_handle()),
            s.kind_of(s.doc_handle()) == NodeKind::Document,
            s.parent_of(s.doc_handle()) == None::<Handle>,
            s.children_of(s.doc_handle()) == Seq::<Handle>::empty(),
            s.doctype_of() == None::<(Seq<char>, Seq<char>, Seq<char>)>,
            s.quirks_of() == QuirksMode::NoQuirks,
    {
        let mut nodes: Vec<Node> = Vec::new();
        nodes.push(Node { parent: None, children: Vec::new(), data: NodeData::Document });
        let s = HtmlParser { nodes, doctype: None, quirks: QuirksMode::NoQuirks, finished: false };
        proof {
            assert(s.children_of(s.doc_handle()) =~= Seq::<Handle>::empty());
            assert forall|i: int| 0 <= i < s.nodes@.len() implies #[trigger] node_wf(s.nodes@, i) by {
                assert(s.nodes@[0].children@.len() == 0);
            }
        }
        s
    }

    /// The handle of the `Document` node, the lone root of the tree.
    pub fn get_document(&self) -> (h: Handle)
        ensures
            h == self.doc_handle(),
            !self.is_finished() && self.wf() ==> self.valid(h) && self.kind_of(h)
                == NodeKind::Document,
    {
        Handle { idx: 0 }
    }

    /// Do two handles refer to the same node?  Pure identity: handle
    /// equality, independent of node contents.
    pub fn same_node(&self, x: Handle, y: Handle) -> (r: bool)
        ensures
            r == (x == y),
    {
        x == y
    }

    /// Store the document-wide quirks mode.  Last write wins; the tree shape
    /// is untouched.
    pub fn set_quirks_mode(&mut self, mode: QuirksMode) -> (r: Result<(), SinkError>)
        requires
            old(self).wf(),
        ensures
            final(self).wf(),
            old(self).is_finished() ==> r == Err::<(), SinkError>(SinkError::SinkFinished)
                && *final(self) == *old(self),
            !old(self).is_finished() ==> {
                &&& r == Ok::<(), SinkError>(())
                &&& final(self).quirks_of() == mode
                &&& final(self).doctype_of() == old(self).doctype_of()
                &&& !final(self).is_finished()
                &&& all_nodes_unchanged(old(self), final(self))
            },
    {
        if self.finished {
            return Err(SinkError::SinkFinished);
        }
        self.quirks = mode;
        Ok(())
    }

    /// Capture the doctype on the document: name, public identifier and
    /// system identifier.  Last write wins; the tree shape is untouched.
    pub fn append_doctype_to_document(
        &mut self,
        name: String,
        public_id: String,
        system_id: String,
    ) -> (r: Result<(), SinkError>)
        requires
            old(self).wf(),
        ensures
            final(self).wf(),
            old(self).is_finished() ==> r == Err::<(), SinkError>(SinkError::SinkFinished)
                && *final(self) == *old(self),
            !old(self).is_finished() ==> {
                &&& r == Ok::<(), SinkError>(())
                &&& final(self).doctype_of() == Some((name@, public_id@, system_id@))
                &&& final(self).quirks_of() == old(self).quirks_of()
                &&& !final(self).is_finished()
                &&& all_nodes_unchanged(old(self), final(self))
            },
    {
        if self.finished {
            return Err(SinkError::SinkFinished);
        }
        self.doctype = Some(Doctype { name, public_id, system_id });
        Ok(())
    }

    /// The qualified name of an element node.
    pub fn elem_name(&self, target: Handle) -> (r: Result<QualName, SinkError>)
        requires
            self.wf(),
        ensures
            self.is_finished() ==> r == Err::<QualName, SinkError>(SinkError::SinkFinished),
            !self.is_finished() && (!self.valid(target) || self.kind_of(target)
                != NodeKind::Element) ==> r == Err::<QualName, SinkError>(SinkError::InvalidHandle),
            !self.is_finished() && self.valid(target) && self.kind_of(target) == NodeKind::Element
                ==> (r matches Ok(q) && q.ns@ == self.elem_ns_of(target) && q.local@
                == self.elem_local_of(target)),
    {
        if self.finished {
            return Err(SinkError::SinkFinished);
        }
        if target.idx >= self.nodes.len() {
            return Err(SinkError::InvalidHandle);
        }
        match &self.nodes[target.idx].data {
            NodeData::Element { name, .. } => Ok(
                QualName { ns: name.ns.clone(), local: name.local.clone() },
            ),
            _ => Err(SinkError::InvalidHandle),
        }
    }

    /// Does this handle name a MathML `annotation-xml` element, the element
    /// whose namespace and local name match the MathML annotation-xml
    /// integration-point rule?  False for anything else, including handles
    /// that do not resolve.
    pub fn is_mathml_annotation_xml_integration_point(&self, target: Handle) -> (r: bool)
        requires
            self.wf(),
        ensures
            r == (!self.is_finished() && self.valid(target) && self.kind_of(target)
                == NodeKind::Element && self.elem_ns_of(target) == mathml_namespace()
                && self.elem_local_of(target) == "annotation-xml"@),
    {
        if self.finished {
            return false;
        }
        if target.idx >= self.nodes.len() {
            return false;
        }
        match &self.nodes[target.idx].data {
            NodeData::Element { name, .. } => {
                name.ns == ns_mathml() && name.local == "annotation-xml".to_string()
            },
            _ => false,
        }
    }

    /// Hook: mark a script element as already started.  A recorded no-op: it
    /// must not affect the tree.
    pub fn mark_script_already_started(&mut self, _node: Handle)
        ensures
            *final(self) == *old(self),
    {
    }

    /// Hook: a node was popped off the external stack of open elements.  A
    /// recorded no-op: it must not affect the tree.
    pub fn pop(&mut self, _node: Handle)
        ensures
            *final(self) == *old(self),
    {
    }

    /// Hook: associate a form-associatable element with a form element.  A
    /// recorded no-op: it must not affect the tree.
    pub fn associate_with_form(
        &mut self,
        _target: Handle,
        _form: Handle,
        _nodes: (Handle, Option<Handle>),
    )
        ensures
            *final(self) == *old(self),
    {
    }

    /// Hook: the current source line changed.  A recorded no-op.
    pub fn set_current_line(&mut self, _line: u64)
        ensures
            *final(self) == *old(self),
    {
    }

    /// Hook: a parse error was reported by the external tokenizer.  The sink
    /// has no opinion and ignores it.
    pub fn parse_error(&mut self, _msg: &str)
        ensures
            *final(self) == *old(self),
    {
    }

    /// Signal for the external driver when a script element completes.  This
    /// sink has no script policy and always answers `Continue`; the tree is
    /// untouched.
    pub fn complete_script(&mut self, _node: Handle) -> (r: NextParserState)
        ensures
            r == NextParserState::Continue,
            *final(self) == *old(self),
    {
        NextParserState::Continue
    }
}


/// Where appended text must merge: the last child of `p`, when it is a text
/// node.
pub open spec fn last_text_child(s: &HtmlParser, p: Handle) -> Option<Handle> {
    let cs = s.children_of(p);
    if cs.len() > 0 && s.kind_of(cs.last()) == NodeKind::Text {
        Some(cs.last())
    } else {
        None
    }
}

/// Node `c` became the last child of `p`, after being detached from its
/// former parent if it had one.
pub open spec fn appended_node(s0: &HtmlParser, s1: &HtmlParser, p: Handle, c: Handle) -> bool {
    let q = s0.parent_of(c);
    &&& s1.node_count() == s0.node_count()
    &&& valid_unchanged(s0, s1)
    &&& meta_unchanged(s0, s1)
    &&& s1.parent_of(c) == Some(p)
    &&& s1.children_of(c) == s0.children_of(c)
    &&& node_payload_unchanged(s0, s1, c)
    &&& s1.parent_of(p) == s0.parent_of(p)
    &&& node_payload_unchanged(s0, s1, p)
    &&& (match q {
        None => s1.children_of(p) == s0.children_of(p).push(c),
        Some(qq) => {
            if qq == p {
                s1.children_of(p) == seq_remove_first(s0.children_of(p), c).push(c)
            } else {
                &&& s1.children_of(p) == s0.children_of(p).push(c)
                &&& s1.children_of(qq) == seq_remove_first(s0.children_of(qq), c)
                &&& s1.parent_of(qq) == s0.parent_of(qq)
                &&& node_payload_unchanged(s0, s1, qq)
            }
        },
    })
    &&& forall|h: Handle|
        s0.valid(h) && h != p && h != c && Some(h) != q ==> #[trigger] node_unchanged(s0, s1, h)
}

/// Text `t` was appended under `p`: merged into the trailing text child if
/// there is one, otherwise materialized as a fresh text node at the end of
/// `p`'s children.
pub open spec fn appended_text(s0: &HtmlParser, s1: &HtmlParser, p: Handle, t: Seq<char>) -> bool {
    &&& meta_unchanged(s0, s1)
    &&& s1.parent_of(p) == s0.parent_of(p)
    &&& node_payload_unchanged(s0, s1, p)
    &&& (match last_text_child(s0, p) {
        Some(ht) => {
            &&& s1.node_count() == s0.node_count()
            &&& valid_unchanged(s0, s1)
            &&& s1.children_of(p) == s0.children_of(p)
            &&& s1.kind_of(ht) == NodeKind::Text
            &&& s1.text_of(ht) == s0.text_of(ht) + t
            &&& s1.parent_of(ht) == s0.parent_of(ht)
            &&& s1.children_of(ht) == s0.children_of(ht)
            &&& forall|h: Handle|
                s0.valid(h) && h != ht ==> #[trigger] node_unchanged(s0, s1, h)
        },
        None => {
            let hn = s0.next_handle();
            &&& s1.node_count() == s0.node_count() + 1
            &&& !s0.valid(hn) && s1.valid(hn)
            &&& (forall|h: Handle| (#[trigger] s1.valid(h)) == (s0.valid(h) || h == hn))
            &&& s1.kind_of(hn) == NodeKind::Text
            &&& s1.text_of(hn) == t
            &&& s1.parent_of(hn) == Some(p)
            &&& s1.children_of(hn) == Seq::<Handle>::empty()
            &&& s1.children_of(p) == s0.children_of(p).push(hn)
            &&& forall|h: Handle|
                s0.valid(h) && h != p ==> #[trigger] node_unchanged(s0, s1, h)
        },
    })
}

/// The full contract of `append`: the error cascade, and on success the
/// node-append or text-append effect.
pub open spec fn append_post(
    s0: &HtmlParser,
    s1: &HtmlParser,
    r: Result<(), SinkError>,
    parent: Handle,
    child: NodeOrText,
) -> bool {
    if s0.is_finished() {
        r == Err::<(), SinkError>(SinkError::SinkFinished) && *s1 == *s0
    } else if !s0.valid(parent) || !container_kind(s0.kind_of(parent)) {
        r == Err::<(), SinkError>(SinkError::InvalidHandle) && *s1 == *s0
    } else {
        match child {
            NodeOrText::AppendNode(c) => {
                if !s0.valid(c) || c == parent || c == s0.doc_handle() {
                    r == Err::<(), SinkError>(SinkError::InvalidHandle) && *s1 == *s0
                } else {
                    r == Ok::<(), SinkError>(()) && appended_node(s0, s1, parent, c)
                }
            },
            NodeOrText::AppendText(t) => {
                r == Ok::<(), SinkError>(()) && appended_text(s0, s1, parent, t@)
            },
        }
    }
}

impl HtmlParser {
    /// The first position of `x` among the children of `q`, if any.
    fn find_child_index(&self, q: Handle, x: Handle) -> (r: Option<usize>)
        requires
            self.valid(q),
        ensures
            match r {
                Some(j) => j < self.children_of(q).len() && self.children_of(q)[j as int] == x
                    && (forall|k: int| 0 <= k < j ==> self.children_of(q)[k] != x),
                None => !self.children_of(q).contains(x),
            },
    {
        let n = self.nodes[q.idx].children.len();
        let mut i: usize = 0;
        while i < n
            invariant
                self.valid(q),
                n == self.children_of(q).len(),
                i <= n,
                forall|k: int| 0 <= k < i ==> self.children_of(q)[k] != x,
            decreases n - i,
        {
            if self.nodes[q.idx].children[i] == x {
                return Some(i);
            }
            i = i + 1;
        }
        proof {
            if self.children_of(q).contains(x) {
                let k = choose|k: int|
                    0 <= k < self.children_of(q).len() && self.children_of(q)[k] == x;
                assert(self.children_of(q)[k] != x);
            }
        }
        None
    }

    /// Detach a node from its parent; a no-op when it has none.
    fn detach(&mut self, x: Handle)
        requires
            old(self).arena_ok(),
            !old(self).is_finished(),
            old(self).valid(x),
        ensures
            final(self).arena_ok(),
            !final(self).is_finished(),
            final(self).node_count() == old(self).node_count(),
            final(self).parent_of(x) == None::<Handle>,
            forall|h: Handle|
                old(self).valid(h) ==> #[trigger] node_payload_unchanged(
                    old(self),
                    final(self),
                    h,
                ),
            match old(self).parent_of(x) {
                None => *final(self) == *old(self),
                Some(q) => detached(old(self), final(self), x, q),
            },
    {
        let q_opt = self.nodes[x.idx].parent;
        match q_opt {
            None => {},
            Some(q) => {
                proof {
                    assert(node_wf(self.nodes@, x.idx as int));
                }
                let j_opt = self.find_child_index(q, x);
                let j = match j_opt {
                    Some(j) => j,
                    None => {
                        proof {
                            let k = choose|k: int|
                                0 <= k < self.nodes@[q.idx as int].children@.len() && (
                                #[trigger] self.nodes@[q.idx as int].children@[k]).idx
                                    == x.idx as int;
                            assert(self.children_of(q)[k] == x);
                            assert(self.children_of(q).contains(x));
                        }
                        0
                    },
                };
                let ghost nodes0 = self.nodes@;
                let ghost cs0 = self.children_of(q);
                proof {
                    assert(self.nodes.len() == nodes0.len());
                    assert(nodes0.len() <= usize::MAX);
                    lemma_remove_at_first_index(cs0, x, j as int);
                    assert(node_wf(nodes0, q.idx as int));
                    lemma_remove_first_distinct(cs0, x);
                }
                let node_q = &mut self.nodes[q.idx];
                node_q.children.remove(j);
                let node_x = &mut self.nodes[x.idx];
                node_x.parent = None;
                proof {
                    let nodes1 = self.nodes@;
                    let cs1 = seq_remove_first(cs0, x);
                    assert(nodes1[q.idx as int].children@ == cs1);
                    assert forall|i: int| 0 <= i < nodes1.len() implies #[trigger] node_wf(
                        nodes1,
                        i,
                    ) by {
                        assert(node_wf(nodes0, i));
                        let n0 = nodes0[i];
                        let n1 = nodes1[i];
                        // the parent clause
                        match n1.parent {
                            Some(p) => {
                                assert(n0.parent == Some(p));
                                let k = choose|k: int|
                                    0 <= k < nodes0[p.idx as int].children@.len() && (
                                    #[trigger] nodes0[p.idx as int].children@[k]).idx == i;
                                if p.idx == q.idx {
                                    assert(i != x.idx as int);
                                    assert(cs0[k] == Handle { idx: i as usize });
                                    assert(cs0.contains(Handle { idx: i as usize }));
                                    lemma_remove_first_contains(
                                        cs0,
                                        x,
                                        Handle { idx: i as usize },
                                    );
                                    let k1 = choose|k1: int|
                                        0 <= k1 < cs1.len() && cs1[k1] == Handle {
                                            idx: i as usize,
                                        };
                                    assert(nodes1[p.idx as int].children@[k1].idx == i);
                                    assert(child_in(nodes1, p.idx as int, i));
                                } else {
                                    assert(nodes1[p.idx as int].children@ == nodes0[p.idx
                                        as int].children@);
                                    assert(child_in(nodes1, p.idx as int, i));
                                }
                            },
                            None => {},
                        }
                        // the children clauses
                        assert forall|k: int| 0 <= k < n1.children@.len() implies ((
                        #[trigger] n1.children@[k]).idx < nodes1.len()
                            && nodes1[n1.children@[k].idx as int].parent == Some(
                            Handle { idx: i as usize },
                        )) by {
                            if i == q.idx as int {
                                assert(cs1[k] == cs0[k] || cs1[k] == cs0[k + 1]);
                                assert(cs0.contains(cs1[k]));
                                assert(!cs1.contains(x));
                                assert(cs1.contains(cs1[k]));
                                assert(cs1[k] != x);
                                let c = cs1[k];
                                let k0 = choose|k0: int|
                                    0 <= k0 < cs0.len() && cs0[k0] == c;
                                assert(nodes0[c.idx as int].parent == Some(q));
                                assert(c.idx != x.idx);
                                assert(nodes1[c.idx as int].parent == Some(q));
                                assert(q == Handle { idx: i as usize });
                            } else {
                                assert(n1.children@ == n0.children@);
                                let c = n0.children@[k];
                                assert(c.idx < nodes0.len());
                                assert(nodes0[c.idx as int].parent == Some(
                                    Handle { idx: i as usize },
                                ));
                                if c.idx == x.idx {
                                    assert(nodes0[x.idx as int].parent == Some(q));
                                    assert(q.idx != i);
                                    assert(false);
                                }
                                assert(nodes1[c.idx as int].parent == nodes0[c.idx
                                    as int].parent);
                            }
                        }
                        if i == q.idx as int {
                            assert(n1.children@.no_duplicates());
                            assert(n1.kind() == n0.kind());
                            assert(n1.children@.len() <= n0.children@.len());
                        }
                    }
                }
            },
        }
    }

    /// Make `c` (parentless) a child of `p` at position `j`.
    fn attach_at(&mut self, p: Handle, j: usize, c: Handle)
        requires
            old(self).arena_ok(),
            !old(self).is_finished(),
            old(self).valid(p),
            old(self).valid(c),
            p != c,
            c != old(self).doc_handle(),
            old(self).parent_of(c) == None::<Handle>,
            container_kind(old(self).kind_of(p)),
            j <= old(self).children_of(p).len(),
        ensures
            final(self).arena_ok(),
            !final(self).is_finished(),
            final(self).node_count() == old(self).node_count(),
            meta_unchanged(old(self), final(self)),
            final(self).children_of(p) == old(self).children_of(p).insert(j as int, c),
            final(self).parent_of(p) == old(self).parent_of(p),
            node_payload_unchanged(old(self), final(self), p),
            final(self).parent_of(c) == Some(p),
            final(self).children_of(c) == old(self).children_of(c),
            node_payload_unchanged(old(self), final(self), c),
            forall|h: Handle|
                old(self).valid(h) && h != p && h != c ==> #[trigger] node_unchanged(
                    old(self),
                    final(self),
                    h,
                ),
    {
        let ghost nodes0 = self.nodes@;
        let ghost cs0 = self.children_of(p);
        proof {
            assert(node_wf(nodes0, p.idx as int));
            // c sits in no children list, since its parent is None
            assert forall|i: int, k: int|
                0 <= i < nodes0.len() && 0 <= k < nodes0[i].children@.len() implies (
                #[trigger] nodes0[i].children@[k]) != c by {
                assert(node_wf(nodes0, i));
                if nodes0[i].children@[k] == c {
                    assert(nodes0[c.idx as int].parent == Some(Handle { idx: i as usize }));
                }
            }
        }
        let node_p = &mut self.nodes[p.idx];
        node_p.children.insert(j, c);
        let node_c = &mut self.nodes[c.idx];
        node_c.parent = Some(p);
        proof {
            let nodes1 = self.nodes@;
            let cs1 = cs0.insert(j as int, c);
            assert(nodes1[p.idx as int].children@ == cs1);
            assert(forall|k: int| 0 <= k < j ==> cs1[k] == cs0[k]);
            assert(cs1[j as int] == c);
            assert(forall|k: int| j < k < cs1.len() ==> cs1[k] == cs0[k - 1]);
            assert forall|i: int| 0 <= i < nodes1.len() implies #[trigger] node_wf(nodes1, i) by {
                assert(node_wf(nodes0, i));
                let n0 = nodes0[i];
                let n1 = nodes1[i];
                match n1.parent {
                    Some(pp) => {
                        if i == c.idx as int {
                            assert(pp == p);
                            assert(cs1[j as int] == c);
                            assert(child_in(nodes1, p.idx as int, i));
                            assert(pp.idx != i);
                        } else {
                            assert(n0.parent == Some(pp));
                            let k = choose|k: int|
                                0 <= k < nodes0[pp.idx as int].children@.len() && (
                                #[trigger] nodes0[pp.idx as int].children@[k]).idx == i;
                            if pp.idx == p.idx {
                                if k < j {
                                    assert(cs1[k].idx == i);
                                } else {
                                    assert(cs1[k + 1].idx == i);
                                }
                                assert(child_in(nodes1, pp.idx as int, i));
                            } else {
                                assert(nodes1[pp.idx as int].children@ == nodes0[pp.idx
                                    as int].children@);
                                assert(child_in(nodes1, pp.idx as int, i));
                            }
                        }
                    },
                    None => {},
                }
                assert forall|k: int| 0 <= k < n1.children@.len() implies ((
                #[trigger] n1.children@[k]).idx < nodes1.len()
                    && nodes1[n1.children@[k].idx as int].parent == Some(
                    Handle { idx: i as usize },
                )) by {
                    if i == p.idx as int {
                        if k == j {
                            assert(cs1[k] == c);
                            assert(nodes1[c.idx as int].parent == Some(p));
                        } else {
                            let c2 = cs1[k];
                            assert(c2 == cs0[k] || c2 == cs0[k - 1]);
                            assert(cs0.contains(c2));
                            assert(c2 != c);
                            assert(nodes0[c2.idx as int].parent == Some(p));
                            assert(c2.idx != c.idx);
                            assert(nodes1[c2.idx as int].parent == Some(p));
                        }
                    } else {
                        assert(n1.children@ == n0.children@);
                        let c2 = n0.children@[k];
                        assert(c2 != c);
                        assert(nodes0[c2.idx as int].parent == Some(Handle { idx: i as usize }));
                        assert(c2.idx != c.idx);
                    }
                }
                if i == p.idx as int {
                    assert forall|k1: int, k2: int|
                        0 <= k1 < k2 < cs1.len() implies cs1[k1] != cs1[k2] by {
                        if k1 == j {
                            assert(cs1[k1] == c);
                            assert(cs0.contains(cs1[k2]));
                            assert(cs1[k2] != c);
                        } else if k2 == j {
                            assert(cs1[k2] == c);
                            assert(cs0.contains(cs1[k1]));
                            assert(cs1[k1] != c);
                        } else {
                            let a1: int = if k1 < j { k1 } else { k1 - 1 };
                            let a2: int = if k2 < j { k2 } else { k2 - 1 };
                            assert(cs1[k1] == cs0[a1]);
                            assert(cs1[k2] == cs0[a2]);
                            assert(a1 < a2);
                        }
                    }
                    assert(n1.children@.no_duplicates());
                    assert(container_kind(n1.kind()));
                }
            }
        }
    }

    /// Detach `target` from its current parent; a no-op, not an error, when
    /// it has no parent.
    pub fn remove_from_parent(&mut self, target: Handle) -> (r: Result<(), SinkError>)
        requires
            old(self).wf(),
        ensures
            final(self).wf(),
            old(self).is_finished() ==> r == Err::<(), SinkError>(SinkError::SinkFinished)
                && *final(self) == *old(self),
            !old(self).is_finished() && !old(self).valid(target) ==> r == Err::<(), SinkError>(
                SinkError::InvalidHandle,
            ) && *final(self) == *old(self),
            !old(self).is_finished() && old(self).valid(target) ==> {
                &&& r == Ok::<(), SinkError>(())
                &&& final(self).parent_of(target) == None::<Handle>
                &&& match old(self).parent_of(target) {
                    None => *final(self) == *old(self),
                    Some(q) => detached(old(self), final(self), target, q),
                }
            },
    {
        if self.finished {
            return Err(SinkError::SinkFinished);
        }
        if target.idx >= self.nodes.len() {
            return Err(SinkError::InvalidHandle);
        }
        self.detach(target);
        Ok(())
    }

    /// Append a node or a text chunk as the last child of `parent`.  A node
    /// is first detached from any current parent; text merges into the
    /// trailing text child when there is one.  Appending a node to itself,
    /// appending the document root (the lone root never gains a parent), or
    /// appending under a node that cannot hold children, is refused.
    pub fn append(&mut self, parent: Handle, child: NodeOrText) -> (r: Result<(), SinkError>)
        requires
            old(self).wf(),
        ensures
            final(self).wf(),
            append_post(old(self), final(self), r, parent, child),
    {
        if self.finished {
            return Err(SinkError::SinkFinished);
        }
        if parent.idx >= self.nodes.len() {
            return Err(SinkError::InvalidHandle);
        }
        let parent_is_container = match &self.nodes[parent.idx].data {
            NodeData::Document => true,
            NodeData::Element { .. } => true,
            _ => false,
        };
        if !parent_is_container {
            return Err(SinkError::InvalidHandle);
        }
        match child {
            NodeOrText::AppendNode(c) => {
                if c.idx >= self.nodes.len() || c == parent || c.idx == 0 {
                    return Err(SinkError::InvalidHandle);
                }
                proof {
                    assert(node_wf(self.nodes@, c.idx as int));
                }
                let ghost q = self.parent_of(c);
                self.detach(c);
                let ghost mid = *self;
                proof {
                    match q {
                        None => {
                            assert(mid == *old(self));
                        },
                        Some(qq) => {
                            assert(detached(old(self), &mid, c, qq));
                            assert(qq != c);
                            if qq != parent {
                                assert(node_unchanged(old(self), &mid, parent));
                            }
                        },
                    }
                    assert(node_payload_unchanged(old(self), &mid, parent));
                    assert(mid.kind_of(parent) == old(self).kind_of(parent));
                }
                let end = self.nodes[parent.idx].children.len();
                self.attach_at(parent, end, c);
                proof {
                    assert(self.children_of(parent) =~= mid.children_of(parent).push(c));
                    assert(appended_node(old(self), self, parent, c)) by {
                        assert forall|hh: Handle|
                            old(self).valid(hh) && hh != parent && hh != c && Some(hh)
                                != q implies #[trigger] node_unchanged(old(self), self, hh) by {
                            assert(mid.valid(hh));
                            assert(node_unchanged(old(self), &mid, hh));
                            assert(node_unchanged(&mid, self, hh));
                        }
                        match q {
                            Some(qq) => {
                                assert(qq != c);
                                if qq != parent {
                                    assert(mid.valid(qq));
                                    assert(node_unchanged(&mid, self, qq));
                                }
                            },
                            None => {},
                        }
                    }
                }
                Ok(())
            },
            NodeOrText::AppendText(t) => {
                self.append_text_under(parent, t);
                Ok(())
            },
        }
    }

    /// Append raw text under a container node, merging into a trailing text
    /// child when there is one.
    fn append_text_under(&mut self, parent: Handle, t: String)
        requires
            old(self).arena_ok(),
            !old(self).is_finished(),
            old(self).valid(parent),
            container_kind(old(self).kind_of(parent)),
        ensures
            final(self).arena_ok(),
            !final(self).is_finished(),
            appended_text(old(self), final(self), parent, t@),
    {
        let ghost nodes0 = self.nodes@;
        let n_children = self.nodes[parent.idx].children.len();
        if n_children > 0 {
            proof {
                assert(node_wf(nodes0, parent.idx as int));
            }
            let last = self.nodes[parent.idx].children[n_children - 1];
            let last_is_text = match &self.nodes[last.idx].data {
                NodeData::Text { .. } => true,
                _ => false,
            };
            if last_is_text {
                let node_last = &mut self.nodes[last.idx];
                match &mut node_last.data {
                    NodeData::Text { contents } => {
                        contents.append(t.as_str());
                    },
                    _ => {
                        proof {
                            assert(false);
                        }
                    },
                }
                proof {
                    let nodes1 = self.nodes@;
                    assert forall|i: int| 0 <= i < nodes1.len() implies #[trigger] node_wf(
                        nodes1,
                        i,
                    ) by {
                        assert(node_wf(nodes0, i));
                        assert(nodes1[i].parent == nodes0[i].parent);
                        assert(nodes1[i].children@ == nodes0[i].children@);
                        assert(nodes1[i].kind() == nodes0[i].kind());
                        assert(nodes1[i].template() == nodes0[i].template());
                        match nodes1[i].parent {
                            Some(p) => {
                                let k = choose|k: int|
                                    0 <= k < nodes0[p.idx as int].children@.len() && (
                                    #[trigger] nodes0[p.idx as int].children@[k]).idx == i;
                                assert(nodes1[p.idx as int].children@[k].idx == i);
                            },
                            None => {},
                        }
                    }
                }
                return;
            }
        }
        // fresh text node
        let node = Node { parent: None, children: Vec::new(), data: NodeData::Text {
            contents: t,
        } };
        proof {
            lemma_arena_push(self.nodes@, node);
        }
        let h_idx = self.nodes.len();
        proof {
            assert(h_idx == old(self).node_count());
        }
        self.nodes.push(node);
        let h = Handle { idx: h_idx };
        proof {
            assert(self.children_of(h) =~= Seq::<Handle>::empty());
            assert(h == old(self).next_handle());
            assert(self.kind_of(parent) == old(self).kind_of(parent));
            assert(self.parent_of(h) == None::<Handle>);
        }
        let ghost mid = *self;
        let end = self.nodes[parent.idx].children.len();
        self.attach_at(parent, end, h);
        proof {
            assert(self.children_of(parent) =~= mid.children_of(parent).push(h));
            assert(appended_text(old(self), self, parent, t@)) by {
                assert(last_text_child(old(self), parent) is None);
                assert forall|hh: Handle|
                    old(self).valid(hh) && hh != parent implies #[trigger] node_unchanged(
                    old(self),
                    self,
                    hh,
                ) by {
                    assert(node_unchanged(&mid, self, hh));
                    assert(node_unchanged(old(self), &mid, hh));
                }
            }
        }
    }
}


/// Node `c` was inserted immediately before `sib` among the children of
/// `p`, after being detached from its former parent if it had one.
pub open spec fn inserted_node_before(
    s0: &HtmlParser,
    s1: &HtmlParser,
    p: Handle,
    sib: Handle,
    c: Handle,
) -> bool {
    let q = s0.parent_of(c);
    let cs_mid = if q == Some(p) {
        seq_remove_first(s0.children_of(p), c)
    } else {
        s0.children_of(p)
    };
    &&& s1.node_count() == s0.node_count()
    &&& valid_unchanged(s0, s1)
    &&& meta_unchanged(s0, s1)
    &&& s1.parent_of(c) == Some(p)
    &&& s1.children_of(c) == s0.children_of(c)
    &&& node_payload_unchanged(s0, s1, c)
    &&& s1.parent_of(p) == s0.parent_of(p)
    &&& node_payload_unchanged(s0, s1, p)
    &&& (cs_mid.index_of_first(sib) matches Some(j) && s1.children_of(p) == cs_mid.insert(j, c))
    &&& (match q {
        None => true,
        Some(qq) => qq == p || ({
            &&& s1.children_of(qq) == seq_remove_first(s0.children_of(qq), c)
            &&& s1.parent_of(qq) == s0.parent_of(qq)
            &&& node_payload_unchanged(s0, s1, qq)
        }),
    })
    &&& forall|h: Handle|
        s0.valid(h) && h != p && h != c && Some(h) != q ==> #[trigger] node_unchanged(s0, s1, h)
}

/// Text `t` was inserted immediately before `sib` among the children of
/// `p`: merged into `sib`'s former previous sibling when that is a text
/// node, otherwise materialized as a fresh text node right before `sib`.
pub open spec fn inserted_text_before(
    s0: &HtmlParser,
    s1: &HtmlParser,
    p: Handle,
    sib: Handle,
    t: Seq<char>,
) -> bool {
    let cs = s0.children_of(p);
    &&& meta_unchanged(s0, s1)
    &&& s1.parent_of(p) == s0.parent_of(p)
    &&& node_payload_unchanged(s0, s1, p)
    &&& (cs.index_of_first(sib) matches Some(j) && (if j > 0 && s0.kind_of(cs[j - 1])
        == NodeKind::Text {
        let hm = cs[j - 1];
        &&& s1.node_count() == s0.node_count()
        &&& valid_unchanged(s0, s1)
        &&& s1.children_of(p) == cs
        &&& s1.kind_of(hm) == NodeKind::Text
        &&& s1.text_of(hm) == s0.text_of(hm) + t
        &&& s1.parent_of(hm) == s0.parent_of(hm)
        &&& s1.children_of(hm) == s0.children_of(hm)
        &&& forall|h: Handle| s0.valid(h) && h != hm ==> #[trigger] node_unchanged(s0, s1, h)
    } else {
        let hn = s0.next_handle();
        &&& s1.node_count() == s0.node_count() + 1
        &&& !s0.valid(hn) && s1.valid(hn)
        &&& (forall|h: Handle| (#[trigger] s1.valid(h)) == (s0.valid(h) || h == hn))
        &&& s1.kind_of(hn) == NodeKind::Text
        &&& s1.text_of(hn) == t
        &&& s1.parent_of(hn) == Some(p)
        &&& s1.children_of(hn) == Seq::<Handle>::empty()
        &&& s1.children_of(p) == cs.insert(j, hn)
        &&& forall|h: Handle| s0.valid(h) && h != p ==> #[trigger] node_unchanged(s0, s1, h)
    }))
}

/// The full contract of `append_before_sibling`: the error cascade, and on
/// success the node-insert or text-insert effect.
pub open spec fn append_before_post(
    s0: &HtmlParser,
    s1: &HtmlParser,
    r: Result<(), SinkError>,
    sibling: Handle,
    child: NodeOrText,
) -> bool {
    if s0.is_finished() {
        r == Err::<(), SinkError>(SinkError::SinkFinished) && *s1 == *s0
    } else if !s0.valid(sibling) || s0.parent_of(sibling) is None {
        r == Err::<(), SinkError>(SinkError::InvalidHandle) && *s1 == *s0
    } else {
        s0.parent_of(sibling) matches Some(p) && (match child {
            NodeOrText::AppendNode(c) => {
                if !s0.valid(c) || c == sibling || c == p || c == s0.doc_handle() {
                    r == Err::<(), SinkError>(SinkError::InvalidHandle) && *s1 == *s0
                } else {
                    r == Ok::<(), SinkError>(()) && inserted_node_before(s0, s1, p, sibling, c)
                }
            },
            NodeOrText::AppendText(t) => {
                r == Ok::<(), SinkError>(()) && inserted_text_before(s0, s1, p, sibling, t@)
            },
        })
    }
}

impl HtmlParser {
    /// Insert a node or a text chunk as the sibling immediately before
    /// `sibling`.  The external tree builder promises `sibling` is not a
    /// text node, but its former previous sibling may be one, and inserted
    /// text merges into it.  An inserted node is first detached from any
    /// current parent.  A `sibling` without a parent gives no insertion
    /// point and is refused, as is inserting a node before itself or into
    /// itself, or inserting the document root, which never gains a parent.
    pub fn append_before_sibling(&mut self, sibling: Handle, child: NodeOrText) -> (r: Result<
        (),
        SinkError,
    >)
        requires
            old(self).wf(),
        ensures
            final(self).wf(),
            append_before_post(old(self), final(self), r, sibling, child),
    {
        if self.finished {
            return Err(SinkError::SinkFinished);
        }
        if sibling.idx >= self.nodes.len() {
            return Err(SinkError::InvalidHandle);
        }
        let p_opt = self.nodes[sibling.idx].parent;
        let p = match p_opt {
            Some(p) => p,
            None => {
                return Err(SinkError::InvalidHandle);
            },
        };
        proof {
            assert(node_wf(self.nodes@, sibling.idx as int));
            assert(node_wf(self.nodes@, p.idx as int));
            let k = choose|k: int|
                0 <= k < self.nodes@[p.idx as int].children@.len() && (
                #[trigger] self.nodes@[p.idx as int].children@[k]).idx == sibling.idx as int;
            assert(self.children_of(p)[k] == sibling);
            assert(self.children_of(p).contains(sibling));
            assert(container_kind(self.kind_of(p)));
        }
        match child {
            NodeOrText::AppendNode(c) => {
                if c.idx >= self.nodes.len() || c == sibling || c == p || c.idx == 0 {
                    return Err(SinkError::InvalidHandle);
                }
                proof {
                    assert(node_wf(self.nodes@, c.idx as int));
                }
                let ghost q = self.parent_of(c);
                let ghost cs0 = self.children_of(p);
                self.detach(c);
                let ghost mid = *self;
                proof {
                    match q {
                        None => {
                            assert(mid == *old(self));
                        },
                        Some(qq) => {
                            assert(detached(old(self), &mid, c, qq));
                            assert(qq != c);
                            if qq != p {
                                assert(node_unchanged(old(self), &mid, p));
                            } else {
                                lemma_remove_first_contains(cs0, c, sibling);
                            }
                            if qq != sibling {
                                assert(node_unchanged(old(self), &mid, sibling) || sibling == c
                                    || sibling == qq);
                            }
                        },
                    }
                    assert(mid.parent_of(sibling) == Some(p));
                    assert(mid.children_of(p).contains(sibling));
                    assert(mid.kind_of(p) == old(self).kind_of(p));
                }
                let j_opt = self.find_child_index(p, sibling);
                let j = match j_opt {
                    Some(j) => j,
                    None => {
                        proof {
                            assert(false);
                        }
                        0
                    },
                };
                let ghost cs_mid = mid.children_of(p);
                proof {
                    cs_mid.index_of_first_ensures(sibling);
                    let jj = cs_mid.index_of_first(sibling)->Some_0;
                    assert(cs_mid[jj] == sibling);
                    assert(!(jj < j) && !(j < jj));
                    assert(jj == j as int);
                }
                self.attach_at(p, j, c);
                proof {
                    assert(inserted_node_before(old(self), self, p, sibling, c)) by {
                        assert forall|hh: Handle|
                            old(self).valid(hh) && hh != p && hh != c && Some(hh)
                                != q implies #[trigger] node_unchanged(old(self), self, hh) by {
                            assert(mid.valid(hh));
                            assert(node_unchanged(old(self), &mid, hh));
                            assert(node_unchanged(&mid, self, hh));
                        }
                        match q {
                            Some(qq) => {
                                assert(qq != c);
                                if qq != p {
                                    assert(mid.valid(qq));
                                    assert(node_unchanged(&mid, self, qq));
                                }
                            },
                            None => {},
                        }
                    }
                }
                Ok(())
            },
            NodeOrText::AppendText(t) => {
                let j_opt = self.find_child_index(p, sibling);
                let j = match j_opt {
                    Some(j) => j,
                    None => {
                        proof {
                            assert(false);
                        }
                        0
                    },
                };
                let ghost cs = self.children_of(p);
                proof {
                    cs.index_of_first_ensures(sibling);
                    let jj = cs.index_of_first(sibling)->Some_0;
                    assert(cs[jj] == sibling);
                    assert(!(jj < j) && !(j < jj));
                    assert(jj == j as int);
                }
                let ghost nodes0 = self.nodes@;
                if j > 0 {
                    let prev = self.nodes[p.idx].children[j - 1];
                    let prev_is_text = match &self.nodes[prev.idx].data {
                        NodeData::Text { .. } => true,
                        _ => false,
                    };
                    if prev_is_text {
                        let node_prev = &mut self.nodes[prev.idx];
                        match &mut node_prev.data {
                            NodeData::Text { contents } => {
                                contents.append(t.as_str());
                            },
                            _ => {
                                proof {
                                    assert(false);
                                }
                            },
                        }
                        proof {
                            let nodes1 = self.nodes@;
                            assert forall|i: int| 0 <= i < nodes1.len() implies #[trigger] node_wf(
                                nodes1,
                                i,
                            ) by {
                                assert(node_wf(nodes0, i));
                                assert(nodes1[i].parent == nodes0[i].parent);
                                assert(nodes1[i].children@ == nodes0[i].children@);
                                assert(nodes1[i].kind() == nodes0[i].kind());
                                assert(nodes1[i].template() == nodes0[i].template());
                                match nodes1[i].parent {
                                    Some(pp) => {
                                        let k = choose|k: int|
                                            0 <= k < nodes0[pp.idx as int].children@.len() && (
                                            #[trigger] nodes0[pp.idx as int].children@[k]).idx
                                                == i;
                                        assert(nodes1[pp.idx as int].children@[k].idx == i);
                                    },
                                    None => {},
                                }
                            }
                        }
                        return Ok(());
                    }
                }
                let node = Node { parent: None, children: Vec::new(), data: NodeData::Text {
                    contents: t,
                } };
                proof {
                    lemma_arena_push(self.nodes@, node);
                }
                let h_idx = self.nodes.len();
                self.nodes.push(node);
                let h = Handle { idx: h_idx };
                proof {
                    assert(self.children_of(h) =~= Seq::<Handle>::empty());
                    assert(h == old(self).next_handle());
                    assert(self.kind_of(p) == old(self).kind_of(p));
                    assert(self.parent_of(h) == None::<Handle>);
                    assert(self.children_of(p) == cs);
                }
                let ghost mid = *self;
                self.attach_at(p, j, h);
                proof {
                    assert(inserted_text_before(old(self), self, p, sibling, t@)) by {
                        assert forall|hh: Handle|
                            old(self).valid(hh) && hh != p implies #[trigger] node_unchanged(
                            old(self),
                            self,
                            hh,
                        ) by {
                            assert(node_unchanged(old(self), &mid, hh));
                            assert(node_unchanged(&mid, self, hh));
                        }
                    }
                }
                Ok(())
            },
        }
    }

    /// Insert where the external builder's foster-parenting decision points:
    /// when `element` currently has a parent, behave as `append(element,
    /// child)`; otherwise behave as `append_before_sibling(prev_element,
    /// child)`.
    pub fn append_based_on_parent_node(
        &mut self,
        element: Handle,
        prev_element: Handle,
        child: NodeOrText,
    ) -> (r: Result<(), SinkError>)
        requires
            old(self).wf(),
        ensures
            final(self).wf(),
            old(self).is_finished() ==> r == Err::<(), SinkError>(SinkError::SinkFinished)
                && *final(self) == *old(self),
            !old(self).is_finished() && !old(self).valid(element) ==> r == Err::<(), SinkError>(
                SinkError::InvalidHandle,
            ) && *final(self) == *old(self),
            !old(self).is_finished() && old(self).valid(element) && old(self).parent_of(element)
                is Some ==> append_post(old(self), final(self), r, element, child),
            !old(self).is_finished() && old(self).valid(element) && old(self).parent_of(element)
                is None ==> append_before_post(old(self), final(self), r, prev_element, child),
    {
        if self.finished {
            return Err(SinkError::SinkFinished);
        }
        if element.idx >= self.nodes.len() {
            return Err(SinkError::InvalidHandle);
        }
        let has_parent = self.nodes[element.idx].parent.is_some();
        if has_parent {
            self.append(element, child)
        } else {
            self.append_before_sibling(prev_element, child)
        }
    }
}


/// Payload-only rewrites (text buffers, attributes) keep the arena
/// well-formed: no parent, children list, kind or template link moved.
proof fn lemma_arena_payload_update(nodes0: Seq<Node>, nodes1: Seq<Node>)
    requires
        arena_wf(nodes0),
        nodes1.len() == nodes0.len(),
        forall|i: int|
            0 <= i < nodes0.len() ==> ((#[trigger] nodes1[i]).parent == nodes0[i].parent
                && nodes1[i].children@ == nodes0[i].children@ && nodes1[i].kind()
                == nodes0[i].kind() && nodes1[i].template() == nodes0[i].template()),
    ensures
        arena_wf(nodes1),
{
    assert forall|i: int| 0 <= i < nodes1.len() implies #[trigger] node_wf(nodes1, i) by {
        assert(node_wf(nodes0, i));
        match nodes1[i].parent {
            Some(p) => {
                let k = choose|k: int|
                    0 <= k < nodes0[p.idx as int].children@.len() && (
                    #[trigger] nodes0[p.idx as int].children@[k]).idx == i;
                assert(nodes1[p.idx as int].children@[k].idx == i);
            },
            None => {},
        }
    }
}

/// The attributes of `add` whose names were missing were appended to `e`'s
/// attribute list, first-set-wins; existing values were never overwritten,
/// and nothing else changed.
pub open spec fn attrs_merged(s0: &HtmlParser, s1: &HtmlParser, e: Handle, add: Seq<AttrV>) -> bool {
    &&& s1.node_count() == s0.node_count()
    &&& valid_unchanged(s0, s1)
    &&& meta_unchanged(s0, s1)
    &&& s1.attrs_of(e) == merge_attrs(s0.attrs_of(e), add)
    &&& s1.parent_of(e) == s0.parent_of(e)
    &&& s1.children_of(e) == s0.children_of(e)
    &&& s1.kind_of(e) == s0.kind_of(e)
    &&& s1.text_of(e) == s0.text_of(e)
    &&& s1.elem_ns_of(e) == s0.elem_ns_of(e)
    &&& s1.elem_local_of(e) == s0.elem_local_of(e)
    &&& s1.template_of(e) == s0.template_of(e)
    &&& s1.pi_target_of(e) == s0.pi_target_of(e)
    &&& s1.pi_data_of(e) == s0.pi_data_of(e)
    &&& forall|h: Handle| s0.valid(h) && h != e ==> #[trigger] node_unchanged(s0, s1, h)
}

/// The finished tree `a` carries exactly the nodes and metadata the sink
/// held when it finished.
pub open spec fn ast_node_matches(s0: &HtmlParser, a: &HtmlAst, h: Handle) -> bool {
    &&& a.parent_of(h) == s0.parent_of(h)
    &&& a.children_of(h) == s0.children_of(h)
    &&& a.kind_of(h) == s0.kind_of(h)
    &&& a.text_of(h) == s0.text_of(h)
    &&& a.elem_ns_of(h) == s0.elem_ns_of(h)
    &&& a.elem_local_of(h) == s0.elem_local_of(h)
    &&& a.attrs_of(h) == s0.attrs_of(h)
    &&& a.template_of(h) == s0.template_of(h)
    &&& a.pi_target_of(h) == s0.pi_target_of(h)
    &&& a.pi_data_of(h) == s0.pi_data_of(h)
}

pub open spec fn ast_of(s0: &HtmlParser, a: &HtmlAst) -> bool {
    &&& a.node_count() == s0.node_count()
    &&& (forall|h: Handle| (#[trigger] a.valid(h)) == s0.valid(h))
    &&& a.doc_handle() == s0.doc_handle()
    &&& a.doctype_of() == s0.doctype_of()
    &&& a.quirks_of() == s0.quirks_of()
    &&& forall|h: Handle| s0.valid(h) ==> #[trigger] ast_node_matches(s0, a, h)
}

impl HtmlParser {
    /// Add each given attribute to `target`, an element, unless an
    /// attribute with that qualified name already exists; existing values
    /// are never overwritten, and duplicates within the call collapse with
    /// first-set-wins semantics.
    pub fn add_attrs_if_missing(&mut self, target: Handle, attrs: Vec<Attr>) -> (r: Result<
        (),
        SinkError,
    >)
        requires
            old(self).wf(),
        ensures
            final(self).wf(),
            old(self).is_finished() ==> r == Err::<(), SinkError>(SinkError::SinkFinished)
                && *final(self) == *old(self),
            !old(self).is_finished() && (!old(self).valid(target) || old(self).kind_of(target)
                != NodeKind::Element) ==> r == Err::<(), SinkError>(SinkError::InvalidHandle)
                && *final(self) == *old(self),
            !old(self).is_finished() && old(self).valid(target) && old(self).kind_of(target)
                == NodeKind::Element ==> r == Ok::<(), SinkError>(()) && attrs_merged(
                old(self),
                final(self),
                target,
                attrs_view(attrs@),
            ),
    {
        if self.finished {
            return Err(SinkError::SinkFinished);
        }
        if target.idx >= self.nodes.len() {
            return Err(SinkError::InvalidHandle);
        }
        let is_element = match &self.nodes[target.idx].data {
            NodeData::Element { .. } => true,
            _ => false,
        };
        if !is_element {
            return Err(SinkError::InvalidHandle);
        }
        let total = attrs.len();
        let ghost orig: Seq<Attr> = attrs@;
        let ghost base: Seq<AttrV> = self.attrs_of(target);
        proof {
            assert(orig.len() == total);
            assert(orig.skip(0) =~= orig);
            assert(attrs_view(orig.take(0)) =~= Seq::<AttrV>::empty());
            assert(merge_attrs(base, Seq::<AttrV>::empty()) == base);
        }
        let mut rest = attrs;
        let mut done: usize = 0;
        while rest.len() > 0
            invariant
                orig.len() <= usize::MAX,
                done + rest@.len() == orig.len(),
                rest@ == orig.skip(done as int),
                self.arena_ok(),
                !self.is_finished(),
                self.valid(target),
                self.kind_of(target) == NodeKind::Element,
                self.node_count() == old(self).node_count(),
                meta_unchanged(old(self), self),
                self.attrs_of(target) == merge_attrs(base, attrs_view(orig.take(done as int))),
                self.parent_of(target) == old(self).parent_of(target),
                self.children_of(target) == old(self).children_of(target),
                self.text_of(target) == old(self).text_of(target),
                self.elem_ns_of(target) == old(self).elem_ns_of(target),
                self.elem_local_of(target) == old(self).elem_local_of(target),
                self.template_of(target) == old(self).template_of(target),
                self.pi_target_of(target) == old(self).pi_target_of(target),
                self.pi_data_of(target) == old(self).pi_data_of(target),
                forall|h: Handle|
                    old(self).valid(h) && h != target ==> #[trigger] node_unchanged(
                        old(self),
                        self,
                        h,
                    ),
            decreases rest@.len(),
        {
            let ghost pre = *self;
            let a = rest.remove(0);
            let present = match &self.nodes[target.idx].data {
                NodeData::Element { attrs: cur, .. } => Self::has_attr_in(cur, &a.name),
                _ => false,
            };
            proof {
                assert(a == orig[done as int]);
                assert(rest@ =~= orig.skip(done as int + 1));
                assert(attrs_view(orig.take(done as int + 1)) =~= attrs_view(
                    orig.take(done as int),
                ).push(a.view_attr()));
                crate::model::lemma_merge_attrs_snoc(
                    base,
                    attrs_view(orig.take(done as int)),
                    a.view_attr(),
                );
            }
            if !present {
                let ghost nodes0 = self.nodes@;
                let node_t = &mut self.nodes[target.idx];
                match &mut node_t.data {
                    NodeData::Element { attrs: cur, .. } => {
                        cur.push(a);
                    },
                    _ => {
                        proof {
                            assert(false);
                        }
                    },
                }
                proof {
                    let nodes1 = self.nodes@;
                    lemma_arena_payload_update(nodes0, nodes1);
                    assert(nodes1[target.idx as int].attrs() =~= nodes0[target.idx
                        as int].attrs().push(a.view_attr()));
                    assert forall|h: Handle|
                        old(self).valid(h) && h != target implies #[trigger] node_unchanged(
                        old(self),
                        self,
                        h,
                    ) by {
                        assert(node_unchanged(old(self), &pre, h));
                        assert(h.idx != target.idx);
                        assert(self.nodes@[h.idx as int] == nodes0[h.idx as int]);
                    }
                }
            }
            done = done + 1;
        }
        proof {
            assert(orig.take(done as int) =~= orig);
        }
        Ok(())
    }
}


impl HtmlAst {
    /// How many nodes the finished tree holds.
    pub closed spec fn node_count(&self) -> nat {
        self.nodes@.len()
    }

    /// Does this handle refer to a node of the finished tree?
    pub closed spec fn valid(&self, h: Handle) -> bool {
        h.idx < self.nodes@.len()
    }

    /// The handle of the document root.
    pub closed spec fn doc_handle(&self) -> Handle {
        Handle { idx: 0 }
    }

    pub closed spec fn parent_of(&self, h: Handle) -> Option<Handle> {
        self.nodes@[h.idx as int].parent
    }

    pub closed spec fn children_of(&self, h: Handle) -> Seq<Handle> {
        self.nodes@[h.idx as int].children@
    }

    pub closed spec fn kind_of(&self, h: Handle) -> NodeKind {
        self.nodes@[h.idx as int].kind()
    }

    /// The text buffer of a text or comment node.
    pub closed spec fn text_of(&self, h: Handle) -> Seq<char> {
        self.nodes@[h.idx as int].text()
    }

    pub closed spec fn elem_ns_of(&self, h: Handle) -> Seq<char> {
        self.nodes@[h.idx as int].elem_ns()
    }

    pub closed spec fn elem_local_of(&self, h: Handle) -> Seq<char> {
        self.nodes@[h.idx as int].elem_local()
    }

    /// The attribute list of an element, in storage order.
    pub closed spec fn attrs_of(&self, h: Handle) -> Seq<AttrV> {
        self.nodes@[h.idx as int].attrs()
    }

    /// The template-contents handle of a template element.
    pub closed spec fn template_of(&self, h: Handle) -> Option<Handle> {
        self.nodes@[h.idx as int].template()
    }

    pub closed spec fn pi_target_of(&self, h: Handle) -> Seq<char> {
        self.nodes@[h.idx as int].pi_target()
    }

    pub closed spec fn pi_data_of(&self, h: Handle) -> Seq<char> {
        self.nodes@[h.idx as int].pi_data()
    }

    /// The doctype captured on the document.
    pub closed spec fn doctype_of(&self) -> Option<(Seq<char>, Seq<char>, Seq<char>)> {
        match self.doctype {
            Some(d) => Some((d.name@, d.public_id@, d.system_id@)),
            None => None,
        }
    }

    pub closed spec fn quirks_of(&self) -> QuirksMode {
        self.quirks
    }

    /// Well-formedness of the finished tree.
    pub closed spec fn wf(&self) -> bool {
        arena_wf(self.nodes@)
    }
}

impl HtmlParser {
    /// The template-contents fragment of a template element: the stable,
    /// separately rooted subtree created together with the element.  A
    /// handle that resolves to anything but a template element is refused
    /// with `NotATemplate`.  The sink itself is never changed.
    pub fn get_or_create_template_contents(&mut self, target: Handle) -> (r: Result<
        Handle,
        SinkError,
    >)
        requires
            old(self).wf(),
        ensures
            final(self).wf(),
            *final(self) == *old(self),
            old(self).is_finished() ==> r == Err::<Handle, SinkError>(SinkError::SinkFinished),
            !old(self).is_finished() && !old(self).valid(target) ==> r == Err::<Handle, SinkError>(
                SinkError::InvalidHandle,
            ),
            !old(self).is_finished() && old(self).valid(target) ==> r == (match old(
                self,
            ).template_of(target) {
                Some(f) => Ok::<Handle, SinkError>(f),
                None => Err::<Handle, SinkError>(SinkError::NotATemplate),
            }),
    {
        if self.finished {
            return Err(SinkError::SinkFinished);
        }
        if target.idx >= self.nodes.len() {
            return Err(SinkError::InvalidHandle);
        }
        match &self.nodes[target.idx].data {
            NodeData::Element { template_contents: Some(f), .. } => Ok(*f),
            _ => Err(SinkError::NotATemplate),
        }
    }

    /// Finish the sink and hand over the completed tree rooted at the
    /// document node.  Afterwards every further operation fails with
    /// `SinkFinished`.
    pub fn finish(&mut self) -> (r: Result<HtmlAst, SinkError>)
        requires
            old(self).wf(),
        ensures
            final(self).wf(),
            final(self).is_finished(),
            final(self).doc_handle() == old(self).doc_handle(),
            old(self).is_finished() ==> r == Err::<HtmlAst, SinkError>(SinkError::SinkFinished)
                && *final(self) == *old(self),
            !old(self).is_finished() ==> (r matches Ok(a) && a.wf() && ast_of(old(self), &a)
                && a.node_count() >= 1 && a.kind_of(a.doc_handle()) == NodeKind::Document),
    {
        if self.finished {
            return Err(SinkError::SinkFinished);
        }
        self.finished = true;
        let mut nodes: Vec<Node> = Vec::new();
        core::mem::swap(&mut nodes, &mut self.nodes);
        let doctype = self.doctype.take();
        let quirks = self.quirks;
        Ok(HtmlAst { nodes, doctype, quirks })
    }
}

impl HtmlAst {
    /// The handle of the document root of the finished tree.
    pub fn doc(&self) -> (h: Handle)
        ensures
            h == self.doc_handle(),
    {
        Handle { idx: 0 }
    }

    /// The kind of the node a handle refers to.
    pub fn kind(&self, h: Handle) -> (r: Result<NodeKind, SinkError>)
        ensures
            self.valid(h) ==> r == Ok::<NodeKind, SinkError>(self.kind_of(h)),
            !self.valid(h) ==> r == Err::<NodeKind, SinkError>(SinkError::InvalidHandle),
    {
        if h.idx >= self.nodes.len() {
            return Err(SinkError::InvalidHandle);
        }
        Ok(
            match &self.nodes[h.idx].data {
                NodeData::Document => NodeKind::Document,
                NodeData::Element { .. } => NodeKind::Element,
                NodeData::Text { .. } => NodeKind::Text,
                NodeData::Comment { .. } => NodeKind::Comment,
                NodeData::ProcessingInstruction { .. } => NodeKind::ProcessingInstruction,
            },
        )
    }

    /// The parent of a node, if it has one.
    pub fn parent(&self, h: Handle) -> (r: Result<Option<Handle>, SinkError>)
        ensures
            self.valid(h) ==> r == Ok::<Option<Handle>, SinkError>(self.parent_of(h)),
            !self.valid(h) ==> r == Err::<Option<Handle>, SinkError>(SinkError::InvalidHandle),
    {
        if h.idx >= self.nodes.len() {
            return Err(SinkError::InvalidHandle);
        }
        Ok(self.nodes[h.idx].parent)
    }

    /// How many children a node has.
    pub fn child_count(&self, h: Handle) -> (r: Result<usize, SinkError>)
        ensures
            self.valid(h) ==> (r matches Ok(n) && n == self.children_of(h).len()),
            !self.valid(h) ==> r == Err::<usize, SinkError>(SinkError::InvalidHandle),
    {
        if h.idx >= self.nodes.len() {
            return Err(SinkError::InvalidHandle);
        }
        Ok(self.nodes[h.idx].children.len())
    }

    /// The `i`-th child of a node, in document order.
    pub fn child_at(&self, h: Handle, i: usize) -> (r: Result<Handle, SinkError>)
        ensures
            self.valid(h) && i < self.children_of(h).len() ==> r == Ok::<Handle, SinkError>(
                self.children_of(h)[i as int],
            ),
            !(self.valid(h) && i < self.children_of(h).len()) ==> r == Err::<Handle, SinkError>(
                SinkError::InvalidHandle,
            ),
    {
        if h.idx >= self.nodes.len() {
            return Err(SinkError::InvalidHandle);
        }
        if i >= self.nodes[h.idx].children.len() {
            return Err(SinkError::InvalidHandle);
        }
        Ok(self.nodes[h.idx].children[i])
    }

    /// The text buffer of a text or comment node.
    pub fn text(&self, h: Handle) -> (r: Result<String, SinkError>)
        ensures
            self.valid(h) && (self.kind_of(h) == NodeKind::Text || self.kind_of(h)
                == NodeKind::Comment) ==> (r matches Ok(t) && t@ == self.text_of(h)),
            !(self.valid(h) && (self.kind_of(h) == NodeKind::Text || self.kind_of(h)
                == NodeKind::Comment)) ==> r == Err::<String, SinkError>(SinkError::InvalidHandle),
    {
        if h.idx >= self.nodes.len() {
            return Err(SinkError::InvalidHandle);
        }
        match &self.nodes[h.idx].data {
            NodeData::Text { contents } => Ok(contents.clone()),
            NodeData::Comment { contents } => Ok(contents.clone()),
            _ => Err(SinkError::InvalidHandle),
        }
    }

    /// The qualified name of an element node.
    pub fn elem_name(&self, h: Handle) -> (r: Result<QualName, SinkError>)
        ensures
            self.valid(h) && self.kind_of(h) == NodeKind::Element ==> (r matches Ok(q) && q.ns@
                == self.elem_ns_of(h) && q.local@ == self.elem_local_of(h)),
            !(self.valid(h) && self.kind_of(h) == NodeKind::Element) ==> r == Err::<
                QualName,
                SinkError,
            >(SinkError::InvalidHandle),
    {
        if h.idx >= self.nodes.len() {
            return Err(SinkError::InvalidHandle);
        }
        match &self.nodes[h.idx].data {
            NodeData::Element { name, .. } => Ok(
                QualName { ns: name.ns.clone(), local: name.local.clone() },
            ),
            _ => Err(SinkError::InvalidHandle),
        }
    }

    /// The value of the attribute with the given qualified name on an
    /// element, or `None` when the element has no such attribute.
    pub fn attr_value(&self, h: Handle, name: &QualName) -> (r: Result<Option<String>, SinkError>)
        ensures
            self.valid(h) && self.kind_of(h) == NodeKind::Element ==> (match r {
                Ok(Some(v)) => crate::model::has_attr_name(
                    self.attrs_of(h),
                    name.ns@,
                    name.local@,
                ) && v@ == crate::model::attr_lookup(self.attrs_of(h), name.ns@, name.local@),
                Ok(None) => !crate::model::has_attr_name(self.attrs_of(h), name.ns@, name.local@),
                Err(e) => false,
            }),
            !(self.valid(h) && self.kind_of(h) == NodeKind::Element) ==> r == Err::<
                Option<String>,
                SinkError,
            >(SinkError::InvalidHandle),
    {
        if h.idx >= self.nodes.len() {
            return Err(SinkError::InvalidHandle);
        }
        match &self.nodes[h.idx].data {
            NodeData::Element { attrs, .. } => {
                let mut i: usize = 0;
                while i < attrs.len()
                    invariant
                        i <= attrs@.len(),
                        self.valid(h),
                        self.kind_of(h) == NodeKind::Element,
                        self.attrs_of(h) == attrs_view(attrs@),
                        forall|k: int|
                            0 <= k < i ==> !((#[trigger] attrs_view(attrs@)[k]).0 == name.ns@
                                && attrs_view(attrs@)[k].1 == name.local@),
                    decreases attrs@.len() - i,
                {
                    proof {
                        assert(attrs_view(attrs@)[i as int] == attrs@[i as int].view_attr());
                    }
                    if qual_name_eq(&attrs[i].name, name) {
                        let HtmlAttribute::String(v) = &attrs[i].value;
                        proof {
                            assert(attrs_view(attrs@)[i as int] == attrs@[i as int].view_attr());
                            crate::model::lemma_attr_lookup_first(
                                attrs_view(attrs@),
                                name.ns@,
                                name.local@,
                                i as int,
                            );
                        }
                        return Ok(Some(v.clone()));
                    }
                    i = i + 1;
                }
                proof {
                    if crate::model::has_attr_name(attrs_view(attrs@), name.ns@, name.local@) {
                        let k = choose|k: int|
                            0 <= k < attrs_view(attrs@).len() && (#[trigger] attrs_view(
                                attrs@,
                            )[k]).0 == name.ns@ && attrs_view(attrs@)[k].1 == name.local@;
                        assert(attrs_view(attrs@)[k].0 == name.ns@);
                        assert(false);
                    }
                }
                Ok(None)
            },
            _ => Err(SinkError::InvalidHandle),
        }
    }

    /// The template-contents handle of a template element.
    pub fn template_contents(&self, h: Handle) -> (r: Result<Option<Handle>, SinkError>)
        ensures
            self.valid(h) ==> r == Ok::<Option<Handle>, SinkError>(self.template_of(h)),
            !self.valid(h) ==> r == Err::<Option<Handle>, SinkError>(SinkError::InvalidHandle),
    {
        if h.idx >= self.nodes.len() {
            return Err(SinkError::InvalidHandle);
        }
        match &self.nodes[h.idx].data {
            NodeData::Element { template_contents, .. } => Ok(*template_contents),
            _ => Ok(None),
        }
    }

    /// The captured doctype: name, public identifier and system
    /// identifier, or `None` when no doctype was seen.
    pub fn doctype(&self) -> (r: Option<(String, String, String)>)
        ensures
            match r {
                Some(d) => self.doctype_of() == Some((d.0@, d.1@, d.2@)),
                None => self.doctype_of() is None,
            },
    {
        match &self.doctype {
            Some(d) => Some((d.name.clone(), d.public_id.clone(), d.system_id.clone())),
            None => None,
        }
    }

    /// The captured quirks mode.
    pub fn quirks_mode(&self) -> (r: QuirksMode)
        ensures
            r == self.quirks_of(),
    {
        self.quirks
    }
}


/// All children of `n` were moved, in order, to the end of `np`'s children,
/// and `n`'s children list was cleared.  When the former last child of `np`
/// and the first moved child are both text nodes, their buffers merged: the
/// first moved child was absorbed into the trailing text child and left
/// parentless instead of being moved.
pub open spec fn reparented(s0: &HtmlParser, s1: &HtmlParser, n: Handle, np: Handle) -> bool {
    let cs = s0.children_of(n);
    let ps = s0.children_of(np);
    &&& s1.node_count() == s0.node_count()
    &&& valid_unchanged(s0, s1)
    &&& meta_unchanged(s0, s1)
    &&& s1.children_of(n) == Seq::<Handle>::empty()
    &&& s1.parent_of(n) == s0.parent_of(n)
    &&& node_payload_unchanged(s0, s1, n)
    &&& s1.parent_of(np) == s0.parent_of(np)
    &&& node_payload_unchanged(s0, s1, np)
    &&& (if cs.len() > 0 && ps.len() > 0 && s0.kind_of(ps.last()) == NodeKind::Text && s0.kind_of(
        cs[0],
    ) == NodeKind::Text {
        let hl = ps.last();
        let h0 = cs[0];
        &&& s1.children_of(np) == ps + cs.drop_first()
        &&& s1.kind_of(hl) == NodeKind::Text
        &&& s1.text_of(hl) == s0.text_of(hl) + s0.text_of(h0)
        &&& s1.parent_of(hl) == s0.parent_of(hl)
        &&& s1.children_of(hl) == s0.children_of(hl)
        &&& s1.parent_of(h0) == None::<Handle>
        &&& s1.children_of(h0) == s0.children_of(h0)
        &&& node_payload_unchanged(s0, s1, h0)
        &&& (forall|k: int|
            1 <= k < cs.len() ==> (#[trigger] s1.parent_of(cs[k])) == Some(np)
                && s1.children_of(cs[k]) == s0.children_of(cs[k]) && node_payload_unchanged(
                s0,
                s1,
                cs[k],
            ))
        &&& (forall|h: Handle|
            s0.valid(h) && h != n && h != np && h != hl && !cs.contains(h)
                ==> #[trigger] node_unchanged(s0, s1, h))
    } else {
        &&& s1.children_of(np) == ps + cs
        &&& (forall|k: int|
            0 <= k < cs.len() ==> (#[trigger] s1.parent_of(cs[k])) == Some(np)
                && s1.children_of(cs[k]) == s0.children_of(cs[k]) && node_payload_unchanged(
                s0,
                s1,
                cs[k],
            ))
        &&& (forall|h: Handle|
            s0.valid(h) && h != n && h != np && !cs.contains(h) ==> #[trigger] node_unchanged(
                s0,
                s1,
                h,
            ))
    })
}

impl HtmlParser {
    /// Move the entire children sequence of `node` to the end of
    /// `new_parent`'s children, preserving relative order and clearing
    /// `node`'s children; the text-coalescing rule applies at the boundary.
    /// Moving children onto `node` itself changes nothing; a `new_parent`
    /// that cannot hold children, or that is itself a child of `node`, is
    /// refused.
    pub fn reparent_children(&mut self, node: Handle, new_parent: Handle) -> (r: Result<
        (),
        SinkError,
    >)
        requires
            old(self).wf(),
        ensures
            final(self).wf(),
            old(self).is_finished() ==> r == Err::<(), SinkError>(SinkError::SinkFinished)
                && *final(self) == *old(self),
            !old(self).is_finished() && (!old(self).valid(node) || !old(self).valid(new_parent)
                || !container_kind(old(self).kind_of(new_parent))) ==> r == Err::<(), SinkError>(
                SinkError::InvalidHandle,
            ) && *final(self) == *old(self),
            !old(self).is_finished() && old(self).valid(node) && old(self).valid(new_parent)
                && container_kind(old(self).kind_of(new_parent)) ==> {
                if node == new_parent {
                    r == Ok::<(), SinkError>(()) && *final(self) == *old(self)
                } else if old(self).parent_of(new_parent) == Some(node) {
                    r == Err::<(), SinkError>(SinkError::InvalidHandle) && *final(self) == *old(
                        self,
                    )
                } else {
                    r == Ok::<(), SinkError>(()) && reparented(old(self), final(self), node, new_parent)
                }
            },
    {
        if self.finished {
            return Err(SinkError::SinkFinished);
        }
        if node.idx >= self.nodes.len() || new_parent.idx >= self.nodes.len() {
            return Err(SinkError::InvalidHandle);
        }
        let np_container = match &self.nodes[new_parent.idx].data {
            NodeData::Document => true,
            NodeData::Element { .. } => true,
            _ => false,
        };
        if !np_container {
            return Err(SinkError::InvalidHandle);
        }
        if node == new_parent {
            return Ok(());
        }
        let np_is_child = match self.nodes[new_parent.idx].parent {
            Some(q) => q == node,
            None => false,
        };
        if np_is_child {
            return Err(SinkError::InvalidHandle);
        }
        let ghost cs_all = self.children_of(node);
        let ghost ps = self.children_of(new_parent);
        proof {
            assert(self.nodes.len() == self.nodes@.len());
            assert(node_wf(self.nodes@, node.idx as int));
            assert(node_wf(self.nodes@, new_parent.idx as int));
            // no child of `node` is `node` or `new_parent`
            assert forall|k: int| 0 <= k < cs_all.len() implies ((#[trigger] cs_all[k]) != node
                && cs_all[k] != new_parent && self.valid(cs_all[k]) && self.parent_of(cs_all[k])
                == Some(node)) by {
                assert(self.nodes@[cs_all[k].idx as int].parent == Some(node));
                assert(node_wf(self.nodes@, cs_all[k].idx as int));
                if cs_all[k] == new_parent {
                    assert(self.parent_of(new_parent) == Some(node));
                }
            }
            assert(!cs_all.contains(node)) by {
                if cs_all.contains(node) {
                    let k = choose|k: int| 0 <= k < cs_all.len() && cs_all[k] == node;
                    assert(cs_all[k] != node);
                }
            }
            assert(!cs_all.contains(new_parent)) by {
                if cs_all.contains(new_parent) {
                    let k = choose|k: int| 0 <= k < cs_all.len() && cs_all[k] == new_parent;
                    assert(cs_all[k] != new_parent);
                }
            }
            assert(cs_all.no_duplicates());
        }
        // boundary text merge
        let n_cs = self.nodes[node.idx].children.len();
        let n_ps = self.nodes[new_parent.idx].children.len();
        let ghost merging = n_cs > 0 && n_ps > 0 && self.kind_of(ps.last()) == NodeKind::Text
            && self.kind_of(cs_all[0]) == NodeKind::Text;
        if n_cs > 0 && n_ps > 0 {
            let h0 = self.nodes[node.idx].children[0];
            let hl = self.nodes[new_parent.idx].children[n_ps - 1];
            let h0_is_text = match &self.nodes[h0.idx].data {
                NodeData::Text { .. } => true,
                _ => false,
            };
            let hl_is_text = match &self.nodes[hl.idx].data {
                NodeData::Text { .. } => true,
                _ => false,
            };
            proof {
                assert(h0 == cs_all[0]);
                assert(hl == ps.last());
                assert(h0_is_text == (self.kind_of(h0) == NodeKind::Text));
                assert(hl_is_text == (self.kind_of(hl) == NodeKind::Text));
            }
            if h0_is_text && hl_is_text {
                proof {
                    assert(merging);
                    assert(h0 != hl);
                    assert(h0 != node && h0 != new_parent);
                    assert(hl != new_parent && hl != node) by {
                        assert(self.nodes@[hl.idx as int].parent == Some(new_parent));
                        assert(node_wf(self.nodes@, hl.idx as int));
                        assert(container_kind(self.kind_of(node)));
                    }
                }
                let ghost s_a = *self;
                self.detach(h0);
                proof {
                    assert(detached(&s_a, self, h0, node));
                    assert(node_unchanged(&s_a, self, new_parent));
                    assert(node_unchanged(&s_a, self, hl));
                    assert(self.kind_of(hl) == NodeKind::Text);
                    assert(node_payload_unchanged(&s_a, self, h0));
                    assert(self.kind_of(h0) == NodeKind::Text);
                    assert(self.children_of(node) == seq_remove_first(cs_all, h0));
                    assert(seq_remove_first(cs_all, h0) == cs_all.drop_first());
                }
                let ghost s_b = *self;
                let buf = match &self.nodes[h0.idx].data {
                    NodeData::Text { contents } => contents.clone(),
                    _ => {
                        proof {
                            assert(false);
                        }
                        String::new()
                    },
                };
                let ghost nodes_a = self.nodes@;
                let node_hl = &mut self.nodes[hl.idx];
                match &mut node_hl.data {
                    NodeData::Text { contents } => {
                        contents.append(buf.as_str());
                    },
                    _ => {
                        proof {
                            assert(false);
                        }
                    },
                }
                proof {
                    lemma_arena_payload_update(nodes_a, self.nodes@);
                    assert(self.children_of(new_parent) == s_b.children_of(new_parent));
                    assert(self.children_of(new_parent) == ps);
                    assert(self.children_of(node) == s_b.children_of(node));
                    assert(self.children_of(node) == cs_all.drop_first());
                    assert forall|h: Handle|
                        old(self).valid(h) && h != node && h != hl && h != h0
                            implies #[trigger] node_unchanged(old(self), self, h) by {
                        assert(node_unchanged(old(self), &s_b, h));
                        assert(node_unchanged(&s_b, self, h));
                    }
                    assert(node_payload_unchanged(old(self), self, h0));
                    assert(self.parent_of(h0) == None::<Handle>);
                    assert(self.children_of(h0) == old(self).children_of(h0));
                    assert(self.kind_of(hl) == NodeKind::Text);
                    assert(self.text_of(hl) == old(self).text_of(hl) + old(self).text_of(h0));
                    assert(self.parent_of(hl) == old(self).parent_of(hl));
                    assert(self.children_of(hl) == old(self).children_of(hl));
                    assert(self.parent_of(node) == old(self).parent_of(node));
                    assert(node_payload_unchanged(old(self), self, node));
                    assert(node_payload_unchanged(old(self), self, new_parent));
                    assert(self.parent_of(new_parent) == old(self).parent_of(new_parent));
                }
            }
        }
        // move the remaining children over, in order
        let ghost smid = *self;
        let ghost csr = smid.children_of(node);
        let ghost psm = smid.children_of(new_parent);
        proof {
            if merging {
                assert(csr =~= cs_all.drop_first());
            } else {
                assert(csr == cs_all);
            }
            assert(psm == ps);
            assert(csr.no_duplicates()) by {
                if merging {
                    lemma_remove_first_distinct(cs_all, cs_all[0]);
                    assert(seq_remove_first(cs_all, cs_all[0]) == cs_all.drop_first());
                }
            }
            assert(csr.skip(0) =~= csr);
            assert(psm + csr.take(0) =~= psm);
            assert forall|k: int| 0 <= k < csr.len() implies self.parent_of(#[trigger] csr[k])
                == Some(node) && self.valid(csr[k]) by {
                assert(node_wf(self.nodes@, node.idx as int));
                assert(self.nodes@[node.idx as int].children@[k].idx < self.nodes@.len());
            }
        }
        let ghost mut moved: int = 0;
        while self.nodes[node.idx].children.len() > 0
            invariant
                self.arena_ok(),
                !self.is_finished(),
                self.nodes@.len() <= usize::MAX,
                self.valid(node),
                self.valid(new_parent),
                node != new_parent,
                container_kind(self.kind_of(new_parent)),
                0 <= moved <= csr.len(),
                self.node_count() == smid.node_count(),
                meta_unchanged(&smid, self),
                self.children_of(node) == csr.skip(moved),
                self.children_of(new_parent) == psm + csr.take(moved),
                self.parent_of(node) == smid.parent_of(node),
                node_payload_unchanged(&smid, self, node),
                self.parent_of(new_parent) == smid.parent_of(new_parent),
                node_payload_unchanged(&smid, self, new_parent),
                !csr.contains(node),
                !csr.contains(new_parent),
                csr.no_duplicates(),
                forall|k: int| 0 <= k < csr.len() ==> self.valid(#[trigger] csr[k]),
                forall|k: int|
                    0 <= k < moved ==> self.parent_of(#[trigger] csr[k]) == Some(new_parent),
                forall|k: int|
                    moved <= k < csr.len() ==> self.parent_of(#[trigger] csr[k]) == Some(node),
                forall|k: int|
                    0 <= k < csr.len() ==> self.children_of(#[trigger] csr[k])
                        == smid.children_of(csr[k]) && node_payload_unchanged(
                        &smid,
                        self,
                        csr[k],
                    ),
                forall|h: Handle|
                    smid.valid(h) && h != node && h != new_parent && !csr.contains(h)
                        ==> #[trigger] node_unchanged(&smid, self, h),
            decreases self.nodes@[node.idx as int].children@.len(),
        {
            let ghost pre = *self;
            let c = self.nodes[node.idx].children[0];
            proof {
                assert(csr.skip(moved)[0] == c);
                assert(c == csr[moved]);
                assert(csr.contains(c)) by {
                    assert(csr[moved] == c);
                }
                assert(c != node && c != new_parent);
                assert(node_wf(self.nodes@, node.idx as int));
                assert(self.parent_of(c) == Some(node));
                assert(self.valid(c));
            }
            self.detach(c);
            proof {
                assert(self.children_of(node) =~= csr.skip(moved + 1)) by {
                    assert(seq_remove_first(csr.skip(moved), c) == csr.skip(moved).drop_first());
                    assert(csr.skip(moved).drop_first() =~= csr.skip(moved + 1));
                }
                assert(node_unchanged(&pre, self, new_parent));
                assert(self.kind_of(new_parent) == pre.kind_of(new_parent));
                assert(self.parent_of(c) == None::<Handle>);
            }
            let ghost mid2 = *self;
            let end = self.nodes[new_parent.idx].children.len();
            self.attach_at(new_parent, end, c);
            proof {
                assert(node_unchanged(&mid2, self, node));
                assert(self.children_of(node) == mid2.children_of(node));
                assert(self.children_of(node) == csr.skip(moved + 1));
                assert(self.children_of(new_parent) =~= psm + csr.take(moved + 1)) by {
                    assert(mid2.children_of(new_parent) == psm + csr.take(moved));
                    assert(self.children_of(new_parent) == (psm + csr.take(moved)).push(c));
                    assert(csr.take(moved + 1) =~= csr.take(moved).push(c));
                }
                moved = moved + 1;
                assert(c == csr[moved - 1]);
                assert forall|k: int|
                    0 <= k < moved implies self.parent_of(#[trigger] csr[k]) == Some(
                    new_parent,
                ) by {
                    if k == moved - 1 {
                        assert(self.parent_of(c) == Some(new_parent));
                    } else {
                        assert(csr[k] != c);
                        assert(csr[k] != node && csr[k] != new_parent);
                        assert(pre.valid(csr[k]) && mid2.valid(csr[k]));
                        assert(pre.parent_of(csr[k]) == Some(new_parent));
                        assert(node_unchanged(&pre, &mid2, csr[k]));
                        assert(node_unchanged(&mid2, self, csr[k]));
                    }
                }
                assert forall|k: int|
                    moved <= k < csr.len() implies self.parent_of(#[trigger] csr[k]) == Some(
                    node,
                ) by {
                    assert(csr[k] != c);
                    assert(csr[k] != node && csr[k] != new_parent);
                    assert(pre.valid(csr[k]) && mid2.valid(csr[k]));
                    assert(pre.parent_of(csr[k]) == Some(node));
                    assert(node_unchanged(&pre, &mid2, csr[k]));
                    assert(node_unchanged(&mid2, self, csr[k]));
                }
                assert forall|k: int|
                    0 <= k < csr.len() implies self.children_of(#[trigger] csr[k])
                        == smid.children_of(csr[k]) && node_payload_unchanged(
                        &smid,
                        self,
                        csr[k],
                    ) by {
                    assert(pre.children_of(csr[k]) == smid.children_of(csr[k]));
                    assert(node_payload_unchanged(&smid, &pre, csr[k]));
                    if k == moved - 1 {
                        assert(mid2.children_of(c) == pre.children_of(c));
                        assert(node_payload_unchanged(&pre, &mid2, c));
                        assert(self.children_of(c) == mid2.children_of(c));
                        assert(node_payload_unchanged(&mid2, self, c));
                    } else {
                        assert(csr[k] != c);
                        assert(csr[k] != node && csr[k] != new_parent);
                        assert(pre.valid(csr[k]) && mid2.valid(csr[k]));
                        assert(node_unchanged(&pre, &mid2, csr[k]));
                        assert(node_unchanged(&mid2, self, csr[k]));
                    }
                }
                assert forall|k: int|
                    0 <= k < csr.len() implies self.valid(#[trigger] csr[k]) by {
                    assert(pre.valid(csr[k]));
                }
                assert forall|h: Handle|
                    smid.valid(h) && h != node && h != new_parent && !csr.contains(h)
                        implies #[trigger] node_unchanged(&smid, self, h) by {
                    assert(h != c);
                    assert(node_unchanged(&smid, &pre, h));
                    assert(pre.valid(h) && mid2.valid(h));
                    assert(node_unchanged(&pre, &mid2, h));
                    assert(node_unchanged(&mid2, self, h));
                }
                assert(node_payload_unchanged(&smid, self, node)) by {
                    assert(node_payload_unchanged(&smid, &pre, node));
                    assert(node_payload_unchanged(&pre, &mid2, node));
                    assert(node_payload_unchanged(&mid2, self, node));
                }
                assert(node_payload_unchanged(&smid, self, new_parent)) by {
                    assert(node_payload_unchanged(&smid, &pre, new_parent));
                    assert(node_payload_unchanged(&pre, &mid2, new_parent));
                    assert(node_payload_unchanged(&mid2, self, new_parent));
                }
                assert(self.parent_of(node) == smid.parent_of(node)) by {
                    assert(mid2.parent_of(node) == pre.parent_of(node));
                    assert(self.parent_of(node) == mid2.parent_of(node));
                }
            }
        }
        proof {
            assert(self.children_of(node).len() == 0);
            assert(csr.skip(moved).len() == 0);
            assert(moved == csr.len());
            assert(csr.take(moved) =~= csr);
            assert(self.children_of(node) =~= Seq::<Handle>::empty());
            assert(reparented(old(self), self, node, new_parent)) by {
                if merging {
                    let hl = ps.last();
                    let h0 = cs_all[0];
                    assert(hl != node && hl != new_parent && !csr.contains(hl)) by {
                        assert(old(self).parent_of(hl) == Some(new_parent));
                        assert(node_wf(old(self).nodes@, hl.idx as int));
                        assert forall|k: int| 0 <= k < csr.len() implies (#[trigger] csr[k])
                            != hl by {
                            assert(csr[k] == cs_all[k + 1]);
                        }
                        if csr.contains(hl) {
                            let k = choose|k: int| 0 <= k < csr.len() && csr[k] == hl;
                        }
                    }
                    assert(node_unchanged(&smid, self, hl));
                    assert(!csr.contains(h0)) by {
                        assert forall|k: int| 0 <= k < csr.len() implies (#[trigger] csr[k])
                            != h0 by {
                            assert(csr[k] == cs_all[k + 1]);
                            assert(cs_all.no_duplicates());
                        }
                        if csr.contains(h0) {
                            let k = choose|k: int| 0 <= k < csr.len() && csr[k] == h0;
                        }
                    }
                    assert(h0 != node && h0 != new_parent && h0 != hl);
                    assert(node_unchanged(&smid, self, h0));
                    assert(self.children_of(new_parent) == ps + cs_all.drop_first());
                    assert forall|k: int| 1 <= k < cs_all.len() implies (
                    #[trigger] self.parent_of(cs_all[k])) == Some(new_parent)
                        && self.children_of(cs_all[k]) == old(self).children_of(cs_all[k])
                        && node_payload_unchanged(old(self), self, cs_all[k]) by {
                        assert(cs_all[k] == csr[k - 1]);
                        assert(cs_all[k] != h0);
                        assert(cs_all[k] != hl) by {
                            assert(old(self).parent_of(cs_all[k]) == Some(node));
                            assert(old(self).parent_of(hl) == Some(new_parent));
                        }
                        assert(cs_all[k] != node && cs_all[k] != new_parent);
                        assert(node_unchanged(old(self), &smid, cs_all[k]));
                        assert(self.parent_of(csr[k - 1]) == Some(new_parent));
                        assert(self.children_of(csr[k - 1]) == smid.children_of(csr[k - 1]));
                        assert(node_payload_unchanged(&smid, self, csr[k - 1]));
                    }
                    assert forall|h: Handle|
                        old(self).valid(h) && h != node && h != new_parent && h != hl
                            && !cs_all.contains(h) implies #[trigger] node_unchanged(
                        old(self),
                        self,
                        h,
                    ) by {
                        assert(!csr.contains(h)) by {
                            if csr.contains(h) {
                                let k = choose|k: int| 0 <= k < csr.len() && csr[k] == h;
                                assert(cs_all[k + 1] == h);
                                assert(cs_all.contains(h));
                            }
                        }
                        assert(h != h0) by {
                            assert(cs_all[0] == h0);
                            if h == h0 {
                                assert(cs_all.contains(h));
                            }
                        }
                        assert(node_unchanged(old(self), &smid, h));
                        assert(node_unchanged(&smid, self, h));
                    }
                } else {
                    assert(smid == *old(self));
                    assert(self.children_of(new_parent) == ps + cs_all);
                }
            }
        }
        Ok(())
    }
}


impl HtmlParser {
    /// Facts every caller may rely on about a live, well-formed sink: the
    /// document root exists, children lists are duplicate-free, and the
    /// parent back-references and the children lists agree.
    pub proof fn lemma_wf_facts(&self)
        requires
            self.wf(),
            !self.is_finished(),
        ensures
            self.node_count() >= 1,
            self.valid(self.doc_handle()),
            self.kind_of(self.doc_handle()) == NodeKind::Document,
            self.parent_of(self.doc_handle()) is None,
            forall|h: Handle|
                self.valid(h) ==> (#[trigger] self.children_of(h)).no_duplicates(),
            forall|h: Handle|
                self.valid(h) ==> match self.parent_of(h) {
                    Some(q) => self.valid(q) && q != h && self.children_of(q).contains(h),
                    None => true,
                },
            forall|h: Handle, k: int|
                self.valid(h) && 0 <= k < self.children_of(h).len() ==> (self.valid(
                    #[trigger] self.children_of(h)[k],
                ) && self.parent_of(self.children_of(h)[k]) == Some(h)),
    {
        assert(self.nodes@.len() <= usize::MAX) by {
            assert(self.nodes.len() == self.nodes@.len());
        }
        assert forall|h: Handle| self.valid(h) implies (#[trigger] self.children_of(
            h,
        )).no_duplicates() by {
            assert(node_wf(self.nodes@, h.idx as int));
        }
        assert forall|h: Handle| self.valid(h) implies match self.parent_of(h) {
            Some(q) => self.valid(q) && q != h && self.children_of(q).contains(h),
            None => true,
        } by {
            assert(node_wf(self.nodes@, h.idx as int));
            match self.nodes@[h.idx as int].parent {
                Some(q) => {
                    let k = choose|k: int|
                        0 <= k < self.nodes@[q.idx as int].children@.len() && (
                        #[trigger] self.nodes@[q.idx as int].children@[k]).idx == h.idx as int;
                    assert(self.children_of(q)[k] == h);
                    assert(self.children_of(q).contains(h));
                },
                None => {},
            }
        }
        assert forall|h: Handle, k: int|
            self.valid(h) && 0 <= k < self.children_of(h).len() implies (self.valid(
            #[trigger] self.children_of(h)[k],
        ) && self.parent_of(self.children_of(h)[k]) == Some(h)) by {
            assert(node_wf(self.nodes@, h.idx as int));
        }
    }
}


impl HtmlAst {
    /// Facts every caller may rely on about a well-formed finished tree:
    /// the document root exists and is parentless, children lists are
    /// duplicate-free, and the parent back-references and the children
    /// lists agree.
    pub proof fn lemma_wf_facts(&self)
        requires
            self.wf(),
        ensures
            self.node_count() >= 1,
            self.valid(self.doc_handle()),
            self.kind_of(self.doc_handle()) == NodeKind::Document,
            self.parent_of(self.doc_handle()) is None,
            forall|h: Handle|
                self.valid(h) ==> (#[trigger] self.children_of(h)).no_duplicates(),
            forall|h: Handle|
                self.valid(h) ==> match self.parent_of(h) {
                    Some(q) => self.valid(q) && q != h && self.children_of(q).contains(h),
                    None => true,
                },
            forall|h: Handle, k: int|
                self.valid(h) && 0 <= k < self.children_of(h).len() ==> (self.valid(
                    #[trigger] self.children_of(h)[k],
                ) && self.parent_of(self.children_of(h)[k]) == Some(h)),
    {
        assert(self.nodes@.len() <= usize::MAX) by {
            assert(self.nodes.len() == self.nodes@.len());
        }
        assert forall|h: Handle| self.valid(h) implies (#[trigger] self.children_of(
            h,
        )).no_duplicates() by {
            assert(node_wf(self.nodes@, h.idx as int));
        }
        assert forall|h: Handle| self.valid(h) implies match self.parent_of(h) {
            Some(q) => self.valid(q) && q != h && self.children_of(q).contains(h),
            None => true,
        } by {
            assert(node_wf(self.nodes@, h.idx as int));
            match self.nodes@[h.idx as int].parent {
                Some(q) => {
                    let k = choose|k: int|
                        0 <= k < self.nodes@[q.idx as int].children@.len() && (
                        #[trigger] self.nodes@[q.idx as int].children@[k]).idx == h.idx as int;
                    assert(self.children_of(q)[k] == h);
                    assert(self.children_of(q).contains(h));
                },
                None => {},
            }
        }
        assert forall|h: Handle, k: int|
            self.valid(h) && 0 <= k < self.children_of(h).len() implies (self.valid(
            #[trigger] self.children_of(h)[k],
        ) && self.parent_of(self.children_of(h)[k]) == Some(h)) by {
            assert(node_wf(self.nodes@, h.idx as int));
        }
    }
}

} // verus!
