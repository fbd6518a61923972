//! Node model: handles, qualified names, attributes, node records, and the
//! small value types that cross the sink's boundary.

use vstd::prelude::*;

verus! {

/// Opaque, stable reference to a node in the arena.  Equality of handles is
/// node identity: two handles are the same node exactly when they are equal.
#[derive(Clone, Copy, PartialEq, Eq, Structural, Debug)]
pub struct Handle {
    pub(crate) idx: usize,
}

/// A qualified name: a namespace URI together with a local name.
#[derive(Debug)]
pub struct QualName {
    pub ns: String,
    pub local: String,
}

/// The value of a single attribute.
#[derive(Debug)]
pub enum HtmlAttribute {
    String(String),
}

/// One attribute: a qualified name and its value.
#[derive(Debug)]
pub struct Attr {
    pub name: QualName,
    pub value: HtmlAttribute,
}

/// Description of an element to be created: its qualified name and its
/// initial attributes.
#[derive(Debug)]
pub struct Tag {
    pub name: QualName,
    pub attributes: Vec<Attr>,
}

/// The kind of a node, as reported by queries on the finished tree.
#[derive(Clone, Copy, PartialEq, Eq, Structural, Debug)]
pub enum NodeKind {
    Document,
    Element,
    Text,
    Comment,
    ProcessingInstruction,
}

/// Doctype data captured on the document: name, public identifier and
/// system identifier.
#[derive(Debug)]
pub struct Doctype {
    pub name: String,
    pub public_id: String,
    pub system_id: String,
}

/// Document-wide rendering-compatibility flag, set once from the doctype by
/// the external tree builder.  Purely informational for this library.
#[derive(Clone, Copy, PartialEq, Eq, Structural, Debug)]
pub enum QuirksMode {
    NoQuirks,
    LimitedQuirks,
    Quirks,
}

/// Errors reported for caller-contract violations.  The sink does no I/O and
/// has no transient-failure class: every error is immediate and final.
#[derive(Clone, Copy, PartialEq, Eq, Structural, Debug)]
pub enum SinkError {
    /// A handle does not resolve to a node that the operation can use.
    InvalidHandle,
    /// Template contents were requested on a node that is not a template
    /// element.
    NotATemplate,
    /// A mutation was attempted after the sink was finished.
    SinkFinished,
}

/// What an insertion operation inserts: either an existing node, or a raw
/// text chunk that is subject to the text-coalescing rule.
#[derive(Debug)]
pub enum NodeOrText {
    AppendNode(Handle),
    AppendText(String),
}

/// Answer given to the external driver when a script element completes.
#[derive(Clone, Copy, PartialEq, Eq, Structural, Debug)]
pub enum NextParserState {
    Continue,
    Abort,
}

/// Per-variant payload of a node record.
pub(crate) enum NodeData {
    Document,
    Element { name: QualName, attrs: Vec<Attr>, template_contents: Option<Handle> },
    Text { contents: String },
    Comment { contents: String },
    ProcessingInstruction { target: String, data: String },
}

/// One node record in the arena.
pub(crate) struct Node {
    pub(crate) parent: Option<Handle>,
    pub(crate) children: Vec<Handle>,
    pub(crate) data: NodeData,
}

/// Attribute view: namespace, local name, value.
pub type AttrV = (Seq<char>, Seq<char>, Seq<char>);

impl HtmlAttribute {
    /// The character sequence this attribute value holds.
    pub open spec fn view_str(self) -> Seq<char> {
        match self {
            HtmlAttribute::String(s) => s@,
        }
    }
}

impl Attr {
    /// View of one attribute as (namespace, local name, value).
    pub open spec fn view_attr(self) -> AttrV {
        (self.name.ns@, self.name.local@, self.value.view_str())
    }
}

/// Views of a whole attribute list, in order.
pub open spec fn attrs_view(attrs: Seq<Attr>) -> Seq<AttrV> {
    attrs.map_values(|a: Attr| a.view_attr())
}

/// Does an attribute list hold an attribute of the given qualified name?
pub open spec fn has_attr_name(attrs: Seq<AttrV>, ns: Seq<char>, local: Seq<char>) -> bool {
    exists|i: int| 0 <= i < attrs.len() && attrs[i].0 == ns && attrs[i].1 == local
}

/// The value of the first attribute with the given qualified name.
pub open spec fn attr_lookup(attrs: Seq<AttrV>, ns: Seq<char>, local: Seq<char>) -> Seq<char>
    decreases attrs.len(),
{
    if attrs.len() == 0 {
        Seq::<char>::empty()
    } else if attrs[0].0 == ns && attrs[0].1 == local {
        attrs[0].2
    } else {
        attr_lookup(attrs.drop_first(), ns, local)
    }
}

/// Attribute-set merge with first-set-wins semantics: each attribute of
/// `add`, in order, is appended only if no attribute with its qualified name
/// is already present.
pub open spec fn merge_attrs(base: Seq<AttrV>, add: Seq<AttrV>) -> Seq<AttrV>
    decreases add.len(),
{
    if add.len() == 0 {
        base
    } else if has_attr_name(base, add[0].0, add[0].1) {
        merge_attrs(base, add.drop_first())
    } else {
        merge_attrs(base.push(add[0]), add.drop_first())
    }
}

/// The lookup of an attribute name answers with the value at its first
/// occurrence.
pub proof fn lemma_attr_lookup_first(attrs: Seq<AttrV>, ns: Seq<char>, local: Seq<char>, i: int)
    requires
        0 <= i < attrs.len(),
        attrs[i].0 == ns && attrs[i].1 == local,
        forall|k: int| 0 <= k < i ==> !((#[trigger] attrs[k]).0 == ns && attrs[k].1 == local),
    ensures
        has_attr_name(attrs, ns, local),
        attr_lookup(attrs, ns, local) == attrs[i].2,
    decreases i,
{
    if i == 0 {
    } else {
        assert(!(attrs[0].0 == ns && attrs[0].1 == local));
        assert(attrs.drop_first()[i - 1] == attrs[i]);
        assert(forall|k: int|
            0 <= k < i - 1 ==> (#[trigger] attrs.drop_first()[k]) == attrs[k + 1]);
        lemma_attr_lookup_first(attrs.drop_first(), ns, local, i - 1);
    }
}

/// Appending an attribute at the end changes neither the presence nor the
/// looked-up value of a name that is already present.
pub proof fn lemma_lookup_push(attrs: Seq<AttrV>, x: AttrV, ns: Seq<char>, local: Seq<char>)
    requires
        has_attr_name(attrs, ns, local),
    ensures
        has_attr_name(attrs.push(x), ns, local),
        attr_lookup(attrs.push(x), ns, local) == attr_lookup(attrs, ns, local),
    decreases attrs.len(),
{
    let i = choose|i: int| 0 <= i < attrs.len() && attrs[i].0 == ns && attrs[i].1 == local;
    assert(attrs.push(x)[i] == attrs[i]);
    if attrs[0].0 == ns && attrs[0].1 == local {
        assert(attrs.push(x)[0] == attrs[0]);
    } else {
        assert(i != 0);
        assert(attrs.drop_first()[i - 1] == attrs[i]);
        assert(has_attr_name(attrs.drop_first(), ns, local));
        lemma_lookup_push(attrs.drop_first(), x, ns, local);
        assert(attrs.push(x).drop_first() =~= attrs.drop_first().push(x));
        assert(attrs.push(x)[0] == attrs[0]);
    }
}

/// Merging never disturbs an attribute name that is already present: it
/// stays present with its original value.
pub proof fn lemma_merge_preserves_lookup(
    base: Seq<AttrV>,
    add: Seq<AttrV>,
    ns: Seq<char>,
    local: Seq<char>,
)
    requires
        has_attr_name(base, ns, local),
    ensures
        has_attr_name(merge_attrs(base, add), ns, local),
        attr_lookup(merge_attrs(base, add), ns, local) == attr_lookup(base, ns, local),
    decreases add.len(),
{
    if add.len() == 0 {
    } else if has_attr_name(base, add[0].0, add[0].1) {
        lemma_merge_preserves_lookup(base, add.drop_first(), ns, local);
    } else {
        lemma_lookup_push(base, add[0], ns, local);
        lemma_merge_preserves_lookup(base.push(add[0]), add.drop_first(), ns, local);
    }
}

/// Merging one more attribute appends it exactly when its name is not yet
/// present in the merge so far.
pub proof fn lemma_merge_attrs_snoc(base: Seq<AttrV>, add: Seq<AttrV>, x: AttrV)
    ensures
        merge_attrs(base, add.push(x)) == (if has_attr_name(merge_attrs(base, add), x.0, x.1) {
            merge_attrs(base, add)
        } else {
            merge_attrs(base, add).push(x)
        }),
    decreases add.len(),
{
    if add.len() == 0 {
        assert(add.push(x)[0] == x);
        assert(add.push(x).drop_first() =~= Seq::<AttrV>::empty());
        assert(merge_attrs(base, add) == base);
        assert(merge_attrs(base, Seq::<AttrV>::empty()) == base);
        assert(merge_attrs(base.push(x), Seq::<AttrV>::empty()) == base.push(x));
    } else {
        assert(add.push(x)[0] == add[0]);
        assert(add.push(x).drop_first() =~= add.drop_first().push(x));
        if has_attr_name(base, add[0].0, add[0].1) {
            lemma_merge_attrs_snoc(base, add.drop_first(), x);
        } else {
            lemma_merge_attrs_snoc(base.push(add[0]), add.drop_first(), x);
        }
    }
}

impl Node {
    pub(crate) open spec fn kind(&self) -> NodeKind {
        match self.data {
            NodeData::Document => NodeKind::Document,
            NodeData::Element { .. } => NodeKind::Element,
            NodeData::Text { .. } => NodeKind::Text,
            NodeData::Comment { .. } => NodeKind::Comment,
            NodeData::ProcessingInstruction { .. } => NodeKind::ProcessingInstruction,
        }
    }

    pub(crate) open spec fn text(&self) -> Seq<char> {
        match self.data {
            NodeData::Text { contents } => contents@,
            NodeData::Comment { contents } => contents@,
            _ => Seq::<char>::empty(),
        }
    }

    pub(crate) open spec fn elem_ns(&self) -> Seq<char> {
        match self.data {
            NodeData::Element { name, .. } => name.ns@,
            _ => Seq::<char>::empty(),
        }
    }

    pub(crate) open spec fn elem_local(&self) -> Seq<char> {
        match self.data {
            NodeData::Element { name, .. } => name.local@,
            _ => Seq::<char>::empty(),
        }
    }

    pub(crate) open spec fn attrs(&self) -> Seq<AttrV> {
        match self.data {
            NodeData::Element { attrs, .. } => attrs_view(attrs@),
            _ => Seq::<AttrV>::empty(),
        }
    }

    pub(crate) open spec fn template(&self) -> Option<Handle> {
        match self.data {
            NodeData::Element { template_contents, .. } => template_contents,
            _ => None,
        }
    }

    pub(crate) open spec fn pi_target(&self) -> Seq<char> {
        match self.data {
            NodeData::ProcessingInstruction { target, .. } => target@,
            _ => Seq::<char>::empty(),
        }
    }

    pub(crate) open spec fn pi_data(&self) -> Seq<char> {
        match self.data {
            NodeData::ProcessingInstruction { data, .. } => data@,
            _ => Seq::<char>::empty(),
        }
    }
}

/// Exact comparison of two qualified names.
pub fn qual_name_eq(a: &QualName, b: &QualName) -> (r: bool)
    ensures
        r == (a.ns@ == b.ns@ && a.local@ == b.local@),
{
    a.ns == b.ns && a.local == b.local
}

impl Tag {
    /// A tag for an HTML-namespace element with the given local name and no
    /// attributes.
    pub fn named(name: &str) -> (t: Tag)
        ensures
            t.name.ns@ == html_namespace(),
            t.name.local@ == name@,
            t.attributes@.len() == 0,
    {
        Tag {
            name: QualName { ns: ns_html(), local: name.to_string() },
            attributes: Vec::new(),
        }
    }
}

impl Default for Tag {
    /// A tag with empty names and no attributes.
    fn default() -> (t: Tag)
        ensures
            t.name.ns@ == Seq::<char>::empty(),
            t.name.local@ == Seq::<char>::empty(),
            t.attributes@.len() == 0,
    {
        Tag {
            name: QualName { ns: String::new(), local: String::new() },
            attributes: Vec::new(),
        }
    }
}

/// The HTML namespace URI, as a character sequence.
pub open spec fn html_namespace() -> Seq<char> {
    "http://www.w3.org/1999/xhtml"@
}

/// The MathML namespace URI, as a character sequence.
pub open spec fn mathml_namespace() -> Seq<char> {
    "http://www.w3.org/1998/Math/MathML"@
}

/// The HTML namespace URI, as an owned string.
pub fn ns_html() -> (s: String)
    ensures
        s@ == html_namespace(),
{
    "http://www.w3.org/1999/xhtml".to_string()
}

/// The MathML namespace URI, as an owned string.
pub fn ns_mathml() -> (s: String)
    ensures
        s@ == mathml_namespace(),
{
    "http://www.w3.org/1998/Math/MathML".to_string()
}

} // verus!
