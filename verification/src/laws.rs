//! Laws of the sink: properties that relate several operations, proved from
//! their contracts.

use vstd::prelude::*;

use crate::model::{attr_lookup, has_attr_name, lemma_merge_preserves_lookup, AttrV, NodeKind};
use crate::seqs::{lemma_remove_first_distinct, lemma_remove_first_len, seq_remove_first};
use crate::sink::{
    appended_node, appended_text, attrs_merged, created_element, created_leaf, last_text_child,
    HtmlParser,
};
use crate::model::Handle;

verus! {

/// Text coalescing: appending one text chunk and then another under a
/// parent that starts with no children yields exactly one text child whose
/// buffer is the concatenation, never two text children.
pub proof fn lemma_text_coalescing(
    s0: &HtmlParser,
    s1: &HtmlParser,
    s2: &HtmlParser,
    p: Handle,
    t1: Seq<char>,
    t2: Seq<char>,
)
    requires
        s0.children_of(p).len() == 0,
        appended_text(s0, s1, p, t1),
        appended_text(s1, s2, p, t2),
    ensures
        s2.children_of(p).len() == 1,
        s2.kind_of(s2.children_of(p)[0]) == NodeKind::Text,
        s2.text_of(s2.children_of(p)[0]) == t1 + t2,
{
    assert(last_text_child(s0, p) is None);
    let hn = s0.next_handle();
    assert(s1.children_of(p) == s0.children_of(p).push(hn));
    assert(s1.children_of(p).len() == 1);
    assert(s1.children_of(p)[0] == hn);
    assert(s1.children_of(p).last() == hn);
    assert(s1.kind_of(hn) == NodeKind::Text);
    assert(last_text_child(s1, p) == Some(hn));
    assert(s2.children_of(p) == s1.children_of(p));
    assert(s2.text_of(hn) == t1 + t2);
}

/// Identity: a handle alive before a creation is never the handle that the
/// creation returns, since created handles are fresh.  Together with the
/// contract of `same_node`, which answers exactly handle equality, handles
/// from distinct creations never compare as the same node.
pub proof fn lemma_created_element_distinct(
    s0: &HtmlParser,
    s1: &HtmlParser,
    ns: Seq<char>,
    local: Seq<char>,
    attrs: Seq<AttrV>,
    fresh: Handle,
    earlier: Handle,
)
    requires
        created_element(s0, s1, ns, local, attrs, fresh),
        s0.valid(earlier),
    ensures
        earlier != fresh,
        s1.valid(earlier),
{
}

/// Identity, for text, comment and processing-instruction creations.
pub proof fn lemma_created_leaf_distinct(
    s0: &HtmlParser,
    s1: &HtmlParser,
    k: NodeKind,
    fresh: Handle,
    earlier: Handle,
)
    requires
        created_leaf(s0, s1, k, fresh),
        s0.valid(earlier),
    ensures
        earlier != fresh,
        s1.valid(earlier),
{
}

/// Reparent safety: appending a node that currently sits under `p1` to a
/// different parent `p2` removes it from `p1`'s children and adds it as the
/// last child of `p2`; `p1`'s remaining children keep their relative order
/// (the survivors are exactly the old sequence with the one entry removed).
pub proof fn lemma_reparent_safety(
    s0: &HtmlParser,
    s1: &HtmlParser,
    p1: Handle,
    p2: Handle,
    x: Handle,
)
    requires
        s0.wf(),
        !s0.is_finished(),
        s0.valid(x),
        s0.parent_of(x) == Some(p1),
        p1 != p2,
        appended_node(s0, s1, p2, x),
    ensures
        s1.parent_of(x) == Some(p2),
        s1.children_of(p2) == s0.children_of(p2).push(x),
        s1.children_of(p2).last() == x,
        s1.children_of(p1) == seq_remove_first(s0.children_of(p1), x),
        !s1.children_of(p1).contains(x),
        s1.children_of(p1).len() == s0.children_of(p1).len() - 1,
        forall|i: int, j: int|
            0 <= i < j < s1.children_of(p1).len() ==> {
                let old_i: int = if i < s0.children_of(p1).index_of_first(x).unwrap() {
                    i
                } else {
                    i + 1
                };
                let old_j: int = if j < s0.children_of(p1).index_of_first(x).unwrap() {
                    j
                } else {
                    j + 1
                };
                (#[trigger] s1.children_of(p1)[i]) == s0.children_of(p1)[old_i] && (
                #[trigger] s1.children_of(p1)[j]) == s0.children_of(p1)[old_j]
            },
{
    s0.lemma_wf_facts();
    let cs = s0.children_of(p1);
    assert(cs.contains(x));
    assert(cs.no_duplicates());
    lemma_remove_first_distinct(cs, x);
    lemma_remove_first_len(cs, x);
    cs.index_of_first_ensures(x);
    let m = cs.index_of_first(x).unwrap();
    assert(cs.remove(m) == seq_remove_first(cs, x)) by {
        crate::seqs::lemma_remove_at_first_index(cs, x, m);
    }
    assert forall|i: int| 0 <= i < s1.children_of(p1).len() implies (
    #[trigger] s1.children_of(p1)[i]) == cs[if i < m {
        i
    } else {
        i + 1
    }] by {
        assert(s1.children_of(p1) == cs.remove(m));
    }
}

/// Template idempotence: the template-contents query leaves the sink
/// untouched and answers from the element's stable template link, so two
/// queries on the same element return the same fragment handle.
pub proof fn lemma_template_idempotent(s: &HtmlParser, t: Handle, f1: Handle, f2: Handle)
    requires
        s.template_of(t) == Some(f1),
        s.template_of(t) == Some(f2),
    ensures
        f1 == f2,
{
}

/// Template stability: a template element's contents handle survives any
/// append of any node anywhere in the tree.
pub proof fn lemma_template_stable_under_append(
    s0: &HtmlParser,
    s1: &HtmlParser,
    p: Handle,
    c: Handle,
)
    requires
        appended_node(s0, s1, p, c),
    ensures
        forall|h: Handle|
            s0.valid(h) ==> (#[trigger] s1.template_of(h)) == s0.template_of(h),
{
    assert forall|h: Handle| s0.valid(h) implies (#[trigger] s1.template_of(h))
        == s0.template_of(h) by {
        if h == p || h == c || Some(h) == s0.parent_of(c) {
        } else {
            assert(crate::sink::node_unchanged(s0, s1, h));
        }
    }
}

/// Attribute merge: an attribute already present on an element keeps its
/// value through `add_attrs_if_missing`; existing values are never
/// overwritten.
pub proof fn lemma_attr_first_set_wins(
    s0: &HtmlParser,
    s1: &HtmlParser,
    e: Handle,
    add: Seq<AttrV>,
    ns: Seq<char>,
    local: Seq<char>,
)
    requires
        attrs_merged(s0, s1, e, add),
        has_attr_name(s0.attrs_of(e), ns, local),
    ensures
        has_attr_name(s1.attrs_of(e), ns, local),
        attr_lookup(s1.attrs_of(e), ns, local) == attr_lookup(s0.attrs_of(e), ns, local),
{
    lemma_merge_preserves_lookup(s0.attrs_of(e), add, ns, local);
}

} // verus!
