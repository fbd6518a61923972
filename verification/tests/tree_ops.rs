// Behavior of the tree mutation engine, exercised through the public sink
// API and the finished-tree queries.

use html_dom_sink::{
    Attr, Handle, HtmlAttribute, HtmlParser, NodeKind, NodeOrText, QualName, SinkError, Tag,
};

fn text(s: &str) -> NodeOrText {
    NodeOrText::AppendText(s.to_string())
}

fn node(h: Handle) -> NodeOrText {
    NodeOrText::AppendNode(h)
}

fn attr(ns: &str, local: &str, value: &str) -> Attr {
    Attr {
        name: QualName { ns: ns.to_string(), local: local.to_string() },
        value: HtmlAttribute::String(value.to_string()),
    }
}

#[test]
fn text_coalescing_two_chunks_one_child() {
    let mut sink = HtmlParser::new();
    let doc = sink.get_document();
    let body = sink.create_element(Tag::named("body")).unwrap();
    sink.append(doc, node(body)).unwrap();
    sink.append(body, text("ab")).unwrap();
    sink.append(body, text("cd")).unwrap();
    let ast = sink.finish().unwrap();
    assert_eq!(ast.child_count(body).unwrap(), 1);
    let t = ast.child_at(body, 0).unwrap();
    assert_eq!(ast.kind(t).unwrap(), NodeKind::Text);
    assert_eq!(ast.text(t).unwrap(), "abcd");
}

#[test]
fn same_node_is_identity() {
    let mut sink = HtmlParser::new();
    let a = sink.create_element(Tag::named("div")).unwrap();
    let b = sink.create_element(Tag::named("div")).unwrap();
    assert!(sink.same_node(a, a));
    assert!(sink.same_node(b, b));
    assert!(!sink.same_node(a, b));
}

#[test]
fn reparent_keeps_sibling_order() {
    let mut sink = HtmlParser::new();
    let doc = sink.get_document();
    let p1 = sink.create_element(Tag::named("ul")).unwrap();
    let p2 = sink.create_element(Tag::named("ol")).unwrap();
    sink.append(doc, node(p1)).unwrap();
    sink.append(doc, node(p2)).unwrap();
    let a = sink.create_element(Tag::named("li")).unwrap();
    let x = sink.create_element(Tag::named("li")).unwrap();
    let b = sink.create_element(Tag::named("li")).unwrap();
    sink.append(p1, node(a)).unwrap();
    sink.append(p1, node(x)).unwrap();
    sink.append(p1, node(b)).unwrap();
    // x is currently a child of p1; appending it to p2 must move it
    sink.append(p2, node(x)).unwrap();
    let ast = sink.finish().unwrap();
    assert_eq!(ast.child_count(p1).unwrap(), 2);
    assert_eq!(ast.child_at(p1, 0).unwrap(), a);
    assert_eq!(ast.child_at(p1, 1).unwrap(), b);
    assert_eq!(ast.child_count(p2).unwrap(), 1);
    assert_eq!(ast.child_at(p2, 0).unwrap(), x);
    assert_eq!(ast.parent(x).unwrap(), Some(p2));
}

#[test]
fn append_before_sibling_inserts_in_place() {
    let mut sink = HtmlParser::new();
    let doc = sink.get_document();
    let p = sink.create_element(Tag::named("p")).unwrap();
    sink.append(doc, node(p)).unwrap();
    let a = sink.create_element(Tag::named("a")).unwrap();
    let b = sink.create_element(Tag::named("b")).unwrap();
    sink.append(p, node(a)).unwrap();
    sink.append(p, node(b)).unwrap();
    let c = sink.create_element(Tag::named("i")).unwrap();
    sink.append_before_sibling(b, node(c)).unwrap();
    let ast = sink.finish().unwrap();
    assert_eq!(ast.child_count(p).unwrap(), 3);
    assert_eq!(ast.child_at(p, 0).unwrap(), a);
    assert_eq!(ast.child_at(p, 1).unwrap(), c);
    assert_eq!(ast.child_at(p, 2).unwrap(), b);
}

#[test]
fn append_before_sibling_merges_text_with_previous_sibling() {
    let mut sink = HtmlParser::new();
    let doc = sink.get_document();
    let p = sink.create_element(Tag::named("p")).unwrap();
    sink.append(doc, node(p)).unwrap();
    sink.append(p, text("hello")).unwrap();
    let em = sink.create_element(Tag::named("em")).unwrap();
    sink.append(p, node(em)).unwrap();
    // inserting text before `em` must merge into the preceding text node
    sink.append_before_sibling(em, text(" world")).unwrap();
    let ast = sink.finish().unwrap();
    assert_eq!(ast.child_count(p).unwrap(), 2);
    let t = ast.child_at(p, 0).unwrap();
    assert_eq!(ast.text(t).unwrap(), "hello world");
    assert_eq!(ast.child_at(p, 1).unwrap(), em);
}

#[test]
fn append_before_sibling_without_parent_is_refused() {
    let mut sink = HtmlParser::new();
    let orphan = sink.create_element(Tag::named("div")).unwrap();
    let r = sink.append_before_sibling(orphan, text("x"));
    assert_eq!(r, Err(SinkError::InvalidHandle));
}

#[test]
fn append_based_on_parent_node_picks_the_branch() {
    let mut sink = HtmlParser::new();
    let doc = sink.get_document();
    let table = sink.create_element(Tag::named("table")).unwrap();
    sink.append(doc, node(table)).unwrap();
    // `table` has a parent: behaves as append(table, ..)
    let tr = sink.create_element(Tag::named("tr")).unwrap();
    sink.append_based_on_parent_node(table, doc, node(tr)).unwrap();
    // an orphan element: behaves as append_before_sibling(prev, ..)
    let orphan = sink.create_element(Tag::named("div")).unwrap();
    let foster = sink.create_element(Tag::named("span")).unwrap();
    sink.append_based_on_parent_node(orphan, table, node(foster)).unwrap();
    let ast = sink.finish().unwrap();
    assert_eq!(ast.child_count(table).unwrap(), 1);
    assert_eq!(ast.child_at(table, 0).unwrap(), tr);
    // foster was inserted before `table` under the document
    assert_eq!(ast.child_at(doc, 0).unwrap(), foster);
    assert_eq!(ast.child_at(doc, 1).unwrap(), table);
}

#[test]
fn remove_from_parent_detaches_and_is_noop_without_parent() {
    let mut sink = HtmlParser::new();
    let doc = sink.get_document();
    let d = sink.create_element(Tag::named("div")).unwrap();
    sink.remove_from_parent(d).unwrap();  // no parent: no-op, not an error
    sink.append(doc, node(d)).unwrap();
    sink.remove_from_parent(d).unwrap();
    let ast = sink.finish().unwrap();
    assert_eq!(ast.child_count(doc).unwrap(), 0);
    assert_eq!(ast.parent(d).unwrap(), None);
}

#[test]
fn reparent_children_moves_all_in_order() {
    let mut sink = HtmlParser::new();
    let doc = sink.get_document();
    let old = sink.create_element(Tag::named("div")).unwrap();
    let new = sink.create_element(Tag::named("section")).unwrap();
    sink.append(doc, node(old)).unwrap();
    sink.append(doc, node(new)).unwrap();
    let a = sink.create_element(Tag::named("a")).unwrap();
    let b = sink.create_element(Tag::named("b")).unwrap();
    sink.append(old, node(a)).unwrap();
    sink.append(old, node(b)).unwrap();
    let c = sink.create_element(Tag::named("c")).unwrap();
    sink.append(new, node(c)).unwrap();
    sink.reparent_children(old, new).unwrap();
    let ast = sink.finish().unwrap();
    assert_eq!(ast.child_count(old).unwrap(), 0);
    assert_eq!(ast.child_count(new).unwrap(), 3);
    assert_eq!(ast.child_at(new, 0).unwrap(), c);
    assert_eq!(ast.child_at(new, 1).unwrap(), a);
    assert_eq!(ast.child_at(new, 2).unwrap(), b);
    assert_eq!(ast.parent(a).unwrap(), Some(new));
    assert_eq!(ast.parent(b).unwrap(), Some(new));
}

#[test]
fn reparent_children_merges_boundary_text() {
    let mut sink = HtmlParser::new();
    let doc = sink.get_document();
    let old = sink.create_element(Tag::named("div")).unwrap();
    let new = sink.create_element(Tag::named("section")).unwrap();
    sink.append(doc, node(old)).unwrap();
    sink.append(doc, node(new)).unwrap();
    sink.append(new, text("left")).unwrap();
    sink.append(old, text("right")).unwrap();
    let tail = sink.create_element(Tag::named("em")).unwrap();
    sink.append(old, node(tail)).unwrap();
    sink.reparent_children(old, new).unwrap();
    let ast = sink.finish().unwrap();
    // "right" merged into "left"; only `tail` moved as a separate child
    assert_eq!(ast.child_count(new).unwrap(), 2);
    let t = ast.child_at(new, 0).unwrap();
    assert_eq!(ast.text(t).unwrap(), "leftright");
    assert_eq!(ast.child_at(new, 1).unwrap(), tail);
    assert_eq!(ast.child_count(old).unwrap(), 0);
}

#[test]
fn reparent_children_refuses_cycle() {
    let mut sink = HtmlParser::new();
    let p = sink.create_element(Tag::named("div")).unwrap();
    let child = sink.create_element(Tag::named("span")).unwrap();
    sink.append(p, node(child)).unwrap();
    assert_eq!(sink.reparent_children(p, child), Err(SinkError::InvalidHandle));
}

#[test]
fn append_under_a_leaf_node_is_refused() {
    let mut sink = HtmlParser::new();
    let c = sink.create_comment("note".to_string()).unwrap();
    let r = sink.append(c, text("more"));
    assert_eq!(r, Err(SinkError::InvalidHandle));
}

#[test]
fn append_node_to_itself_is_refused() {
    let mut sink = HtmlParser::new();
    let d = sink.create_element(Tag::named("div")).unwrap();
    assert_eq!(sink.append(d, node(d)), Err(SinkError::InvalidHandle));
}

#[test]
fn create_element_collapses_duplicate_attrs_first_wins() {
    let mut sink = HtmlParser::new();
    let tag = Tag {
        name: QualName { ns: String::new(), local: "div".to_string() },
        attributes: vec![attr("", "class", "first"), attr("", "class", "second")],
    };
    let e = sink.create_element(tag).unwrap();
    let ast = sink.finish().unwrap();
    let name = QualName { ns: String::new(), local: "class".to_string() };
    assert_eq!(ast.attr_value(e, &name).unwrap(), Some("first".to_string()));
}

#[test]
fn add_attrs_if_missing_never_overwrites() {
    let mut sink = HtmlParser::new();
    let e = sink.create_element(Tag::named("div")).unwrap();
    sink.add_attrs_if_missing(e, vec![attr("", "class", "a")]).unwrap();
    sink.add_attrs_if_missing(e, vec![attr("", "class", "b"), attr("", "id", "x")]).unwrap();
    let ast = sink.finish().unwrap();
    let class = QualName { ns: String::new(), local: "class".to_string() };
    let id = QualName { ns: String::new(), local: "id".to_string() };
    let other = QualName { ns: String::new(), local: "missing".to_string() };
    assert_eq!(ast.attr_value(e, &class).unwrap(), Some("a".to_string()));
    assert_eq!(ast.attr_value(e, &id).unwrap(), Some("x".to_string()));
    assert_eq!(ast.attr_value(e, &other).unwrap(), None);
}

#[test]
fn template_contents_is_idempotent() {
    let mut sink = HtmlParser::new();
    let t = sink.create_element(Tag::named("template")).unwrap();
    let f1 = sink.get_or_create_template_contents(t).unwrap();
    let f2 = sink.get_or_create_template_contents(t).unwrap();
    assert_eq!(f1, f2);
    assert!(sink.same_node(f1, f2));
    // the fragment is its own parentless root and survives reparenting
    let doc = sink.get_document();
    sink.append(doc, node(t)).unwrap();
    let f3 = sink.get_or_create_template_contents(t).unwrap();
    assert_eq!(f1, f3);
    let ast = sink.finish().unwrap();
    assert_eq!(ast.parent(f1).unwrap(), None);
    assert_eq!(ast.kind(f1).unwrap(), NodeKind::Document);
    assert_eq!(ast.template_contents(t).unwrap(), Some(f1));
}

#[test]
fn template_contents_on_non_template_fails() {
    let mut sink = HtmlParser::new();
    let d = sink.create_element(Tag::named("div")).unwrap();
    assert_eq!(sink.get_or_create_template_contents(d), Err(SinkError::NotATemplate));
}

#[test]
fn end_to_end_small_document() {
    let mut sink = HtmlParser::new();
    let doc = sink.get_document();
    let html = sink.create_element(Tag::named("html")).unwrap();
    sink.append(doc, node(html)).unwrap();
    let body = sink.create_element(Tag::named("body")).unwrap();
    sink.append(html, node(body)).unwrap();
    sink.append(body, text("hello")).unwrap();
    sink.append(body, text(" world")).unwrap();
    let ast = sink.finish().unwrap();
    assert_eq!(ast.kind(ast.doc()).unwrap(), NodeKind::Document);
    assert_eq!(ast.child_count(doc).unwrap(), 1);
    assert_eq!(ast.child_at(doc, 0).unwrap(), html);
    assert_eq!(ast.child_count(html).unwrap(), 1);
    assert_eq!(ast.child_at(html, 0).unwrap(), body);
    assert_eq!(ast.child_count(body).unwrap(), 1);
    let t = ast.child_at(body, 0).unwrap();
    assert_eq!(ast.kind(t).unwrap(), NodeKind::Text);
    assert_eq!(ast.text(t).unwrap(), "hello world");
}

#[test]
fn append_moves_child_to_end_within_same_parent() {
    let mut sink = HtmlParser::new();
    let doc = sink.get_document();
    let p = sink.create_element(Tag::named("p")).unwrap();
    sink.append(doc, node(p)).unwrap();
    let a = sink.create_element(Tag::named("a")).unwrap();
    let b = sink.create_element(Tag::named("b")).unwrap();
    sink.append(p, node(a)).unwrap();
    sink.append(p, node(b)).unwrap();
    // a already sits under p: it is detached first, then appended at the end
    sink.append(p, node(a)).unwrap();
    let ast = sink.finish().unwrap();
    assert_eq!(ast.child_count(p).unwrap(), 2);
    assert_eq!(ast.child_at(p, 0).unwrap(), b);
    assert_eq!(ast.child_at(p, 1).unwrap(), a);
}

#[test]
fn append_before_sibling_detaches_a_parented_node() {
    let mut sink = HtmlParser::new();
    let doc = sink.get_document();
    let p1 = sink.create_element(Tag::named("div")).unwrap();
    let p2 = sink.create_element(Tag::named("div")).unwrap();
    sink.append(doc, node(p1)).unwrap();
    sink.append(doc, node(p2)).unwrap();
    let x = sink.create_element(Tag::named("span")).unwrap();
    let s = sink.create_element(Tag::named("em")).unwrap();
    sink.append(p1, node(x)).unwrap();
    sink.append(p2, node(s)).unwrap();
    sink.append_before_sibling(s, node(x)).unwrap();
    let ast = sink.finish().unwrap();
    assert_eq!(ast.child_count(p1).unwrap(), 0);
    assert_eq!(ast.child_at(p2, 0).unwrap(), x);
    assert_eq!(ast.child_at(p2, 1).unwrap(), s);
    assert_eq!(ast.parent(x).unwrap(), Some(p2));
}

#[test]
fn finished_tree_queries_reject_out_of_range() {
    let mut sink = HtmlParser::new();
    let doc = sink.get_document();
    let ast = sink.finish().unwrap();
    assert_eq!(ast.child_count(doc).unwrap(), 0);
    assert_eq!(ast.child_at(doc, 0), Err(SinkError::InvalidHandle));
    assert_eq!(ast.text(doc), Err(SinkError::InvalidHandle));
    assert_eq!(ast.elem_name(doc).unwrap_err(), SinkError::InvalidHandle);
}

#[test]
fn document_root_never_gains_a_parent() {
    let mut sink = HtmlParser::new();
    let doc = sink.get_document();
    let p = sink.create_element(Tag::named("div")).unwrap();
    assert_eq!(sink.append(p, node(doc)), Err(SinkError::InvalidHandle));
    let s = sink.create_element(Tag::named("span")).unwrap();
    sink.append(p, node(s)).unwrap();
    assert_eq!(sink.append_before_sibling(s, node(doc)), Err(SinkError::InvalidHandle));
    let ast = sink.finish().unwrap();
    assert_eq!(ast.parent(doc).unwrap(), None);
}
