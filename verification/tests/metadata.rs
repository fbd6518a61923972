// Document metadata, element queries, node creation, and the finished-sink
// error behavior.

use html_dom_sink::{
    HtmlParser, NodeKind, NodeOrText, QualName, QuirksMode, SinkError, Tag,
};
use html_dom_sink::NextParserState;

#[test]
fn doctype_is_captured_on_the_document() {
    let mut sink = HtmlParser::new();
    sink.append_doctype_to_document("html".to_string(), String::new(), String::new()).unwrap();
    let ast = sink.finish().unwrap();
    let d = ast.doctype().unwrap();
    assert_eq!(d.0, "html");
    assert_eq!(d.1, "");
    assert_eq!(d.2, "");
}

#[test]
fn doctype_absent_by_default_and_last_write_wins() {
    let mut sink = HtmlParser::new();
    sink.append_doctype_to_document("a".to_string(), "b".to_string(), "c".to_string()).unwrap();
    sink.append_doctype_to_document("html".to_string(), "pub".to_string(), "sys".to_string())
        .unwrap();
    let ast = sink.finish().unwrap();
    assert_eq!(
        ast.doctype(),
        Some(("html".to_string(), "pub".to_string(), "sys".to_string())),
    );
    let empty = HtmlParser::new().finish().unwrap();
    assert_eq!(empty.doctype(), None);
}

#[test]
fn quirks_mode_is_stored() {
    let mut sink = HtmlParser::new();
    sink.set_quirks_mode(QuirksMode::Quirks).unwrap();
    let ast = sink.finish().unwrap();
    assert_eq!(ast.quirks_mode(), QuirksMode::Quirks);
    let fresh = HtmlParser::new().finish().unwrap();
    assert_eq!(fresh.quirks_mode(), QuirksMode::NoQuirks);
}

#[test]
fn finished_sink_refuses_every_mutation() {
    let mut sink = HtmlParser::new();
    let doc = sink.get_document();
    sink.finish().map(|_| ()).unwrap();
    assert!(matches!(sink.finish(), Err(SinkError::SinkFinished)));
    assert_eq!(
        sink.create_element(Tag::named("div")).unwrap_err(),
        SinkError::SinkFinished,
    );
    assert_eq!(
        sink.append(doc, NodeOrText::AppendText("x".to_string())).unwrap_err(),
        SinkError::SinkFinished,
    );
    assert_eq!(sink.set_quirks_mode(QuirksMode::Quirks).unwrap_err(), SinkError::SinkFinished);
    assert_eq!(
        sink.append_doctype_to_document(String::new(), String::new(), String::new())
            .unwrap_err(),
        SinkError::SinkFinished,
    );
    assert_eq!(sink.remove_from_parent(doc).unwrap_err(), SinkError::SinkFinished);
    assert_eq!(sink.elem_name(doc).unwrap_err(), SinkError::SinkFinished);
}

#[test]
fn elem_name_reports_namespace_and_local_name() {
    let mut sink = HtmlParser::new();
    let doc = sink.get_document();
    let e = sink.create_element(Tag::named("article")).unwrap();
    let q = sink.elem_name(e).unwrap();
    assert_eq!(q.ns, "http://www.w3.org/1999/xhtml");
    assert_eq!(q.local, "article");
    // the document is not an element
    assert_eq!(sink.elem_name(doc).unwrap_err(), SinkError::InvalidHandle);
}

#[test]
fn mathml_annotation_xml_integration_point_rule() {
    let mut sink = HtmlParser::new();
    let doc = sink.get_document();
    let plain = sink.create_element(Tag::named("annotation-xml")).unwrap();
    let mathml = sink
        .create_element(Tag {
            name: QualName {
                ns: "http://www.w3.org/1998/Math/MathML".to_string(),
                local: "annotation-xml".to_string(),
            },
            attributes: Vec::new(),
        })
        .unwrap();
    assert!(!sink.is_mathml_annotation_xml_integration_point(plain));
    assert!(!sink.is_mathml_annotation_xml_integration_point(doc));
    assert!(sink.is_mathml_annotation_xml_integration_point(mathml));
}

#[test]
fn comments_and_processing_instructions_are_leaves() {
    let mut sink = HtmlParser::new();
    let doc = sink.get_document();
    let c = sink.create_comment(" a note ".to_string()).unwrap();
    let pi = sink.create_pi("xml-stylesheet".to_string(), "href=x".to_string()).unwrap();
    sink.append(doc, NodeOrText::AppendNode(c)).unwrap();
    sink.append(doc, NodeOrText::AppendNode(pi)).unwrap();
    let ast = sink.finish().unwrap();
    assert_eq!(ast.kind(c).unwrap(), NodeKind::Comment);
    assert_eq!(ast.text(c).unwrap(), " a note ");
    assert_eq!(ast.kind(pi).unwrap(), NodeKind::ProcessingInstruction);
    assert_eq!(ast.child_at(doc, 0).unwrap(), c);
    assert_eq!(ast.child_at(doc, 1).unwrap(), pi);
}

#[test]
fn hooks_change_nothing_and_scripts_continue() {
    let mut sink = HtmlParser::new();
    let doc = sink.get_document();
    let e = sink.create_element(Tag::named("script")).unwrap();
    sink.append(doc, NodeOrText::AppendNode(e)).unwrap();
    sink.mark_script_already_started(e);
    sink.pop(e);
    sink.set_current_line(42);
    sink.associate_with_form(e, doc, (doc, None));
    sink.parse_error("unexpected token");
    assert_eq!(sink.complete_script(e), NextParserState::Continue);
    let ast = sink.finish().unwrap();
    assert_eq!(ast.child_count(doc).unwrap(), 1);
    assert_eq!(ast.child_at(doc, 0).unwrap(), e);
}

#[test]
fn tag_named_uses_the_html_namespace() {
    let tag = Tag::named("template");
    assert_eq!(tag.name.ns, "http://www.w3.org/1999/xhtml");
    assert_eq!(tag.name.local, "template");
    assert!(tag.attributes.is_empty());
    let d = Tag::default();
    assert_eq!(d.name.ns, "");
    assert_eq!(d.name.local, "");
    assert!(d.attributes.is_empty());
}
