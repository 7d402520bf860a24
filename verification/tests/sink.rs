use tsugiki::{NodeData, NodeOrText, ParsedAttribute, QualName, QuirksMode, Sink};

const HTML: &str = "http://www.w3.org/1999/xhtml";

fn text_of(sink: &Sink, node: usize) -> String {
    match sink.tree().data(node) {
        NodeData::Text(t) => t.clone(),
        _ => panic!("not a text node"),
    }
}

fn attr(local: &str, value: &str) -> ParsedAttribute {
    ParsedAttribute {
        name: QualName::new("", local),
        value: value.to_string(),
    }
}

#[test]
fn appended_text_is_merged() {
    let mut sink = Sink::new();
    let doc = sink.get_document();
    let p = sink.create_element(QualName::new(HTML, "p"), vec![]);
    sink.append(doc, NodeOrText::AppendNode(p));
    sink.append(p, NodeOrText::AppendText("1".to_string()));
    sink.append(p, NodeOrText::AppendText("2".to_string()));
    let kids = sink.tree().children(p);
    assert_eq!(kids.len(), 1);
    assert_eq!(text_of(&sink, kids[0]), "12");
}

#[test]
fn appended_text_after_element_is_a_new_node() {
    let mut sink = Sink::new();
    let div = sink.create_element(QualName::new(HTML, "div"), vec![]);
    let b = sink.create_element(QualName::new(HTML, "b"), vec![]);
    sink.append(div, NodeOrText::AppendText("a".to_string()));
    sink.append(div, NodeOrText::AppendNode(b));
    sink.append(div, NodeOrText::AppendText("c".to_string()));
    let kids = sink.tree().children(div);
    assert_eq!(kids.len(), 3);
    assert_eq!(text_of(&sink, kids[0]), "a");
    assert_eq!(kids[1], b);
    assert_eq!(text_of(&sink, kids[2]), "c");
}

#[test]
fn text_before_sibling_is_merged_with_previous_text() {
    let mut sink = Sink::new();
    let div = sink.create_element(QualName::new(HTML, "div"), vec![]);
    let table = sink.create_element(QualName::new(HTML, "table"), vec![]);
    sink.append(div, NodeOrText::AppendText("2".to_string()));
    sink.append(div, NodeOrText::AppendNode(table));
    sink.append_before_sibling(table, NodeOrText::AppendText("3".to_string()));
    let kids = sink.tree().children(div);
    assert_eq!(kids.len(), 2);
    assert_eq!(text_of(&sink, kids[0]), "23");
    assert_eq!(kids[1], table);
}

#[test]
fn text_before_first_sibling_is_a_new_node() {
    let mut sink = Sink::new();
    let div = sink.create_element(QualName::new(HTML, "div"), vec![]);
    let table = sink.create_element(QualName::new(HTML, "table"), vec![]);
    sink.append(div, NodeOrText::AppendNode(table));
    sink.append_before_sibling(table, NodeOrText::AppendText("x".to_string()));
    let kids = sink.tree().children(div);
    assert_eq!(kids.len(), 2);
    assert_eq!(text_of(&sink, kids[0]), "x");
    assert_eq!(sink.tree().previous_sibling(table), Some(kids[0]));
}

#[test]
fn node_before_sibling() {
    let mut sink = Sink::new();
    let div = sink.create_element(QualName::new(HTML, "div"), vec![]);
    let p = sink.create_element(QualName::new(HTML, "p"), vec![]);
    let span = sink.create_element(QualName::new(HTML, "span"), vec![]);
    sink.append(div, NodeOrText::AppendNode(p));
    sink.append_before_sibling(p, NodeOrText::AppendNode(span));
    assert_eq!(sink.tree().children(div), vec![span, p]);
}

#[test]
fn add_attrs_if_missing_keeps_present_values() {
    let mut sink = Sink::new();
    let body = sink.create_element(QualName::new(HTML, "body"), vec![attr("class", "a")]);
    sink.add_attrs_if_missing(body, vec![attr("class", "b"), attr("id", "c")]);
    match sink.tree().data(body) {
        NodeData::Element(e) => {
            assert_eq!(e.attributes.get("class"), Some("a"));
            assert_eq!(e.attributes.get("id"), Some("c"));
        }
        _ => panic!("not an element"),
    }
}

#[test]
fn create_element_keeps_attribute_prefixes() {
    let mut sink = Sink::new();
    let a = sink.create_element(
        QualName::new(HTML, "a"),
        vec![
            ParsedAttribute {
                name: QualName::new_prefixed("xlink", "http://www.w3.org/1999/xlink", "href"),
                value: "#x".to_string(),
            },
            attr("href", "1"),
        ],
    );
    match sink.tree().data(a) {
        NodeData::Element(e) => {
            assert_eq!(e.attributes.get("href"), Some("1"));
            assert!(e.attributes.contains_name(&tsugiki::ExpandedName::new("http://www.w3.org/1999/xlink", "href")));
        }
        _ => panic!("not an element"),
    }
    assert_eq!(sink.elem_name(a), tsugiki::ExpandedName::new(HTML, "a"));
}

#[test]
fn reparent_children_moves_all_in_order() {
    let mut sink = Sink::new();
    let from = sink.create_element(QualName::new(HTML, "div"), vec![]);
    let to = sink.create_element(QualName::new(HTML, "section"), vec![]);
    let a = sink.create_element(QualName::new(HTML, "a"), vec![]);
    let b = sink.create_element(QualName::new(HTML, "b"), vec![]);
    let c = sink.create_element(QualName::new(HTML, "i"), vec![]);
    let x = sink.create_element(QualName::new(HTML, "hr"), vec![]);
    sink.append(from, NodeOrText::AppendNode(a));
    sink.append(from, NodeOrText::AppendNode(b));
    sink.append(from, NodeOrText::AppendNode(c));
    sink.append(to, NodeOrText::AppendNode(x));
    sink.reparent_children(from, to);
    assert!(sink.tree().children(from).is_empty());
    assert_eq!(sink.tree().children(to), vec![x, a, b, c]);
    assert_eq!(sink.tree().parent(b), Some(to));
}

#[test]
fn append_based_on_parent_node_picks_place() {
    let mut sink = Sink::new();
    let div = sink.create_element(QualName::new(HTML, "div"), vec![]);
    let table = sink.create_element(QualName::new(HTML, "table"), vec![]);
    let prev = sink.create_element(QualName::new(HTML, "p"), vec![]);
    let s1 = sink.create_element(QualName::new(HTML, "span"), vec![]);
    let s2 = sink.create_element(QualName::new(HTML, "span"), vec![]);
    // `table` has no parent: the node goes to `prev`.
    sink.append_based_on_parent_node(table, prev, NodeOrText::AppendNode(s1));
    assert_eq!(sink.tree().children(prev), vec![s1]);
    // `table` has a parent: the node goes before it.
    sink.append(div, NodeOrText::AppendNode(table));
    sink.append_based_on_parent_node(table, prev, NodeOrText::AppendNode(s2));
    assert_eq!(sink.tree().children(div), vec![s2, table]);
}

#[test]
fn template_contents_and_doctype() {
    let mut sink = Sink::new();
    let template = sink.create_element(QualName::new(HTML, "template"), vec![]);
    let contents = sink.get_template_contents(template);
    assert!(matches!(sink.tree().data(contents), NodeData::DocumentFragment));
    sink.append_doctype_to_document("html".to_string(), "".to_string(), "".to_string());
    let doc = sink.get_document();
    let kids = sink.tree().children(doc);
    assert_eq!(kids.len(), 1);
    assert!(matches!(sink.tree().data(kids[0]), NodeData::Doctype(d) if d.name == "html"));
}

#[test]
fn quirks_comment_pi_and_removal() {
    let mut sink = Sink::new();
    sink.set_quirks_mode(QuirksMode::Quirks);
    let doc = sink.get_document();
    let c = sink.create_comment("c".to_string());
    let pi = sink.create_pi("t".to_string(), "d".to_string());
    sink.append(doc, NodeOrText::AppendNode(c));
    sink.append(doc, NodeOrText::AppendNode(pi));
    assert!(sink.same_node(c, c));
    assert!(!sink.same_node(c, pi));
    sink.remove_from_parent(c);
    let tree = sink.finish();
    assert_eq!(tree.quirks_mode(), QuirksMode::Quirks);
    assert_eq!(tree.children(doc), vec![pi]);
    assert_eq!(tree.parent(c), None);
}
