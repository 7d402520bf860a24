use tsugiki::{Attribute, ExpandedName, NodeData, QualName, QuirksMode, Tree};

const HTML: &str = "http://www.w3.org/1999/xhtml";

fn element(tree: &mut Tree, local: &str) -> usize {
    tree.new_element(QualName::new(HTML, local), vec![])
}

/// The markup of `node` and its descendants: elements with their attributes in order, text,
/// comments and doctypes (enough to read the shape of a small tree).
fn markup(tree: &Tree, node: usize) -> String {
    let mut out = String::new();
    match tree.data(node) {
        NodeData::Element(e) => {
            out.push('<');
            out.push_str(&e.name.local);
            for (k, a) in e.attributes.map().iter() {
                out.push_str(&format!(" {}=\"{}\"", k.local, a.value));
            }
            out.push('>');
            for c in tree.children(node) {
                out.push_str(&markup(tree, c));
            }
            out.push_str(&format!("</{}>", e.name.local));
        }
        NodeData::Text(t) => out.push_str(t),
        NodeData::Comment(t) => out.push_str(&format!("<!--{}-->", t)),
        NodeData::Doctype(d) => out.push_str(&format!("<!DOCTYPE {}>", d.name)),
        _ => {
            for c in tree.children(node) {
                out.push_str(&markup(tree, c));
            }
        }
    }
    out
}

/// A document holding `<div><p></p></div>`; returns the tree, the div and the p.
fn div_with_p() -> (Tree, usize, usize) {
    let mut tree = Tree::new_document();
    let div = element(&mut tree, "div");
    let p = element(&mut tree, "p");
    let doc = tree.document();
    tree.append(doc, div);
    tree.append(div, p);
    (tree, div, p)
}

#[test]
fn test_default_document_quirks() {
    let tree = Tree::new_document();
    let doc = tree.document();
    assert_eq!(markup(&tree, doc), "");
    assert_eq!(doc, 0);
    assert_eq!(tree.quirks_mode(), QuirksMode::NoQuirks);
    assert!(tree.children(doc).is_empty());
    assert_eq!(tree.parent(doc), None);
    assert!(matches!(tree.data(doc), NodeData::Document(QuirksMode::NoQuirks)));
}

#[test]
fn test_append() {
    let mut tree = Tree::new_document();
    let div = element(&mut tree, "div");
    let doc = tree.document();
    tree.append(doc, div);
    assert_eq!(markup(&tree, div), "<div></div>");
    let span = element(&mut tree, "span");
    tree.append(div, span);
    assert_eq!(tree.first_child(div), Some(span));
    assert_eq!(tree.last_child(div), Some(span));
    assert_eq!(tree.parent(span), Some(div));
    assert_eq!(markup(&tree, div), "<div><span></span></div>");
}

#[test]
fn test_prepend() {
    let (mut tree, div, p) = div_with_p();
    let span = element(&mut tree, "span");
    tree.prepend(div, span);
    assert_eq!(tree.first_child(div), Some(span));
    assert_eq!(tree.next_sibling(span), Some(p));
    assert_eq!(tree.previous_sibling(p), Some(span));
    assert_eq!(tree.children(div), vec![span, p]);
    assert_eq!(markup(&tree, div), "<div><span></span><p></p></div>");
}

#[test]
fn test_insert_after() {
    let (mut tree, div, p) = div_with_p();
    let span = element(&mut tree, "span");
    tree.insert_after(p, span);
    assert_eq!(tree.next_sibling(p), Some(span));
    assert_eq!(tree.previous_sibling(span), Some(p));
    assert_eq!(tree.last_child(div), Some(span));
    assert_eq!(tree.children(div), vec![p, span]);
    assert_eq!(markup(&tree, div), "<div><p></p><span></span></div>");
}

#[test]
fn test_insert_before() {
    let (mut tree, div, p) = div_with_p();
    let span = element(&mut tree, "span");
    tree.insert_before(p, span);
    assert_eq!(tree.previous_sibling(p), Some(span));
    assert_eq!(tree.next_sibling(span), Some(p));
    assert_eq!(tree.first_child(div), Some(span));
    assert_eq!(tree.children(div), vec![span, p]);
    assert_eq!(markup(&tree, div), "<div><span></span><p></p></div>");
}

#[test]
fn insert_before_parentless_node_only_detaches() {
    let (mut tree, div, p) = div_with_p();
    let lone = element(&mut tree, "span");
    tree.insert_before(lone, p);
    assert_eq!(tree.parent(p), None);
    assert!(tree.children(div).is_empty());
}

#[test]
fn test_detach() {
    let (mut tree, div, p) = div_with_p();
    tree.detach(p);
    assert!(tree.parent(p).is_none());
    assert!(tree.first_child(div).is_none());
    assert!(!markup(&tree, tree.document()).contains("<p>"));
    assert_eq!(markup(&tree, div), "<div></div>");
}

#[test]
fn append_moves_node_from_old_parent() {
    let (mut tree, div, p) = div_with_p();
    let section = element(&mut tree, "section");
    tree.append(section, p);
    assert!(tree.children(div).is_empty());
    assert_eq!(tree.children(section), vec![p]);
    assert_eq!(tree.parent(p), Some(section));
}

#[test]
fn test_element_data() {
    let mut tree = Tree::new_document();
    let name = QualName::new(HTML, "div");
    let div = tree.new_element(
        name.clone(),
        vec![(
            ExpandedName::new("", "class"),
            Attribute {
                prefix: None,
                value: "test".to_string(),
            },
        )],
    );
    match tree.data(div) {
        NodeData::Element(e) => {
            assert_eq!(e.name, name);
            assert_eq!(e.attributes.get("class"), Some("test"));
            assert_eq!(e.template_contents, None);
        }
        _ => panic!("not an element"),
    }
    tree.attributes_mut(div)
        .unwrap()
        .insert("id", "main".to_string());
    match tree.data(div) {
        NodeData::Element(e) => {
            assert_eq!(e.attributes.get("id"), Some("main"));
            assert_eq!(e.attributes.get("class"), Some("test"));
        }
        _ => panic!("not an element"),
    }
    assert_eq!(markup(&tree, div), "<div class=\"test\" id=\"main\"></div>");
}

#[test]
fn template_element_gets_template_contents() {
    let mut tree = Tree::new_document();
    let template = element(&mut tree, "template");
    match tree.data(template) {
        NodeData::Element(e) => {
            let contents = e.template_contents.expect("template contents");
            assert!(matches!(tree.data(contents), NodeData::DocumentFragment));
        }
        _ => panic!("not an element"),
    }
    let svg_template = tree.new_element(QualName::new("http://www.w3.org/2000/svg", "template"), vec![]);
    match tree.data(svg_template) {
        NodeData::Element(e) => assert_eq!(e.template_contents, None),
        _ => panic!("not an element"),
    }
}

#[test]
fn test_text_data() {
    let mut tree = Tree::new_document();
    let text = tree.new_text("hello".to_string());
    assert!(matches!(tree.data(text), NodeData::Text(t) if t == "hello"));
    assert_eq!(markup(&tree, text), "hello");
    *tree.text_mut(text).unwrap() = "world".to_string();
    assert!(matches!(tree.data(text), NodeData::Text(t) if t == "world"));
    assert_eq!(markup(&tree, text), "world");
    let doc = tree.document();
    assert!(tree.text_mut(doc).is_none());
}

#[test]
fn test_doctype_data() {
    let mut tree = Tree::new_document();
    let doctype = tree.new_doctype("html".to_string(), "public".to_string(), "system".to_string());
    match tree.data(doctype) {
        NodeData::Doctype(d) => {
            assert_eq!(d.name, "html");
            assert_eq!(d.public_id, "public");
            assert_eq!(d.system_id, "system");
        }
        _ => panic!("not a doctype"),
    }
    assert_eq!(markup(&tree, doctype), "<!DOCTYPE html>");
    {
        let d = tree.doctype_mut(doctype).unwrap();
        d.name = "HTML".to_string();
        d.public_id = "-//W3C//DTD HTML 4.01//EN".to_string();
        d.system_id = "http://www.w3.org/TR/html4/strict.dtd".to_string();
    }
    match tree.data(doctype) {
        NodeData::Doctype(d) => {
            assert_eq!(d.name, "HTML");
            assert_eq!(d.public_id, "-//W3C//DTD HTML 4.01//EN");
            assert_eq!(d.system_id, "http://www.w3.org/TR/html4/strict.dtd");
        }
        _ => panic!("not a doctype"),
    }
}

#[test]
fn quirks_mode_can_be_set() {
    let mut tree = Tree::new_document();
    tree.set_quirks_mode(QuirksMode::LimitedQuirks);
    assert_eq!(tree.quirks_mode(), QuirksMode::LimitedQuirks);
    tree.set_quirks_mode(QuirksMode::Quirks);
    assert_eq!(tree.quirks_mode(), QuirksMode::Quirks);
}

#[test]
fn comments_and_processing_instructions() {
    let mut tree = Tree::new_document();
    let c = tree.new_comment(" comment ".to_string());
    let pi = tree.new_processing_instruction("xml-stylesheet".to_string(), "href=\"a.css\"".to_string());
    assert!(matches!(tree.data(c), NodeData::Comment(t) if t == " comment "));
    assert!(matches!(tree.data(pi), NodeData::ProcessingInstruction(t, d) if t == "xml-stylesheet" && d == "href=\"a.css\""));
}

#[test]
fn detach_undoes_append() {
    let (mut tree, div, p) = div_with_p();
    let span = element(&mut tree, "span");
    tree.append(div, span);
    tree.detach(span);
    assert_eq!(tree.children(div), vec![p]);
    assert_eq!(tree.parent(span), None);
}
