//! The decisions of the HTML tree builder's sink: how each request of the tree builder changes
//! the document tree.
use crate::attributes::{Attribute, AttributeView, Entries, pairs_view, has_key, keys_distinct, lookup, lemma_insert_lookup, entries_after_insert, opt_view, lemma_inserts_keep_order, lemma_inserts_last_value_wins};
use crate::names::{ExpandedName, QualName, NameView, QualNameView};
use crate::tree::{is_html_template, element_view, NodeData, NodeId, NodeView, QuirksMode, Tree, TreeModel, lemma_with_node_wf, lemma_pushed_wf, lemma_moves_wf, lemma_append_links, lemma_siblings_are_neighbours, lemma_append_children};
use vstd::prelude::*;
use vstd::string::StringExecFns;

verus! {

/// A node, or text to be added as a text node or merged into an adjacent one.
pub enum NodeOrText {
    /// A node already in the tree.
    AppendNode(NodeId),
    /// Text.
    AppendText(String),
}

/// An attribute as the tokenizer reports it: a qualified name and a value.
#[derive(Debug, Clone)]
pub struct ParsedAttribute {
    /// The qualified name of the attribute.
    pub name: QualName,
    /// The value of the attribute.
    pub value: String,
}

/// The expanded name and the attribute that an element stores for a parsed attribute.
pub open spec fn stored_pair(a: ParsedAttribute) -> (ExpandedName, Attribute) {
    (
        ExpandedName { ns: a.name.ns, local: a.name.local },
        Attribute { prefix: a.name.prefix, value: a.value },
    )
}

/// The pairs that an element stores for a list of parsed attributes.
pub open spec fn stored_pairs(attrs: Seq<ParsedAttribute>) -> Seq<(ExpandedName, Attribute)> {
    attrs.map_values(|a: ParsedAttribute| stored_pair(a))
}

/// The tree with text appended to `parent`: merged into its last child where that is a text
/// node, else added as a new text node, its last child.
pub open spec fn appended_text(m: TreeModel, parent: NodeId, text: Seq<char>) -> TreeModel {
    match m.last_child(parent) {
        Some(lc) => if m.nodes[lc as int] is Text {
            m.with_node(lc, NodeView::Text(m.nodes[lc as int]->Text_0 + text))
        } else {
            m.pushed(NodeView::Text(text)).appended(parent, m.len() as NodeId)
        },
        None => m.pushed(NodeView::Text(text)).appended(parent, m.len() as NodeId),
    }
}

/// The tree with text inserted just before `sibling`: merged into its previous sibling where
/// that is a text node, else added as a new text node just before it.
pub open spec fn inserted_text_before(m: TreeModel, sibling: NodeId, text: Seq<char>) -> TreeModel {
    match m.previous_sibling(sibling) {
        Some(ps) => if m.nodes[ps as int] is Text {
            m.with_node(ps, NodeView::Text(m.nodes[ps as int]->Text_0 + text))
        } else {
            m.pushed(NodeView::Text(text)).inserted_before(sibling, m.len() as NodeId)
        },
        None => m.pushed(NodeView::Text(text)).inserted_before(sibling, m.len() as NodeId),
    }
}

/// The entries after adding each of `pairs` in turn, where no attribute of that name is
/// present yet.
pub open spec fn entries_after_adds_if_missing(entries: Entries, pairs: Seq<(NameView, (Option<Seq<char>>, Seq<char>))>) -> Entries
    decreases pairs.len(),
{
    if pairs.len() == 0 {
        entries
    } else {
        let before = entries_after_adds_if_missing(entries, pairs.drop_last());
        if has_key(before, pairs.last().0) {
            before
        } else {
            entries_after_insert(before, pairs.last().0, pairs.last().1)
        }
    }
}

/// The views of the pairs that an element stores for a list of parsed attributes.
pub open spec fn stored_views(attrs: Seq<ParsedAttribute>) -> Seq<(NameView, (Option<Seq<char>>, Seq<char>))> {
    attrs.map_values(|a: ParsedAttribute| (stored_pair(a).0@, stored_pair(a).1@))
}

/// The tree with each node of `kids`, in turn, moved to be the last child of `p`.
pub open spec fn appended_all(m: TreeModel, p: NodeId, kids: Seq<NodeId>) -> TreeModel
    decreases kids.len(),
{
    if kids.len() == 0 {
        m
    } else {
        appended_all(m, p, kids.drop_last()).appended(p, kids.last())
    }
}

/// The tree after appending `child` to `parent`.
pub open spec fn appended_child(m: TreeModel, parent: NodeId, child: NodeOrText) -> TreeModel {
    match child {
        NodeOrText::AppendNode(n) => m.appended(parent, n),
        NodeOrText::AppendText(t) => appended_text(m, parent, t@),
    }
}

/// The tree after inserting `child` just before `sibling`.
pub open spec fn inserted_child_before(m: TreeModel, sibling: NodeId, child: NodeOrText) -> TreeModel {
    match child {
        NodeOrText::AppendNode(n) => m.inserted_before(sibling, n),
        NodeOrText::AppendText(t) => inserted_text_before(m, sibling, t@),
    }
}

/// `child` is text, or a node of the tree.
pub open spec fn child_ok(m: TreeModel, child: NodeOrText) -> bool {
    child matches NodeOrText::AppendNode(n) ==> m.has(n)
}

/// The pairs an element stores for `attrs`, in order.
fn store_attributes(attrs: Vec<ParsedAttribute>) -> (pairs: Vec<(ExpandedName, Attribute)>)
    ensures
        pairs@ == stored_pairs(attrs@),
{
    let ghost all = attrs@;
    let mut pairs: Vec<(ExpandedName, Attribute)> = Vec::new();
    let mut rest = attrs;
    let ghost done: int = 0;
    while rest.len() > 0
        invariant
            0 <= done <= all.len(),
            rest@ == all.skip(done),
            pairs@ == stored_pairs(all.take(done)),
        decreases rest.len(),
    {
        let ghost before = rest@;
        let a = rest.remove(0);
        proof {
            assert(before[0] == a);
            assert(all[done] == a);
            assert(rest@ =~= all.skip(done + 1));
        }
        let ParsedAttribute { name, value } = a;
        let QualName { prefix, ns, local } = name;
        pairs.push((ExpandedName { ns, local }, Attribute { prefix, value }));
        proof {
            assert(pairs@ =~= stored_pairs(all.take(done + 1)));
            done = done + 1;
        }
    }
    proof {
        assert(all.take(done) =~= all);
    }
    pairs
}

/// Receives new tree nodes during parsing, building the document tree.
#[derive(Debug)]
pub struct Sink {
    document: Tree,
}

impl View for Sink {
    type V = TreeModel;

    closed spec fn view(&self) -> TreeModel {
        self.document@
    }
}

impl Sink {
    /// A sink whose tree holds only a document node.
    pub fn new() -> (sink: Sink)
        ensures
            sink@.len() == 1,
            sink@.nodes[0] == NodeView::Document(QuirksMode::NoQuirks),
            sink@.parents[0] is None,
            sink@.children[0] == Seq::<NodeId>::empty(),
    {
        Sink { document: Tree::new_document() }
    }

    /// The tree built.
    pub fn finish(self) -> (tree: Tree)
        ensures
            tree@ == self@,
    {
        self.document
    }

    /// The tree built so far.
    pub fn tree(&self) -> (tree: &Tree)
        ensures
            tree@ == self@,
    {
        &self.document
    }

    /// The document node.
    pub fn get_document(&self) -> (n: NodeId)
        ensures
            n == 0,
    {
        self.document.document()
    }

    /// Sets the document's quirks mode.
    pub fn set_quirks_mode(&mut self, mode: QuirksMode)
        ensures
            final(self)@ =~= old(self)@.with_node(0, NodeView::Document(mode)),
    {
        proof {
            use_type_invariant(&self.document);
        }
        self.document.set_quirks_mode(mode)
    }

    /// Whether two handles refer to the same node.
    pub fn same_node(&self, x: NodeId, y: NodeId) -> (r: bool)
        ensures
            r == (x == y),
    {
        x == y
    }

    /// The expanded name of the element `target`.
    pub fn elem_name(&self, target: NodeId) -> (name: ExpandedName)
        requires
            self@.has(target),
            self@.nodes[target as int] is Element,
        ensures
            name@ == (self@.nodes[target as int]->name.1, self@.nodes[target as int]->name.2),
    {
        proof {
            use_type_invariant(&self.document);
        }
        match self.document.data(target) {
            NodeData::Element(e) => e.name.expanded(),
            _ => {
                assert(false);
                ExpandedName::new("", "")
            },
        }
    }

    /// Creates an element named `name` with the attributes `attrs` (the namespace and local
    /// name of each becoming its key, its prefix and value the stored attribute; a later one
    /// replacing an earlier one of the same name), and returns its handle.
    pub fn create_element(&mut self, name: QualName, attrs: Vec<ParsedAttribute>) -> (n: NodeId)
        ensures
            final(self)@ == (if is_html_template(name@) {
                old(self)@.pushed(NodeView::DocumentFragment).pushed(
                    element_view(name@, stored_pairs(attrs@), Some(old(self)@.len() as NodeId)),
                )
            } else {
                old(self)@.pushed(element_view(name@, stored_pairs(attrs@), None))
            }),
            n == final(self)@.len() - 1,
    {
        proof {
            use_type_invariant(&self.document);
        }
        let pairs = store_attributes(attrs);
        self.document.new_element(name, pairs)
    }

    /// Creates a comment node holding `text`, and returns its handle.
    pub fn create_comment(&mut self, text: String) -> (n: NodeId)
        ensures
            final(self)@ == old(self)@.pushed(NodeView::Comment(text@)),
            n == old(self)@.len(),
    {
        proof {
            use_type_invariant(&self.document);
        }
        self.document.new_comment(text)
    }

    /// Creates a processing instruction node, and returns its handle.
    pub fn create_pi(&mut self, target: String, data: String) -> (n: NodeId)
        ensures
            final(self)@ == old(self)@.pushed(NodeView::ProcessingInstruction(target@, data@)),
            n == old(self)@.len(),
    {
        proof {
            use_type_invariant(&self.document);
        }
        self.document.new_processing_instruction(target, data)
    }

    /// Appends `child` to `parent`: a node is moved to be the last child; text is merged into
    /// the last child where that is a text node, else added as a new text node.
    pub fn append(&mut self, parent: NodeId, child: NodeOrText)
        requires
            old(self)@.has(parent),
            child_ok(old(self)@, child),
        ensures
            final(self)@ =~= appended_child(old(self)@, parent, child),
    {
        proof {
            use_type_invariant(&self.document);
        }
        match child {
            NodeOrText::AppendNode(node) => self.document.append(parent, node),
            NodeOrText::AppendText(text) => {
                let ghost m = self@;
                if let Some(last_child) = self.document.last_child(parent) {
                    assert(m.has(last_child)) by {
                        assert(m.children[parent as int].len() > 0);
                        let k = m.children[parent as int].len() - 1;
                        assert(m.children[parent as int][k] == last_child);
                    }
                    if let Some(existing) = self.document.text_mut(last_child) {
                        existing.append(text.as_str());
                        return;
                    }
                }
                let n = self.document.new_text(text);
                self.document.append(parent, n);
            },
        }
    }

    /// Inserts `child` just before `sibling`: a node is moved there; text is merged into the
    /// previous sibling where that is a text node, else added there as a new text node. Where
    /// `sibling` has no parent, a node is only detached and text is added as a detached node.
    pub fn append_before_sibling(&mut self, sibling: NodeId, child: NodeOrText)
        requires
            old(self)@.has(sibling),
            child_ok(old(self)@, child),
        ensures
            final(self)@ =~= inserted_child_before(old(self)@, sibling, child),
    {
        proof {
            use_type_invariant(&self.document);
        }
        match child {
            NodeOrText::AppendNode(node) => self.document.insert_before(sibling, node),
            NodeOrText::AppendText(text) => {
                let ghost m = self@;
                if let Some(previous_sibling) = self.document.previous_sibling(sibling) {
                    assert(m.has(previous_sibling)) by {
                        let p = m.parents[sibling as int]->0;
                        assert(m.children[p as int].contains(sibling));
                        let k = m.children[p as int].index_of(sibling);
                        assert(m.children[p as int][k - 1] == previous_sibling);
                    }
                    if let Some(existing) = self.document.text_mut(previous_sibling) {
                        existing.append(text.as_str());
                        return;
                    }
                }
                let n = self.document.new_text(text);
                self.document.insert_before(sibling, n);
            },
        }
    }

    /// Adds a doctype node as the last child of the document.
    pub fn append_doctype_to_document(&mut self, name: String, public_id: String, system_id: String)
        ensures
            final(self)@ == old(self)@.pushed(NodeView::Doctype(name@, public_id@, system_id@)).appended(
                0,
                old(self)@.len() as NodeId,
            ),
    {
        proof {
            use_type_invariant(&self.document);
        }
        let doctype = self.document.new_doctype(name, public_id, system_id);
        self.document.append(0, doctype);
    }

    /// Removes `target` from its parent.
    pub fn remove_from_parent(&mut self, target: NodeId)
        requires
            old(self)@.has(target),
        ensures
            final(self)@ == old(self)@.detached(target),
    {
        proof {
            use_type_invariant(&self.document);
        }
        self.document.detach(target)
    }

    /// Moves the children of `node`, in order, to the end of the children of `new_parent`.
    pub fn reparent_children(&mut self, node: NodeId, new_parent: NodeId)
        requires
            old(self)@.has(node),
            old(self)@.has(new_parent),
        ensures
            final(self)@ == appended_all(old(self)@, new_parent, old(self)@.children[node as int]),
    {
        proof {
            use_type_invariant(&self.document);
        }
        let ghost m = self@;
        let kids = self.document.children(node);
        let mut i: usize = 0;
        while i < kids.len()
            invariant
                0 <= i <= kids@.len(),
                kids@ == m.children[node as int],
                m.wf(),
                m.has(node),
                m.has(new_parent),
                self@.wf(),
                self@.len() == m.len(),
                self@ == appended_all(m, new_parent, kids@.take(i as int)),
            decreases kids@.len() - i,
        {
            assert(m.has(kids@[i as int]));
            self.document.append(new_parent, kids[i]);
            proof {
                use_type_invariant(&self.document);
                assert(kids@.take(i + 1).drop_last() =~= kids@.take(i as int));
            }
            i = i + 1;
        }
        proof {
            assert(kids@.take(i as int) =~= kids@);
        }
    }

    /// The template contents of the `<template>` element `target`.
    pub fn get_template_contents(&self, target: NodeId) -> (n: NodeId)
        requires
            self@.has(target),
            self@.nodes[target as int] matches NodeView::Element { template_contents: Some(_), .. },
        ensures
            self@.nodes[target as int]->template_contents == Some(n),
            self@.has(n),
    {
        proof {
            use_type_invariant(&self.document);
        }
        match self.document.data(target) {
            NodeData::Element(e) => match e.template_contents {
                Some(n) => n,
                None => {
                    assert(false);
                    0
                },
            },
            _ => {
                assert(false);
                0
            },
        }
    }

    /// Adds `child` just before `element` where `element` has a parent, else appends it to
    /// `prev_element`.
    pub fn append_based_on_parent_node(&mut self, element: NodeId, prev_element: NodeId, child: NodeOrText)
        requires
            old(self)@.has(element),
            old(self)@.has(prev_element),
            child_ok(old(self)@, child),
        ensures
            old(self)@.parents[element as int] is Some ==> final(self)@ =~= inserted_child_before(old(self)@, element, child),
            old(self)@.parents[element as int] is None ==> final(self)@ =~= appended_child(old(self)@, prev_element, child),
    {
        proof {
            use_type_invariant(&self.document);
        }
        if self.document.parent(element).is_some() {
            self.append_before_sibling(element, child)
        } else {
            self.append(prev_element, child)
        }
    }

    /// Adds each of `attrs` to the element `target` whose name is not present yet, leaving the
    /// present ones unchanged.
    pub fn add_attrs_if_missing(&mut self, target: NodeId, attrs: Vec<ParsedAttribute>)
        requires
            old(self)@.has(target),
            old(self)@.nodes[target as int] is Element,
        ensures
            final(self)@ =~= old(self)@.with_attributes(
                target,
                entries_after_adds_if_missing(old(self)@.nodes[target as int]->attributes, stored_views(attrs@)),
            ),
    {
        proof {
            use_type_invariant(&self.document);
        }
        let ghost m = self@;
        let ghost all = stored_views(attrs@);
        let ghost e0 = m.nodes[target as int]->attributes;
        let pairs = store_attributes(attrs);
        assert(pairs_view(pairs@) =~= all);
        let ghost mut fin: Entries = e0;
        match self.document.attributes_mut(target) {
            Some(attributes) => {
                let mut rest = pairs;
                let ghost done: int = 0;
                while rest.len() > 0
                    invariant
                        0 <= done <= all.len(),
                        pairs_view(rest@) == all.skip(done),
                        attributes.entries() == entries_after_adds_if_missing(e0, all.take(done)),
                    decreases rest.len(),
                {
                    let ghost before = rest@;
                    assert(pairs_view(before).len() == before.len());
                    assert(pairs_view(before)[0] == all[done]);
                    let (name, attr) = rest.remove(0);
                    proof {
                        assert(before[0] == (name, attr));
                        assert forall|j: int| 0 <= j < rest@.len() implies #[trigger] pairs_view(rest@)[j] == all.skip(done + 1)[j] by {
                            assert(rest@[j] == before[j + 1]);
                            assert(pairs_view(before)[j + 1] == all.skip(done)[j + 1]);
                        }
                        assert(pairs_view(rest@) =~= all.skip(done + 1));
                        assert(all.take(done + 1).drop_last() =~= all.take(done));
                        assert((name@, attr@) == all[done]);
                    }
                    if !attributes.contains_name(&name) {
                        attributes.insert_named(name, attr);
                    }
                    proof {
                        done = done + 1;
                    }
                }
                proof {
                    assert(all.take(done) =~= all);
                    fin = attributes.entries();
                }
            },
            None => {},
        }
        assert(self@ =~= m.with_attributes(target, fin));
    }
}

} // verus!

verus! {

/// The last child of `p` is a text node.
pub open spec fn ends_with_text(m: TreeModel, p: NodeId) -> bool {
    m.last_child(p) matches Some(lc) && m.nodes[lc as int] is Text
}

/// The text of the last child of `p` where that is a text node, else nothing.
pub open spec fn trailing_text(m: TreeModel, p: NodeId) -> Seq<char> {
    if ends_with_text(m, p) {
        m.nodes[m.last_child(p)->0 as int]->Text_0
    } else {
        Seq::empty()
    }
}

/// Appending text to `p` leaves a text node as its last child, holding the text that ended
/// its children before followed by the new text; a new child is added only where the children
/// did not end with a text node.
pub proof fn lemma_append_text_merges(m: TreeModel, p: NodeId, t: Seq<char>)
    requires
        m.wf(),
        m.len() < usize::MAX,
        m.has(p),
    ensures
        appended_text(m, p, t).wf(),
        appended_text(m, p, t).len() == m.len() + (if ends_with_text(m, p) { 0int } else { 1int }),
        ends_with_text(appended_text(m, p, t), p),
        trailing_text(appended_text(m, p, t), p) == trailing_text(m, p) + t,
        appended_text(m, p, t).children[p as int].len() == m.children[p as int].len() + (if ends_with_text(m, p) { 0int } else { 1int }),
{
    let r = appended_text(m, p, t);
    if ends_with_text(m, p) {
        let lc = m.last_child(p)->0;
        assert(m.has(lc)) by {
            let k = m.children[p as int].len() - 1;
            assert(m.children[p as int][k] == lc);
        }
        lemma_with_node_wf(m, lc, NodeView::Text(m.nodes[lc as int]->Text_0 + t));
    } else {
        let n = m.len() as NodeId;
        let q = m.pushed(NodeView::Text(t));
        lemma_pushed_wf(m, NodeView::Text(t));
        lemma_moves_wf(q, p, n);
        lemma_append_links(q, p, n);
        assert(q.detached(n) == q);
        assert(Seq::<char>::empty() + t =~= t);
    }
}

/// Text appended twice in a row to the same parent ends up in a single text node: the second
/// append adds no child and extends the text that the first one left.
pub proof fn lemma_consecutive_text_merged(m: TreeModel, p: NodeId, a: Seq<char>, b: Seq<char>)
    requires
        m.wf(),
        m.len() + 1 < usize::MAX,
        m.has(p),
    ensures
        appended_text(appended_text(m, p, a), p, b).wf(),
        trailing_text(appended_text(appended_text(m, p, a), p, b), p) == trailing_text(m, p) + a + b,
        appended_text(appended_text(m, p, a), p, b).children[p as int].len() == appended_text(m, p, a).children[p as int].len(),
{
    lemma_append_text_merges(m, p, a);
    lemma_append_text_merges(appended_text(m, p, a), p, b);
}

/// Adding attributes where missing keeps keys distinct, leaves every attribute that was present
/// unchanged, makes every added name present, and adds no other name.
pub proof fn lemma_adds_if_missing(entries: Entries, pairs: Seq<(NameView, (Option<Seq<char>>, Seq<char>))>)
    requires
        keys_distinct(entries),
    ensures
        keys_distinct(entries_after_adds_if_missing(entries, pairs)),
        forall|k: NameView| has_key(entries, k) ==> #[trigger] lookup(entries_after_adds_if_missing(entries, pairs), k) == lookup(entries, k),
        forall|i: int| 0 <= i < pairs.len() ==> has_key(entries_after_adds_if_missing(entries, pairs), #[trigger] pairs[i].0),
        forall|k: NameView| #[trigger] has_key(entries_after_adds_if_missing(entries, pairs), k) ==> has_key(entries, k) || exists|i: int| 0 <= i < pairs.len() && pairs[i].0 == k,
    decreases pairs.len(),
{
    if pairs.len() > 0 {
        let init = pairs.drop_last();
        let before = entries_after_adds_if_missing(entries, init);
        lemma_adds_if_missing(entries, init);
        let (k, v) = pairs.last();
        let after = entries_after_adds_if_missing(entries, pairs);
        if !has_key(before, k) {
            lemma_insert_lookup(before, k, v, k);
            assert forall|k2: NameView| k2 != k implies #[trigger] lookup(after, k2) == lookup(before, k2) by {
                lemma_insert_lookup(before, k, v, k2);
            }
        }
        assert forall|k2: NameView| has_key(entries, k2) implies #[trigger] lookup(after, k2) == lookup(entries, k2) by {
            assert(lookup(before, k2) == lookup(entries, k2));
            if k2 == k {
                assert(has_key(before, k));
            }
        }
        assert forall|k2: NameView| #[trigger] has_key(after, k2) == (lookup(after, k2) is Some) by {}
        assert forall|k2: NameView| #[trigger] has_key(before, k2) == (lookup(before, k2) is Some) by {}
        assert forall|i: int| 0 <= i < pairs.len() implies has_key(after, #[trigger] pairs[i].0) by {
            if i < pairs.len() - 1 {
                assert(init[i] == pairs[i]);
                assert(has_key(before, init[i].0));
                if pairs[i].0 != k && !has_key(before, k) {
                    assert(lookup(after, pairs[i].0) == lookup(before, pairs[i].0));
                }
            }
        }
        assert forall|k2: NameView| #[trigger] has_key(after, k2) implies has_key(entries, k2) || exists|i: int| 0 <= i < pairs.len() && pairs[i].0 == k2 by {
            if k2 == k {
                assert(pairs[pairs.len() - 1].0 == k2);
            } else {
                if !has_key(before, k) {
                    assert(lookup(after, k2) == lookup(before, k2));
                }
                assert(has_key(before, k2));
                if !has_key(entries, k2) {
                    let i = choose|i: int| 0 <= i < init.len() && init[i].0 == k2;
                    assert(pairs[i].0 == k2);
                }
            }
        }
    }
}

} // verus!

verus! {

/// After moving the first `i` children of `node` to `np`: those are the last children of `np`,
/// the rest are still the children of `node`, and nothing else has changed.
proof fn lemma_reparent_prefix(m: TreeModel, node: NodeId, np: NodeId, i: int)
    requires
        m.wf(),
        m.has(node),
        m.has(np),
        node != np,
        0 <= i <= m.children[node as int].len(),
    ensures
        ({
            let kids = m.children[node as int];
            let r = appended_all(m, np, kids.take(i));
            &&& r.wf()
            &&& r.nodes == m.nodes
            &&& r.children[np as int] == m.children[np as int] + kids.take(i)
            &&& r.children[node as int] == kids.skip(i)
            &&& forall|x: NodeId| m.has(x) && x != node && x != np ==> #[trigger] r.children[x as int] == m.children[x as int]
            &&& forall|j: int| 0 <= j < i ==> #[trigger] r.parents[kids[j] as int] == Some(np)
            &&& forall|j: int| i <= j < kids.len() ==> #[trigger] r.parents[kids[j] as int] == Some(node)
        }),
    decreases i,
{
    let kids = m.children[node as int];
    if i == 0 {
        assert(kids.take(0) =~= Seq::<NodeId>::empty());
        assert(m.children[np as int] + kids.take(0) =~= m.children[np as int]);
        assert(kids.skip(0) =~= kids);
        assert forall|j: int| 0 <= j < kids.len() implies #[trigger] m.parents[kids[j] as int] == Some(node) by {
            assert(m.children[node as int][j] == kids[j]);
        }
    } else {
        lemma_reparent_prefix(m, node, np, i - 1);
        let q = appended_all(m, np, kids.take(i - 1));
        assert(kids.take(i).drop_last() =~= kids.take(i - 1));
        let c = kids[i - 1];
        assert(kids.take(i).last() == c);
        let r = appended_all(m, np, kids.take(i));
        assert(r == q.appended(np, c));
        assert(m.has(c)) by {
            assert(m.children[node as int][i - 1] == c);
        }
        lemma_moves_wf(q, np, c);
        assert(q.parents[c as int] == Some(node));
        let d = q.detached(c);
        let skip = kids.skip(i - 1);
        assert(q.children[node as int] == skip);
        assert(skip[0] == c);
        assert(skip.no_duplicates()) by {
            assert(q.children[node as int].no_duplicates());
        }
        lemma_index_of_first(skip);
        assert(skip.remove(0) =~= kids.skip(i));
        assert(d.children[node as int] == kids.skip(i));
        assert(d.children[np as int] == q.children[np as int]);
        assert(r.children[np as int] =~= d.children[np as int].push(c)) by {
            assert(d.children[np as int].insert(d.children[np as int].len() as int, c) =~= d.children[np as int].push(c));
        }
        assert(m.children[np as int] + kids.take(i) =~= (m.children[np as int] + kids.take(i - 1)).push(c));
        assert forall|x: NodeId| m.has(x) && x != node && x != np implies #[trigger] r.children[x as int] == m.children[x as int] by {
            assert(q.children[x as int] == m.children[x as int]);
        }
        assert forall|j: int| 0 <= j < i implies #[trigger] r.parents[kids[j] as int] == Some(np) by {
            if j < i - 1 {
                assert(q.parents[kids[j] as int] == Some(np));
                assert(kids[j] != c) by {
                    assert(kids.no_duplicates()) by {
                        assert(m.children[node as int].no_duplicates());
                    }
                }
            }
        }
        assert forall|j: int| i <= j < kids.len() implies #[trigger] r.parents[kids[j] as int] == Some(node) by {
            assert(q.parents[kids[j] as int] == Some(node));
            assert(kids[j] != c) by {
                assert(kids.no_duplicates()) by {
                    assert(m.children[node as int].no_duplicates());
                }
            }
        }
    }
}

/// A sequence whose first element is `s[0]` and has no duplicates finds it at position 0.
proof fn lemma_index_of_first(s: Seq<NodeId>)
    requires
        s.len() > 0,
        s.no_duplicates(),
    ensures
        s.index_of(s[0]) == 0,
{
    assert(s.contains(s[0]));
}

/// Reparenting moves all the children of `node`, in order, to the end of the children of
/// `new_parent`, leaving `node` without children and every other node's children unchanged.
pub proof fn lemma_reparent_moves_all(m: TreeModel, node: NodeId, new_parent: NodeId)
    requires
        m.wf(),
        m.has(node),
        m.has(new_parent),
        node != new_parent,
    ensures
        appended_all(m, new_parent, m.children[node as int]).wf(),
        appended_all(m, new_parent, m.children[node as int]).nodes == m.nodes,
        appended_all(m, new_parent, m.children[node as int]).children[node as int] == Seq::<NodeId>::empty(),
        appended_all(m, new_parent, m.children[node as int]).children[new_parent as int]
            == m.children[new_parent as int] + m.children[node as int],
        forall|j: int| 0 <= j < m.children[node as int].len() ==>
            #[trigger] appended_all(m, new_parent, m.children[node as int]).parents[m.children[node as int][j] as int] == Some(new_parent),
        forall|x: NodeId| m.has(x) && x != node && x != new_parent ==>
            #[trigger] appended_all(m, new_parent, m.children[node as int]).children[x as int] == m.children[x as int],
{
    let kids = m.children[node as int];
    lemma_reparent_prefix(m, node, new_parent, kids.len() as int);
    assert(kids.take(kids.len() as int) =~= kids);
    assert(kids.skip(kids.len() as int) =~= Seq::<NodeId>::empty());
}

} // verus!

verus! {

/// The key and the stored attribute of a parsed attribute, written out from its fields.
pub open spec fn parsed_entry(a: ParsedAttribute) -> (NameView, AttributeView) {
    ((a.name.ns@, a.name.local@), (opt_view(a.name.prefix), a.value@))
}

/// An element created from parsed attributes stores, under the namespace and local name of
/// each attribute that no later one repeats, that attribute's prefix and value; where no name
/// repeats, its attributes are the parsed ones, each as its namespace, local name, prefix and
/// value, in the order they were parsed.
pub proof fn lemma_element_attributes(name: QualNameView, attrs: Seq<ParsedAttribute>, tc: Option<NodeId>)
    ensures
        element_view(name, stored_pairs(attrs), tc)->name == name,
        element_view(name, stored_pairs(attrs), tc)->template_contents == tc,
        forall|i: int| 0 <= i < attrs.len()
            && (forall|j: int| i < j < attrs.len() ==> parsed_entry(attrs[j]).0 != parsed_entry(attrs[i]).0)
            ==> #[trigger] lookup(element_view(name, stored_pairs(attrs), tc)->attributes, parsed_entry(attrs[i]).0)
                == Some(parsed_entry(attrs[i]).1),
        (forall|i: int, j: int| 0 <= i < attrs.len() && 0 <= j < attrs.len() && i != j
            ==> #[trigger] parsed_entry(attrs[i]).0 != #[trigger] parsed_entry(attrs[j]).0) ==> {
            &&& element_view(name, stored_pairs(attrs), tc)->attributes.len() == attrs.len()
            &&& forall|i: int| 0 <= i < attrs.len() ==>
                #[trigger] element_view(name, stored_pairs(attrs), tc)->attributes[i] == parsed_entry(attrs[i])
        },
{
    let pv = pairs_view(stored_pairs(attrs));
    assert(pv.len() == attrs.len());
    assert forall|i: int| 0 <= i < attrs.len() implies #[trigger] pv[i] == parsed_entry(attrs[i]) by {
        assert(stored_pairs(attrs)[i] == stored_pair(attrs[i]));
    }
    let e = element_view(name, stored_pairs(attrs), tc)->attributes;
    lemma_inserts_last_value_wins(Seq::empty(), pv);
    assert forall|i: int| 0 <= i < attrs.len()
        && (forall|j: int| i < j < attrs.len() ==> parsed_entry(attrs[j]).0 != parsed_entry(attrs[i]).0)
        implies #[trigger] lookup(e, parsed_entry(attrs[i]).0) == Some(parsed_entry(attrs[i]).1) by {
        assert(pv[i] == parsed_entry(attrs[i]));
        assert forall|j: int| i < j < pv.len() implies pv[j].0 != pv[i].0 by {
            assert(pv[j] == parsed_entry(attrs[j]));
        }
    }
    if forall|i: int, j: int| 0 <= i < attrs.len() && 0 <= j < attrs.len() && i != j
        ==> #[trigger] parsed_entry(attrs[i]).0 != #[trigger] parsed_entry(attrs[j]).0 {
        assert(keys_distinct(pv)) by {
            assert forall|i: int, j: int| 0 <= i < pv.len() && 0 <= j < pv.len() && i != j
                implies #[trigger] pv[i].0 != #[trigger] pv[j].0 by {
                assert(pv[i] == parsed_entry(attrs[i]));
                assert(pv[j] == parsed_entry(attrs[j]));
            }
        }
        lemma_inserts_keep_order(Seq::empty(), pv);
        assert(Seq::<(NameView, AttributeView)>::empty() + pv =~= pv);
    }
}

/// Text inserted before a sibling with a parent `p`, where the sibling sits at position `k`:
/// where the child at `k - 1` is a text node, the text is added to the end of its text and
/// nothing else changes; otherwise (the sibling being the first child, or the child before it
/// not being text) a new text node holding the text is placed among the children of `p` at
/// position `k`, immediately before the sibling. Before a sibling without parent, the text
/// becomes a new node without parent.
pub proof fn lemma_text_before_sibling(m: TreeModel, s: NodeId, t: Seq<char>)
    requires
        m.wf(),
        m.has(s),
        m.len() < usize::MAX,
    ensures
        m.parents[s as int] is None ==> {
            let r = inserted_text_before(m, s, t);
            &&& r.nodes == m.nodes.push(NodeView::Text(t))
            &&& r.parents == m.parents.push(None)
            &&& r.children == m.children.push(Seq::empty())
        },
        forall|p: NodeId, k: int|
            m.parents[s as int] == Some(p) && 0 <= k < m.children[p as int].len()
                && #[trigger] m.children[p as int][k] == s ==> {
                let r = inserted_text_before(m, s, t);
                let kids = m.children[p as int];
                let n = m.len() as NodeId;
                &&& (k > 0 && m.nodes[kids[k - 1] as int] is Text) ==> {
                    &&& r.nodes == m.nodes.update(kids[k - 1] as int, NodeView::Text(m.nodes[kids[k - 1] as int]->Text_0 + t))
                    &&& r.parents == m.parents
                    &&& r.children == m.children
                }
                &&& !(k > 0 && m.nodes[kids[k - 1] as int] is Text) ==> {
                    &&& r.nodes == m.nodes.push(NodeView::Text(t))
                    &&& r.parents[n as int] == Some(p)
                    &&& r.parents[s as int] == Some(p)
                    &&& r.children[p as int] == kids.insert(k, n)
                    &&& r.children[p as int][k] == n
                    &&& r.children[p as int][k + 1] == s
                }
            },
{
    lemma_siblings_are_neighbours(m, s);
    let n = m.len() as NodeId;
    let q = m.pushed(NodeView::Text(t));
    lemma_pushed_wf(m, NodeView::Text(t));
    assert(q.detached(n) == q);
    assert forall|p: NodeId, k: int|
        m.parents[s as int] == Some(p) && 0 <= k < m.children[p as int].len()
            && #[trigger] m.children[p as int][k] == s implies q.children[p as int].index_of(s) == k by {
        assert(m.has(p));
        assert(q.children[p as int] == m.children[p as int]);
        assert(q.children[p as int].no_duplicates());
        assert(q.children[p as int].contains(s));
    }
    assert forall|p: NodeId, k: int|
        m.parents[s as int] == Some(p) && 0 <= k < m.children[p as int].len()
            && #[trigger] m.children[p as int][k] == s implies ({
            let r = inserted_text_before(m, s, t);
            let kids = m.children[p as int];
            !(k > 0 && m.nodes[kids[k - 1] as int] is Text) ==> {
                &&& r.children[p as int] == kids.insert(k, n)
                &&& r.children[p as int][k] == n
                &&& r.children[p as int][k + 1] == s
            }
        }) by {
        let kids = m.children[p as int];
        kids.insert_ensures(k, n);
    }
}

/// Text appended to `p`: where the last child of `p` is a text node, the text is added to the
/// end of its text and nothing else changes; otherwise a new text node holding the text becomes
/// the last child of `p`, after the former children in their order.
pub proof fn lemma_text_appended(m: TreeModel, p: NodeId, t: Seq<char>)
    requires
        m.wf(),
        m.has(p),
        m.len() < usize::MAX,
    ensures
        ({
            let r = appended_text(m, p, t);
            let kids = m.children[p as int];
            let n = m.len() as NodeId;
            &&& (kids.len() > 0 && m.nodes[kids[kids.len() - 1] as int] is Text) ==> {
                &&& r.nodes == m.nodes.update(
                    kids[kids.len() - 1] as int,
                    NodeView::Text(m.nodes[kids[kids.len() - 1] as int]->Text_0 + t),
                )
                &&& r.parents == m.parents
                &&& r.children == m.children
            }
            &&& !(kids.len() > 0 && m.nodes[kids[kids.len() - 1] as int] is Text) ==> {
                &&& r.nodes == m.nodes.push(NodeView::Text(t))
                &&& r.parents[n as int] == Some(p)
                &&& r.children[p as int] == kids.push(n)
            }
        }),
{
    lemma_siblings_are_neighbours(m, p);
    let n = m.len() as NodeId;
    let q = m.pushed(NodeView::Text(t));
    lemma_pushed_wf(m, NodeView::Text(t));
    lemma_append_children(q, p, n);
    if q.children[p as int].contains(n) {
        let j = choose|j: int| 0 <= j < q.children[p as int].len() && q.children[p as int][j] == n;
        assert(m.children[p as int][j] == n);
        assert(m.has(m.children[p as int][j]));
    }
}

/// Adding attributes where missing, under names that are all distinct and none present yet,
/// adds them after the present ones, in the given order.
pub proof fn lemma_adds_if_missing_order(entries: Entries, pairs: Seq<(NameView, AttributeView)>)
    requires
        keys_distinct(entries),
        keys_distinct(pairs),
        forall|i: int| 0 <= i < pairs.len() ==> !has_key(entries, #[trigger] pairs[i].0),
    ensures
        entries_after_adds_if_missing(entries, pairs) == entries + pairs,
    decreases pairs.len(),
{
    if pairs.len() == 0 {
        assert(entries + pairs =~= entries);
    } else {
        let init = pairs.drop_last();
        assert forall|i: int| 0 <= i < init.len() implies !has_key(entries, #[trigger] init[i].0) by {
            assert(init[i] == pairs[i]);
        }
        assert(keys_distinct(init)) by {
            assert forall|i: int, j: int| 0 <= i < init.len() && 0 <= j < init.len() && i != j
                implies #[trigger] init[i].0 != #[trigger] init[j].0 by {
                assert(init[i] == pairs[i]);
                assert(init[j] == pairs[j]);
            }
        }
        lemma_adds_if_missing_order(entries, init);
        let before = entries + init;
        let (k, v) = pairs.last();
        if has_key(before, k) {
            let i = choose|i: int| 0 <= i < before.len() && #[trigger] before[i].0 == k;
            if i < entries.len() {
                assert(entries[i].0 == k);
                assert(has_key(entries, pairs[pairs.len() - 1].0));
            } else {
                assert(init[i - entries.len()] == pairs[i - entries.len()]);
                assert(pairs[i - entries.len()].0 == pairs[pairs.len() - 1].0);
            }
        }
        assert(before.push((k, v)) =~= entries + pairs);
    }
}

/// Adding attributes where missing gives, under a name that was absent, the value of the first
/// pair with that name: a later pair does not replace it.
pub proof fn lemma_adds_if_missing_first_wins(entries: Entries, pairs: Seq<(NameView, AttributeView)>)
    requires
        keys_distinct(entries),
    ensures
        forall|i: int| 0 <= i < pairs.len() && !has_key(entries, pairs[i].0)
            && (forall|j: int| 0 <= j < i ==> pairs[j].0 != pairs[i].0)
            ==> #[trigger] lookup(entries_after_adds_if_missing(entries, pairs), pairs[i].0) == Some(pairs[i].1),
    decreases pairs.len(),
{
    if pairs.len() > 0 {
        let init = pairs.drop_last();
        let before = entries_after_adds_if_missing(entries, init);
        lemma_adds_if_missing_first_wins(entries, init);
        lemma_adds_if_missing(entries, init);
        let (k, v) = pairs.last();
        let after = entries_after_adds_if_missing(entries, pairs);
        assert forall|i: int| 0 <= i < pairs.len() && !has_key(entries, pairs[i].0)
            && (forall|j: int| 0 <= j < i ==> pairs[j].0 != pairs[i].0)
            implies #[trigger] lookup(after, pairs[i].0) == Some(pairs[i].1) by {
            if i < pairs.len() - 1 {
                assert(init[i] == pairs[i]);
                assert forall|j: int| 0 <= j < i implies init[j].0 != init[i].0 by {
                    assert(init[j] == pairs[j]);
                }
                assert(lookup(before, pairs[i].0) == Some(pairs[i].1));
                if !has_key(before, k) {
                    assert(has_key(before, init[i].0));
                    lemma_insert_lookup(before, k, v, pairs[i].0);
                }
            } else {
                if has_key(before, k) {
                    assert(has_key(entries, k) || exists|j: int| 0 <= j < init.len() && init[j].0 == k);
                    if !has_key(entries, k) {
                        let j = choose|j: int| 0 <= j < init.len() && init[j].0 == k;
                        assert(pairs[j] == init[j]);
                    }
                }
                lemma_insert_lookup(before, k, v, k);
            }
        }
    }
}

} // verus!
