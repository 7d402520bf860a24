//! An HTML document held as an arena of nodes, with the tree operations that build it.
use crate::attributes::{Attribute, Attributes, Entries, entries_after_inserts, pairs_view};
use crate::names::{ExpandedName, QualName, QualNameView};
use vstd::prelude::*;

verus! {

/// A handle to a node: its position in the arena of its tree.
pub type NodeId = usize;

/// How a document is rendered, as decided by its `<!DOCTYPE>`.
#[derive(Clone, Copy, PartialEq, Eq, Structural, Debug)]
pub enum QuirksMode {
    /// Full quirks mode.
    Quirks,
    /// Limited quirks mode.
    LimitedQuirks,
    /// No quirks mode.
    NoQuirks,
}

/// Data specific to element nodes.
#[derive(Debug)]
pub struct ElementData {
    /// The namespace and local name of the element, such as `ns!(html)` and `body`.
    pub name: QualName,
    /// The attributes of the element.
    pub attributes: Attributes,
    /// If the element is an HTML `<template>` element, the document fragment node that is the
    /// root of template contents.
    pub template_contents: Option<NodeId>,
}

/// Data specific to doctype nodes.
#[derive(Debug, Clone)]
pub struct Doctype {
    /// The name of the doctype.
    pub name: String,
    /// The public ID of the doctype.
    pub public_id: String,
    /// The system ID of the doctype.
    pub system_id: String,
}

/// Node data specific to the node type.
#[derive(Debug)]
pub enum NodeData {
    /// Element node.
    Element(ElementData),
    /// Text node.
    Text(String),
    /// Comment node.
    Comment(String),
    /// Processing instruction node, with its target and its data.
    ProcessingInstruction(String, String),
    /// Doctype node.
    Doctype(Doctype),
    /// Document node, with its quirks mode.
    Document(QuirksMode),
    /// Document fragment node.
    DocumentFragment,
}

/// The content of a node, every string taken by its text.
pub enum NodeView {
    Element { name: QualNameView, attributes: Entries, template_contents: Option<NodeId> },
    Text(Seq<char>),
    Comment(Seq<char>),
    ProcessingInstruction(Seq<char>, Seq<char>),
    Doctype(Seq<char>, Seq<char>, Seq<char>),
    Document(QuirksMode),
    DocumentFragment,
}

impl View for NodeData {
    type V = NodeView;

    open spec fn view(&self) -> NodeView {
        match self {
            NodeData::Element(e) => NodeView::Element {
                name: e.name@,
                attributes: e.attributes.entries(),
                template_contents: e.template_contents,
            },
            NodeData::Text(t) => NodeView::Text(t@),
            NodeData::Comment(t) => NodeView::Comment(t@),
            NodeData::ProcessingInstruction(t, d) => NodeView::ProcessingInstruction(t@, d@),
            NodeData::Doctype(d) => NodeView::Doctype(d.name@, d.public_id@, d.system_id@),
            NodeData::Document(q) => NodeView::Document(*q),
            NodeData::DocumentFragment => NodeView::DocumentFragment,
        }
    }
}

#[verifier::ext_equal]
/// A tree as the library reasons about it: the content, the parent and the children of each
/// node, by handle.
pub struct TreeModel {
    pub nodes: Seq<NodeView>,
    pub parents: Seq<Option<NodeId>>,
    pub children: Seq<Seq<NodeId>>,
}

/// The content of a new element node.
pub open spec fn element_view(
    name: QualNameView,
    attributes: Seq<(ExpandedName, Attribute)>,
    template_contents: Option<NodeId>,
) -> NodeView {
    NodeView::Element {
        name,
        attributes: entries_after_inserts(Seq::empty(), pairs_view(attributes)),
        template_contents,
    }
}

impl TreeModel {
    /// The number of nodes.
    pub open spec fn len(self) -> nat {
        self.nodes.len()
    }

    /// `n` is the handle of a node of this tree.
    pub open spec fn has(self, n: NodeId) -> bool {
        n < self.nodes.len()
    }

    /// Every element's template contents are a node of the tree.
    pub open spec fn template_ok(self, v: NodeView) -> bool {
        v matches NodeView::Element { template_contents: Some(t), .. } ==> self.has(t)
    }

    /// The tree is well formed: each node's parent lists it as a child, each child names its
    /// parent, no node is listed twice as a child, the document node is the first node.
    pub open spec fn wf(self) -> bool {
        &&& self.parents.len() == self.nodes.len()
        &&& self.children.len() == self.nodes.len()
        &&& 0 < self.nodes.len() <= usize::MAX
        &&& self.nodes[0] is Document
        &&& forall|n: NodeId|
            #![trigger self.parents[n as int]]
            self.has(n) ==> (self.parents[n as int] matches Some(p) ==> (self.has(p)
                && self.children[p as int].contains(n)))
        &&& forall|n: NodeId, i: int|
            #![trigger self.children[n as int][i]]
            self.has(n) && 0 <= i < self.children[n as int].len() ==> (self.has(
                self.children[n as int][i],
            ) && self.parents[self.children[n as int][i] as int] == Some(n))
        &&& forall|n: NodeId| self.has(n) ==> (#[trigger] self.children[n as int]).no_duplicates()
        &&& forall|n: NodeId| self.has(n) ==> self.template_ok(#[trigger] self.nodes[n as int])
    }

    /// The tree with a new node `v`, without parent or children, added last.
    pub open spec fn pushed(self, v: NodeView) -> TreeModel {
        TreeModel {
            nodes: self.nodes.push(v),
            parents: self.parents.push(None),
            children: self.children.push(Seq::empty()),
        }
    }

    /// The tree with `n` removed from its parent's children, if it has a parent.
    pub open spec fn detached(self, n: NodeId) -> TreeModel {
        match self.parents[n as int] {
            None => self,
            Some(p) => TreeModel {
                nodes: self.nodes,
                parents: self.parents.update(n as int, None),
                children: self.children.update(
                    p as int,
                    self.children[p as int].remove(self.children[p as int].index_of(n)),
                ),
            },
        }
    }

    /// The tree with `c` inserted among the children of `p` at position `i`; `c` must be detached.
    pub open spec fn inserted_child(self, p: NodeId, i: int, c: NodeId) -> TreeModel {
        TreeModel {
            nodes: self.nodes,
            parents: self.parents.update(c as int, Some(p)),
            children: self.children.update(p as int, self.children[p as int].insert(i, c)),
        }
    }

    /// The tree with `c` moved to be the first child of `p`.
    pub open spec fn prepended(self, p: NodeId, c: NodeId) -> TreeModel {
        self.detached(c).inserted_child(p, 0, c)
    }

    /// The tree with `n` moved to be the sibling just before `s`; if `s` has no parent once `n`
    /// is detached, `n` is only detached.
    pub open spec fn inserted_before(self, s: NodeId, n: NodeId) -> TreeModel {
        let d = self.detached(n);
        match d.parents[s as int] {
            None => d,
            Some(p) => d.inserted_child(p, d.children[p as int].index_of(s), n),
        }
    }

    /// The tree with `n` moved to be the sibling just after `s`; if `s` has no parent once `n`
    /// is detached, `n` is only detached.
    pub open spec fn inserted_after(self, s: NodeId, n: NodeId) -> TreeModel {
        let d = self.detached(n);
        match d.parents[s as int] {
            None => d,
            Some(p) => d.inserted_child(p, d.children[p as int].index_of(s) + 1, n),
        }
    }

    /// The first child of `n`, if any.
    pub open spec fn first_child(self, n: NodeId) -> Option<NodeId> {
        if self.children[n as int].len() > 0 {
            Some(self.children[n as int][0])
        } else {
            None
        }
    }

    /// The last child of `n`, if any.
    pub open spec fn last_child(self, n: NodeId) -> Option<NodeId> {
        if self.children[n as int].len() > 0 {
            Some(self.children[n as int].last())
        } else {
            None
        }
    }

    /// The sibling just before `n`, if any.
    pub open spec fn previous_sibling(self, n: NodeId) -> Option<NodeId> {
        match self.parents[n as int] {
            None => None,
            Some(p) => {
                let k = self.children[p as int].index_of(n);
                if k > 0 {
                    Some(self.children[p as int][k - 1])
                } else {
                    None
                }
            },
        }
    }

    /// The sibling just after `n`, if any.
    pub open spec fn next_sibling(self, n: NodeId) -> Option<NodeId> {
        match self.parents[n as int] {
            None => None,
            Some(p) => {
                let k = self.children[p as int].index_of(n);
                if k + 1 < self.children[p as int].len() {
                    Some(self.children[p as int][k + 1])
                } else {
                    None
                }
            },
        }
    }

    /// The tree with the content of node `n` replaced by `v`.
    pub open spec fn with_node(self, n: NodeId, v: NodeView) -> TreeModel {
        TreeModel { nodes: self.nodes.update(n as int, v), parents: self.parents, children: self.children }
    }

    /// The tree with the attributes of the element `n` replaced by `e`.
    pub open spec fn with_attributes(self, n: NodeId, e: Entries) -> TreeModel {
        self.with_node(
            n,
            NodeView::Element {
                name: self.nodes[n as int]->name,
                attributes: e,
                template_contents: self.nodes[n as int]->template_contents,
            },
        )
    }

    /// The tree with `c` moved to be the last child of `p`.
    pub open spec fn appended(self, p: NodeId, c: NodeId) -> TreeModel {
        let d = self.detached(c);
        d.inserted_child(p, d.children[p as int].len() as int, c)
    }
}

/// The storage of a tree: the content, the parent and the children of each node, by handle.
#[derive(Debug)]
struct Arena {
    nodes: Vec<NodeData>,
    parents: Vec<Option<NodeId>>,
    children: Vec<Vec<NodeId>>,
}

impl View for Arena {
    type V = TreeModel;

    closed spec fn view(&self) -> TreeModel {
        TreeModel {
            nodes: self.nodes@.map_values(|d: NodeData| d@),
            parents: self.parents@,
            children: self.children@.map_values(|c: Vec<NodeId>| c@),
        }
    }
}

/// Replacing the content of a node keeps a tree well formed, provided that the new content's
/// template contents are in the tree and that the document node stays a document.
pub proof fn lemma_with_node_wf(m: TreeModel, n: NodeId, v: NodeView)
    requires
        m.wf(),
        m.has(n),
        m.template_ok(v),
        n == 0 ==> v is Document,
    ensures
        m.with_node(n, v).wf(),
{
    let w = m.with_node(n, v);
    assert forall|x: NodeId| w.has(x) implies w.template_ok(#[trigger] w.nodes[x as int]) by {
        if x != n {
            assert(m.template_ok(m.nodes[x as int]));
        }
    }
}

/// Detaching a node keeps a tree well formed.
pub proof fn lemma_detach_wf(m: TreeModel, n: NodeId)
    requires
        m.wf(),
        m.has(n),
    ensures
        m.detached(n).wf(),
{
    match m.parents[n as int] {
        None => {},
        Some(p) => {
            let k = m.children[p as int].index_of(n);
            assert(m.children[p as int].contains(n));
            lemma_index_of_unique(m.children[p as int], k);
            lemma_remove_keeps_others(m.children[p as int], k);
            let d = m.detached(n);
            assert forall|c: NodeId| #![trigger d.parents[c as int]] d.has(c) implies (d.parents[c as int] matches Some(q) ==> (d.has(q)
                && d.children[q as int].contains(c))) by {
                if c != n && d.parents[c as int] is Some {
                    let q = d.parents[c as int]->0;
                    assert(m.parents[c as int] == Some(q));
                    assert(m.children[q as int].contains(c));
                }
            }
            assert forall|c: NodeId, i: int|
                #![trigger d.children[c as int][i]]
                d.has(c) && 0 <= i < d.children[c as int].len() implies (d.has(d.children[c as int][i])
                    && d.parents[d.children[c as int][i] as int] == Some(c)) by {
                if c == p {
                    let x = d.children[c as int][i];
                    assert(d.children[c as int].contains(x));
                    let j = choose|j: int| 0 <= j < m.children[c as int].len() && m.children[c as int][j] == x;
                    assert(m.children[c as int][j] == x);
                } else {
                    assert(d.children[c as int][i] == m.children[c as int][i]);
                    if m.children[c as int][i] == n {
                        assert(m.parents[n as int] == Some(c));
                    }
                }
            }
        },
    }
}

/// Inserting a detached node among the children of a node keeps a tree well formed.
pub proof fn lemma_insert_wf(m: TreeModel, p: NodeId, i: int, c: NodeId)
    requires
        m.wf(),
        m.has(p),
        m.has(c),
        m.parents[c as int] is None,
        0 <= i <= m.children[p as int].len(),
    ensures
        m.inserted_child(p, i, c).wf(),
{
    let kids = m.children[p as int];
    assert(!kids.contains(c)) by {
        if kids.contains(c) {
            let j = choose|j: int| 0 <= j < kids.len() && kids[j] == c;
            assert(m.children[p as int][j] == c);
        }
    }
    let d = m.inserted_child(p, i, c);
    let nk = kids.insert(i, c);
    kids.insert_ensures(i, c);
    assert forall|x: NodeId| #[trigger] nk.contains(x) <==> (kids.contains(x) || x == c) by {
        if nk.contains(x) {
            let j = choose|j: int| 0 <= j < nk.len() && nk[j] == x;
            if j < i {
                assert(kids[j] == x);
            } else if j > i {
                assert(kids[j - 1] == x);
            }
        }
        if kids.contains(x) {
            let j = choose|j: int| 0 <= j < kids.len() && kids[j] == x;
            if j < i {
                assert(nk[j] == x);
            } else {
                assert(nk[j + 1] == x);
            }
        }
        if x == c {
            assert(nk[i] == c);
        }
    }
    assert(nk.no_duplicates()) by {
        assert forall|a: int, b: int| 0 <= a < nk.len() && 0 <= b < nk.len() && a != b implies nk[a] != nk[b] by {
            if a != i && b != i {
                let a0 = if a < i { a } else { a - 1 };
                let b0 = if b < i { b } else { b - 1 };
                assert(nk[a] == kids[a0]);
                assert(nk[b] == kids[b0]);
            } else if a == i {
                let b0 = if b < i { b } else { b - 1 };
                assert(nk[b] == kids[b0]);
            } else {
                let a0 = if a < i { a } else { a - 1 };
                assert(nk[a] == kids[a0]);
            }
        }
    }
    assert forall|x: NodeId| #![trigger d.parents[x as int]] d.has(x) implies (d.parents[x as int] matches Some(q) ==> (d.has(q)
        && d.children[q as int].contains(x))) by {
        if x != c && d.parents[x as int] is Some {
            let q = d.parents[x as int]->0;
            assert(m.children[q as int].contains(x));
        }
    }
    assert forall|x: NodeId, j: int|
        #![trigger d.children[x as int][j]]
        d.has(x) && 0 <= j < d.children[x as int].len() implies (d.has(d.children[x as int][j])
            && d.parents[d.children[x as int][j] as int] == Some(x)) by {
        if x == p {
            let y = nk[j];
            assert(nk.contains(y));
            if y != c {
                let k = choose|k: int| 0 <= k < kids.len() && kids[k] == y;
                assert(m.children[p as int][k] == y);
            }
        } else {
            assert(d.children[x as int][j] == m.children[x as int][j]);
            if m.children[x as int][j] == c {
                assert(m.parents[c as int] == Some(x));
            }
        }
    }
}

/// The namespace URL of HTML.
pub open spec fn html_ns() -> Seq<char> {
    "http://www.w3.org/1999/xhtml"@
}

/// The name is that of the HTML `<template>` element.
pub open spec fn is_html_template(name: QualNameView) -> bool {
    name.1 == html_ns() && name.2 == "template"@
}

/// The position of `n` among `kids`.
fn position_of(kids: &Vec<NodeId>, n: NodeId) -> (k: usize)
    requires
        kids@.contains(n),
    ensures
        k < kids@.len(),
        kids@[k as int] == n,
{
    let mut k: usize = 0;
    while k < kids.len()
        invariant
            0 <= k <= kids@.len(),
            kids@.contains(n),
            forall|j: int| 0 <= j < k ==> kids@[j] != n,
        decreases kids@.len() - k,
    {
        if kids[k] == n {
            return k;
        }
        k = k + 1;
    }
    proof {
        let j = choose|j: int| 0 <= j < kids@.len() && kids@[j] == n;
        assert(kids@[j] != n);
    }
    0
}

/// In a sequence without duplicates, the position of an element is the one it was found at.
proof fn lemma_index_of_unique(s: Seq<NodeId>, k: int)
    requires
        s.no_duplicates(),
        0 <= k < s.len(),
    ensures
        s.contains(s[k]),
        s.index_of(s[k]) == k,
{
    assert(s.contains(s[k]));
}

/// Removing an element keeps the other elements, without duplicates.
proof fn lemma_remove_keeps_others(s: Seq<NodeId>, k: int)
    requires
        s.no_duplicates(),
        0 <= k < s.len(),
    ensures
        s.remove(k).no_duplicates(),
        forall|x: NodeId| #[trigger] s.remove(k).contains(x) <==> (s.contains(x) && x != s[k]),
{
    let r = s.remove(k);
    assert forall|x: NodeId| #[trigger] r.contains(x) <==> (s.contains(x) && x != s[k]) by {
        if r.contains(x) {
            let j = choose|j: int| 0 <= j < r.len() && r[j] == x;
            if j < k {
                assert(s[j] == x);
            } else {
                assert(s[j + 1] == x);
            }
        }
        if s.contains(x) && x != s[k] {
            let j = choose|j: int| 0 <= j < s.len() && s[j] == x;
            if j < k {
                assert(r[j] == x);
            } else {
                assert(r[j - 1] == x);
            }
        }
    }
}

impl Arena {
    /// A tree holding only a document node, in no-quirks mode.
    fn new_document() -> (tree: Arena)
        ensures
            tree@.wf(),
            tree@.len() == 1,
            tree@.nodes[0] == NodeView::Document(QuirksMode::NoQuirks),
            tree@.parents[0] is None,
            tree@.children[0] == Seq::<NodeId>::empty(),
    {
        let mut nodes = Vec::new();
        nodes.push(NodeData::Document(QuirksMode::NoQuirks));
        let mut parents = Vec::new();
        parents.push(None);
        let mut children = Vec::new();
        children.push(Vec::new());
        let tree = Arena { nodes, parents, children };
        assert(tree@.nodes =~= seq![NodeView::Document(QuirksMode::NoQuirks)]);
        assert(tree@.children =~= seq![Seq::<NodeId>::empty()]);
        tree
    }

    /// Adds `data` as a new node without parent or children, and returns its handle.
    fn push_node(&mut self, data: NodeData) -> (n: NodeId)
        requires
            old(self)@.wf(),
            old(self)@.template_ok(data@),
        ensures
            final(self)@ == old(self)@.pushed(data@),
            final(self)@.wf(),
            n == old(self)@.len(),
    {
        let ghost old_model = self@;
        let ghost v = data@;
        let n = self.nodes.len();
        self.nodes.push(data);
        assert(self.nodes.len() <= usize::MAX);
        self.parents.push(None);
        self.children.push(Vec::new());
        assert(self@.nodes =~= old_model.nodes.push(v));
        assert(self@.children =~= old_model.children.push(Seq::empty()));
        n
    }

    /// Removes `n` from its parent's children; afterwards `n` has no parent.
    fn detach(&mut self, n: NodeId)
        requires
            old(self)@.wf(),
            old(self)@.has(n),
        ensures
            final(self)@.wf(),
            final(self)@ == old(self)@.detached(n),
    {
        let ghost m = self@;
        proof {
            lemma_detach_wf(m, n);
        }
        match self.parents[n] {
            None => {},
            Some(p) => {
                assert(m.parents[n as int] == Some(p));
                let k = position_of(&self.children[p], n);
                proof {
                    lemma_index_of_unique(m.children[p as int], k as int);
                }
                self.children[p].remove(k);
                self.parents.set(n, None);
                let ghost d = m.detached(n);
                assert(self@.children =~= d.children);
                assert(self@.nodes =~= d.nodes);
            },
        }
    }

    /// Adds a new text node holding `text`, without parent, and returns its handle.
    fn new_text(&mut self, text: String) -> (n: NodeId)
        requires
            old(self)@.wf(),
        ensures
            final(self)@.wf(),
            final(self)@ == old(self)@.pushed(NodeView::Text(text@)),
            n == old(self)@.len(),
    {
        self.push_node(NodeData::Text(text))
    }

    /// Adds a new comment node holding `text`, without parent, and returns its handle.
    fn new_comment(&mut self, text: String) -> (n: NodeId)
        requires
            old(self)@.wf(),
        ensures
            final(self)@.wf(),
            final(self)@ == old(self)@.pushed(NodeView::Comment(text@)),
            n == old(self)@.len(),
    {
        self.push_node(NodeData::Comment(text))
    }

    /// Adds a new processing instruction node, without parent, and returns its handle.
    fn new_processing_instruction(&mut self, target: String, data: String) -> (n: NodeId)
        requires
            old(self)@.wf(),
        ensures
            final(self)@.wf(),
            final(self)@ == old(self)@.pushed(NodeView::ProcessingInstruction(target@, data@)),
            n == old(self)@.len(),
    {
        self.push_node(NodeData::ProcessingInstruction(target, data))
    }

    /// Adds a new doctype node, without parent, and returns its handle.
    fn new_doctype(&mut self, name: String, public_id: String, system_id: String) -> (n: NodeId)
        requires
            old(self)@.wf(),
        ensures
            final(self)@.wf(),
            final(self)@ == old(self)@.pushed(NodeView::Doctype(name@, public_id@, system_id@)),
            n == old(self)@.len(),
    {
        self.push_node(NodeData::Doctype(Doctype { name, public_id, system_id }))
    }

    /// Adds a new document fragment node, without parent, and returns its handle.
    fn new_document_fragment(&mut self) -> (n: NodeId)
        requires
            old(self)@.wf(),
        ensures
            final(self)@.wf(),
            final(self)@ == old(self)@.pushed(NodeView::DocumentFragment),
            n == old(self)@.len(),
    {
        self.push_node(NodeData::DocumentFragment)
    }

    /// Adds a new element node named `name`, without parent, holding `attributes` (a later
    /// attribute replacing the value of an earlier one of the same name), and returns its
    /// handle. An HTML `<template>` element gets a new document fragment node as its template
    /// contents, added just before it.
    fn new_element(&mut self, name: QualName, attributes: Vec<(ExpandedName, Attribute)>) -> (n: NodeId)
        requires
            old(self)@.wf(),
        ensures
            final(self)@.wf(),
            final(self)@ == (if is_html_template(name@) {
                old(self)@.pushed(NodeView::DocumentFragment).pushed(
                    element_view(name@, attributes@, Some(old(self)@.len() as NodeId)),
                )
            } else {
                old(self)@.pushed(element_view(name@, attributes@, None))
            }),
            n == final(self)@.len() - 1,
    {
        let attrs = Attributes::from_pairs(attributes);
        let html = "http://www.w3.org/1999/xhtml".to_owned();
        let template = "template".to_owned();
        let template_contents = if name.ns == html && name.local == template {
            Some(self.new_document_fragment())
        } else {
            None
        };
        let data = NodeData::Element(ElementData { name, attributes: attrs, template_contents });
        self.push_node(data)
    }

    /// The parent of `node`, if any.
    fn parent(&self, node: NodeId) -> (r: Option<NodeId>)
        requires
            self@.wf(),
            self@.has(node),
        ensures
            r == self@.parents[node as int],
    {
        self.parents[node]
    }

    /// The first child of `node`, if any.
    fn first_child(&self, node: NodeId) -> (r: Option<NodeId>)
        requires
            self@.wf(),
            self@.has(node),
        ensures
            r == self@.first_child(node),
    {
        if self.children[node].len() > 0 {
            Some(self.children[node][0])
        } else {
            None
        }
    }

    /// The last child of `node`, if any.
    fn last_child(&self, node: NodeId) -> (r: Option<NodeId>)
        requires
            self@.wf(),
            self@.has(node),
        ensures
            r == self@.last_child(node),
    {
        let len = self.children[node].len();
        if len > 0 {
            Some(self.children[node][len - 1])
        } else {
            None
        }
    }

    /// The sibling just before `node`, if any.
    fn previous_sibling(&self, node: NodeId) -> (r: Option<NodeId>)
        requires
            self@.wf(),
            self@.has(node),
        ensures
            r == self@.previous_sibling(node),
    {
        match self.parents[node] {
            None => None,
            Some(p) => {
                let ghost m = self@;
                assert(m.parents[node as int] == Some(p));
                let k = position_of(&self.children[p], node);
                proof {
                    lemma_index_of_unique(m.children[p as int], k as int);
                }
                if k > 0 {
                    Some(self.children[p][k - 1])
                } else {
                    None
                }
            },
        }
    }

    /// The sibling just after `node`, if any.
    fn next_sibling(&self, node: NodeId) -> (r: Option<NodeId>)
        requires
            self@.wf(),
            self@.has(node),
        ensures
            r == self@.next_sibling(node),
    {
        match self.parents[node] {
            None => None,
            Some(p) => {
                let ghost m = self@;
                assert(m.parents[node as int] == Some(p));
                let k = position_of(&self.children[p], node);
                proof {
                    lemma_index_of_unique(m.children[p as int], k as int);
                }
                let len = self.children[p].len();
                if k + 1 < len {
                    Some(self.children[p][k + 1])
                } else {
                    None
                }
            },
        }
    }

    /// The children of `node`, in order.
    fn children(&self, node: NodeId) -> (r: Vec<NodeId>)
        requires
            self@.wf(),
            self@.has(node),
        ensures
            r@ == self@.children[node as int],
    {
        self.children[node].clone()
    }

    /// The content of `node`.
    fn data(&self, node: NodeId) -> (r: &NodeData)
        requires
            self@.wf(),
            self@.has(node),
        ensures
            r@ == self@.nodes[node as int],
    {
        &self.nodes[node]
    }

    /// The text of `node`, if it is a text node; the node afterwards holds what the reference
    /// holds last.
    fn text_mut(&mut self, node: NodeId) -> (r: Option<&mut String>)
        requires
            old(self)@.wf(),
            old(self)@.has(node),
        ensures
            r is None <==> !(old(self)@.nodes[node as int] is Text),
            r is None ==> final(self)@ =~= old(self)@,
            r matches Some(t) ==> old(self)@.nodes[node as int] == NodeView::Text(t@)
                && final(self)@ =~= old(self)@.with_node(node, NodeView::Text(final(t)@)),
            r matches Some(t) ==> old(self)@.with_node(node, NodeView::Text(final(t)@)).wf(),
            r is None ==> final(self)@.wf(),
        no_unwind
    {
        proof {
            if old(self)@.nodes[node as int] is Text {
                assert forall|t: Seq<char>| #[trigger] old(self)@.with_node(node, NodeView::Text(t)).wf() by {
                    lemma_with_node_wf(old(self)@, node, NodeView::Text(t));
                }
            }
        }
        match &mut self.nodes[node] {
            NodeData::Text(t) => Some(t),
            _ => None,
        }
    }

    /// The attributes of `node`, if it is an element; the element afterwards holds the
    /// attributes that the reference holds last.
    fn attributes_mut(&mut self, node: NodeId) -> (r: Option<&mut Attributes>)
        requires
            old(self)@.wf(),
            old(self)@.has(node),
        ensures
            r is None <==> !(old(self)@.nodes[node as int] is Element),
            r is None ==> final(self)@ =~= old(self)@,
            r matches Some(a) ==> old(self)@.nodes[node as int]->attributes == a.entries()
                && final(self)@ =~= old(self)@.with_attributes(node, final(a).entries()),
            r matches Some(a) ==> old(self)@.with_attributes(node, final(a).entries()).wf(),
            r is None ==> final(self)@.wf(),
        no_unwind
    {
        proof {
            if old(self)@.nodes[node as int] is Element {
                assert forall|e: Entries| #[trigger] old(self)@.with_attributes(node, e).wf() by {
                    assert(old(self)@.template_ok(old(self)@.nodes[node as int]));
                    lemma_with_node_wf(old(self)@, node, old(self)@.with_attributes(node, e).nodes[node as int]);
                    assert(old(self)@.with_node(node, old(self)@.with_attributes(node, e).nodes[node as int]) == old(self)@.with_attributes(node, e));
                }
            }
        }
        match &mut self.nodes[node] {
            NodeData::Element(e) => Some(&mut e.attributes),
            _ => None,
        }
    }

    /// The doctype data of `node`, if it is a doctype; the node afterwards holds what the
    /// reference holds last.
    fn doctype_mut(&mut self, node: NodeId) -> (r: Option<&mut Doctype>)
        requires
            old(self)@.wf(),
            old(self)@.has(node),
        ensures
            r is None <==> !(old(self)@.nodes[node as int] is Doctype),
            r is None ==> final(self)@ =~= old(self)@,
            r matches Some(d) ==> old(self)@.nodes[node as int] == NodeView::Doctype(d.name@, d.public_id@, d.system_id@)
                && final(self)@ =~= old(self)@.with_node(node, NodeView::Doctype(final(d).name@, final(d).public_id@, final(d).system_id@)),
            final(self)@.wf(),
        no_unwind
    {
        proof {
            if old(self)@.nodes[node as int] is Doctype {
                assert forall|a: Seq<char>, b: Seq<char>, c: Seq<char>| #[trigger] old(self)@.with_node(node, NodeView::Doctype(a, b, c)).wf() by {
                    lemma_with_node_wf(old(self)@, node, NodeView::Doctype(a, b, c));
                }
            }
        }
        match &mut self.nodes[node] {
            NodeData::Doctype(d) => Some(d),
            _ => None,
        }
    }

    /// The number of nodes; the handles of the tree are the numbers below it.
    fn len(&self) -> (n: usize)
        ensures
            n == self@.len(),
    {
        self.nodes.len()
    }

    /// The quirks mode of the document.
    fn quirks_mode(&self) -> (mode: QuirksMode)
        requires
            self@.wf(),
        ensures
            self@.nodes[0] == NodeView::Document(mode),
    {
        match &self.nodes[0] {
            NodeData::Document(mode) => *mode,
            _ => QuirksMode::NoQuirks,
        }
    }

    /// Sets the quirks mode of the document.
    fn set_quirks_mode(&mut self, mode: QuirksMode)
        requires
            old(self)@.wf(),
        ensures
            final(self)@.wf(),
            final(self)@ =~= old(self)@.with_node(0, NodeView::Document(mode)),
    {
        proof {
            lemma_with_node_wf(self@, 0, NodeView::Document(mode));
        }
        let ghost m = self@;
        self.nodes.set(0, NodeData::Document(mode));
        assert(self@ =~= m.with_node(0, NodeView::Document(mode)));
    }

    /// Inserts the detached node `c` among the children of `p`, at position `i`.
    fn attach_at(&mut self, p: NodeId, i: usize, c: NodeId)
        requires
            old(self)@.wf(),
            old(self)@.has(p),
            old(self)@.has(c),
            old(self)@.parents[c as int] is None,
            i <= old(self)@.children[p as int].len(),
        ensures
            final(self)@.wf(),
            final(self)@ == old(self)@.inserted_child(p, i as int, c),
    {
        let ghost m = self@;
        proof {
            lemma_insert_wf(m, p, i as int, c);
        }
        self.children[p].insert(i, c);
        self.parents.set(c, Some(p));
        let ghost d = m.inserted_child(p, i as int, c);
        assert(self@.children =~= d.children);
        assert(self@.nodes =~= d.nodes);
    }

    /// Moves `new_child` to be the last child of `parent`.
    fn append(&mut self, parent: NodeId, new_child: NodeId)
        requires
            old(self)@.wf(),
            old(self)@.has(parent),
            old(self)@.has(new_child),
        ensures
            final(self)@.wf(),
            final(self)@ == old(self)@.appended(parent, new_child),
    {
        self.detach(new_child);
        let i = self.children[parent].len();
        self.attach_at(parent, i, new_child);
    }

    /// Moves `new_child` to be the first child of `parent`.
    fn prepend(&mut self, parent: NodeId, new_child: NodeId)
        requires
            old(self)@.wf(),
            old(self)@.has(parent),
            old(self)@.has(new_child),
        ensures
            final(self)@.wf(),
            final(self)@ == old(self)@.prepended(parent, new_child),
    {
        self.detach(new_child);
        self.attach_at(parent, 0, new_child);
    }

    /// Moves `new_sibling` to be the sibling just before `node`. Where `node` has no parent
    /// (once `new_sibling` is detached), `new_sibling` is only detached.
    fn insert_before(&mut self, node: NodeId, new_sibling: NodeId)
        requires
            old(self)@.wf(),
            old(self)@.has(node),
            old(self)@.has(new_sibling),
        ensures
            final(self)@.wf(),
            final(self)@ == old(self)@.inserted_before(node, new_sibling),
    {
        self.detach(new_sibling);
        match self.parents[node] {
            None => {},
            Some(p) => {
                let ghost m = self@;
                assert(m.parents[node as int] == Some(p));
                let k = position_of(&self.children[p], node);
                proof {
                    lemma_index_of_unique(m.children[p as int], k as int);
                }
                self.attach_at(p, k, new_sibling);
            },
        }
    }

    /// Moves `new_sibling` to be the sibling just after `node`. Where `node` has no parent
    /// (once `new_sibling` is detached), `new_sibling` is only detached.
    fn insert_after(&mut self, node: NodeId, new_sibling: NodeId)
        requires
            old(self)@.wf(),
            old(self)@.has(node),
            old(self)@.has(new_sibling),
        ensures
            final(self)@.wf(),
            final(self)@ == old(self)@.inserted_after(node, new_sibling),
    {
        self.detach(new_sibling);
        match self.parents[node] {
            None => {},
            Some(p) => {
                let ghost m = self@;
                assert(m.parents[node as int] == Some(p));
                let k = position_of(&self.children[p], node);
                proof {
                    lemma_index_of_unique(m.children[p as int], k as int);
                }
                let len = self.children[p].len();
                assert(k < len);
                self.attach_at(p, k + 1, new_sibling);
            },
        }
    }
}

/// A tree of nodes, each addressed by its handle. The first node is the document.
#[derive(Debug)]
pub struct Tree {
    arena: Arena,
}

impl View for Tree {
    type V = TreeModel;

    closed spec fn view(&self) -> TreeModel {
        self.arena@
    }
}

impl Tree {
    /// Every tree is well formed.
    #[verifier::type_invariant]
    pub open spec fn well_formed(self) -> bool {
        self@.wf()
    }

    /// A tree holding only a document node, in no-quirks mode.
    pub fn new_document() -> (tree: Tree)
        ensures
            tree@.len() == 1,
            tree@.nodes[0] == NodeView::Document(QuirksMode::NoQuirks),
            tree@.parents[0] is None,
            tree@.children[0] == Seq::<NodeId>::empty(),
    {
        Tree { arena: Arena::new_document() }
    }

    /// Takes the storage out, leaving a one-node tree in its place.
    fn take_arena(&mut self) -> (a: Arena)
        ensures
            a@ == old(self)@,
            a@.wf(),
    {
        proof {
            use_type_invariant(&*self);
        }
        let mut a = Arena::new_document();
        std::mem::swap(&mut a, &mut self.arena);
        a
    }

    /// Removes `n` from its parent's children; afterwards `n` has no parent.
    pub fn detach(&mut self, n: NodeId)
        requires
            old(self)@.has(n),
        ensures
            final(self)@ == old(self)@.detached(n),
    {
        let mut a = self.take_arena();
        a.detach(n);
        self.arena = a;
    }

    /// Adds a new text node holding `text`, without parent, and returns its handle.
    pub fn new_text(&mut self, text: String) -> (n: NodeId)
        ensures
            final(self)@ == old(self)@.pushed(NodeView::Text(text@)),
            n == old(self)@.len(),
    {
        let mut a = self.take_arena();
        let n = a.new_text(text);
        self.arena = a;
        n
    }

    /// Adds a new comment node holding `text`, without parent, and returns its handle.
    pub fn new_comment(&mut self, text: String) -> (n: NodeId)
        ensures
            final(self)@ == old(self)@.pushed(NodeView::Comment(text@)),
            n == old(self)@.len(),
    {
        let mut a = self.take_arena();
        let n = a.new_comment(text);
        self.arena = a;
        n
    }

    /// Adds a new processing instruction node, without parent, and returns its handle.
    pub fn new_processing_instruction(&mut self, target: String, data: String) -> (n: NodeId)
        ensures
            final(self)@ == old(self)@.pushed(NodeView::ProcessingInstruction(target@, data@)),
            n == old(self)@.len(),
    {
        let mut a = self.take_arena();
        let n = a.new_processing_instruction(target, data);
        self.arena = a;
        n
    }

    /// Adds a new doctype node, without parent, and returns its handle.
    pub fn new_doctype(&mut self, name: String, public_id: String, system_id: String) -> (n: NodeId)
        ensures
            final(self)@ == old(self)@.pushed(NodeView::Doctype(name@, public_id@, system_id@)),
            n == old(self)@.len(),
    {
        let mut a = self.take_arena();
        let n = a.new_doctype(name, public_id, system_id);
        self.arena = a;
        n
    }

    /// Adds a new document fragment node, without parent, and returns its handle.
    pub fn new_document_fragment(&mut self) -> (n: NodeId)
        ensures
            final(self)@ == old(self)@.pushed(NodeView::DocumentFragment),
            n == old(self)@.len(),
    {
        let mut a = self.take_arena();
        let n = a.new_document_fragment();
        self.arena = a;
        n
    }

    /// Adds a new element node named `name`, without parent, holding `attributes` (a later
    /// attribute replacing the value of an earlier one of the same name), and returns its
    /// handle. An HTML `<template>` element gets a new document fragment node as its template
    /// contents, added just before it.
    pub fn new_element(&mut self, name: QualName, attributes: Vec<(ExpandedName, Attribute)>) -> (n: NodeId)
        ensures
            final(self)@ == (if is_html_template(name@) {
                old(self)@.pushed(NodeView::DocumentFragment).pushed(
                    element_view(name@, attributes@, Some(old(self)@.len() as NodeId)),
                )
            } else {
                old(self)@.pushed(element_view(name@, attributes@, None))
            }),
            n == final(self)@.len() - 1,
    {
        let mut a = self.take_arena();
        let n = a.new_element(name, attributes);
        self.arena = a;
        n
    }

    /// The parent of `node`, if any.
    pub fn parent(&self, node: NodeId) -> (r: Option<NodeId>)
        requires
            self@.has(node),
        ensures
            r == self@.parents[node as int],
    {
        proof {
            use_type_invariant(self);
        }
        self.arena.parent(node)
    }

    /// The first child of `node`, if any.
    pub fn first_child(&self, node: NodeId) -> (r: Option<NodeId>)
        requires
            self@.has(node),
        ensures
            r == self@.first_child(node),
    {
        proof {
            use_type_invariant(self);
        }
        self.arena.first_child(node)
    }

    /// The last child of `node`, if any.
    pub fn last_child(&self, node: NodeId) -> (r: Option<NodeId>)
        requires
            self@.has(node),
        ensures
            r == self@.last_child(node),
    {
        proof {
            use_type_invariant(self);
        }
        self.arena.last_child(node)
    }

    /// The sibling just before `node`, if any.
    pub fn previous_sibling(&self, node: NodeId) -> (r: Option<NodeId>)
        requires
            self@.has(node),
        ensures
            r == self@.previous_sibling(node),
    {
        proof {
            use_type_invariant(self);
        }
        self.arena.previous_sibling(node)
    }

    /// The sibling just after `node`, if any.
    pub fn next_sibling(&self, node: NodeId) -> (r: Option<NodeId>)
        requires
            self@.has(node),
        ensures
            r == self@.next_sibling(node),
    {
        proof {
            use_type_invariant(self);
        }
        self.arena.next_sibling(node)
    }

    /// The children of `node`, in order.
    pub fn children(&self, node: NodeId) -> (r: Vec<NodeId>)
        requires
            self@.has(node),
        ensures
            r@ == self@.children[node as int],
    {
        proof {
            use_type_invariant(self);
        }
        self.arena.children(node)
    }

    /// The content of `node`.
    pub fn data(&self, node: NodeId) -> (r: &NodeData)
        requires
            self@.has(node),
        ensures
            r@ == self@.nodes[node as int],
    {
        proof {
            use_type_invariant(self);
        }
        self.arena.data(node)
    }

    /// The text of `node`, if it is a text node; the node afterwards holds what the reference
    /// holds last.
    pub fn text_mut(&mut self, node: NodeId) -> (r: Option<&mut String>)
        requires
            old(self)@.has(node),
        ensures
            r is None <==> !(old(self)@.nodes[node as int] is Text),
            r is None ==> final(self)@ =~= old(self)@,
            r matches Some(t) ==> old(self)@.nodes[node as int] == NodeView::Text(t@)
                && final(self)@ =~= old(self)@.with_node(node, NodeView::Text(final(t)@)),
    {
        proof {
            use_type_invariant(&*self);
        }
        self.arena.text_mut(node)
    }

    /// The attributes of `node`, if it is an element; the element afterwards holds the
    /// attributes that the reference holds last.
    pub fn attributes_mut(&mut self, node: NodeId) -> (r: Option<&mut Attributes>)
        requires
            old(self)@.has(node),
        ensures
            r is None <==> !(old(self)@.nodes[node as int] is Element),
            r is None ==> final(self)@ =~= old(self)@,
            r matches Some(a) ==> old(self)@.nodes[node as int]->attributes == a.entries()
                && final(self)@ =~= old(self)@.with_attributes(node, final(a).entries()),
    {
        proof {
            use_type_invariant(&*self);
        }
        self.arena.attributes_mut(node)
    }

    /// The doctype data of `node`, if it is a doctype; the node afterwards holds what the
    /// reference holds last.
    pub fn doctype_mut(&mut self, node: NodeId) -> (r: Option<&mut Doctype>)
        requires
            old(self)@.has(node),
        ensures
            r is None <==> !(old(self)@.nodes[node as int] is Doctype),
            r is None ==> final(self)@ =~= old(self)@,
            r matches Some(d) ==> old(self)@.nodes[node as int] == NodeView::Doctype(d.name@, d.public_id@, d.system_id@)
                && final(self)@ =~= old(self)@.with_node(node, NodeView::Doctype(final(d).name@, final(d).public_id@, final(d).system_id@)),
    {
        proof {
            use_type_invariant(&*self);
        }
        self.arena.doctype_mut(node)
    }

    /// The number of nodes; the handles of the tree are the numbers below it.
    pub fn len(&self) -> (n: usize)
        ensures
            n == self@.len(),
    {
        self.arena.len()
    }

    /// The handle of the document node.
    pub fn document(&self) -> (n: NodeId)
        ensures
            n == 0,
    {
        0
    }

    /// The quirks mode of the document.
    pub fn quirks_mode(&self) -> (mode: QuirksMode)
        ensures
            self@.nodes[0] == NodeView::Document(mode),
    {
        proof {
            use_type_invariant(self);
        }
        self.arena.quirks_mode()
    }

    /// Sets the quirks mode of the document.
    pub fn set_quirks_mode(&mut self, mode: QuirksMode)
        ensures
            final(self)@ =~= old(self)@.with_node(0, NodeView::Document(mode)),
    {
        let mut a = self.take_arena();
        a.set_quirks_mode(mode);
        self.arena = a;
    }

    /// Moves `new_child` to be the last child of `parent`.
    pub fn append(&mut self, parent: NodeId, new_child: NodeId)
        requires
            old(self)@.has(parent),
            old(self)@.has(new_child),
        ensures
            final(self)@ == old(self)@.appended(parent, new_child),
    {
        let mut a = self.take_arena();
        a.append(parent, new_child);
        self.arena = a;
    }

    /// Moves `new_child` to be the first child of `parent`.
    pub fn prepend(&mut self, parent: NodeId, new_child: NodeId)
        requires
            old(self)@.has(parent),
            old(self)@.has(new_child),
        ensures
            final(self)@ == old(self)@.prepended(parent, new_child),
    {
        let mut a = self.take_arena();
        a.prepend(parent, new_child);
        self.arena = a;
    }

    /// Moves `new_sibling` to be the sibling just before `node`. Where `node` has no parent
    /// (once `new_sibling` is detached), `new_sibling` is only detached.
    pub fn insert_before(&mut self, node: NodeId, new_sibling: NodeId)
        requires
            old(self)@.has(node),
            old(self)@.has(new_sibling),
        ensures
            final(self)@ == old(self)@.inserted_before(node, new_sibling),
    {
        let mut a = self.take_arena();
        a.insert_before(node, new_sibling);
        self.arena = a;
    }

    /// Moves `new_sibling` to be the sibling just after `node`. Where `node` has no parent
    /// (once `new_sibling` is detached), `new_sibling` is only detached.
    pub fn insert_after(&mut self, node: NodeId, new_sibling: NodeId)
        requires
            old(self)@.has(node),
            old(self)@.has(new_sibling),
        ensures
            final(self)@ == old(self)@.inserted_after(node, new_sibling),
    {
        let mut a = self.take_arena();
        a.insert_after(node, new_sibling);
        self.arena = a;
    }
}

} // verus!

verus! {

/// After `detached(n)`, `n` has no parent and is no node's child; every other node keeps its
/// parent.
pub proof fn lemma_detach_unlinks(m: TreeModel, n: NodeId)
    requires
        m.wf(),
        m.has(n),
    ensures
        m.detached(n).parents[n as int] is None,
        forall|x: NodeId| m.has(x) ==> !(#[trigger] m.detached(n).children[x as int]).contains(n),
        forall|x: NodeId| m.has(x) && x != n ==> #[trigger] m.detached(n).parents[x as int] == m.parents[x as int],
{
    let d = m.detached(n);
    assert forall|x: NodeId| m.has(x) implies !(#[trigger] d.children[x as int]).contains(n) by {
        if d.children[x as int].contains(n) {
            let j = choose|j: int| 0 <= j < d.children[x as int].len() && d.children[x as int][j] == n;
            match m.parents[n as int] {
                None => {
                    assert(m.parents[m.children[x as int][j] as int] == Some(x));
                },
                Some(p) => {
                    let k = m.children[p as int].index_of(n);
                    assert(m.children[p as int].contains(n));
                    lemma_index_of_unique(m.children[p as int], k);
                    lemma_remove_keeps_others(m.children[p as int], k);
                    if x == p {
                        assert(d.children[x as int].contains(n));
                    } else {
                        assert(m.parents[m.children[x as int][j] as int] == Some(x));
                    }
                },
            }
        }
    }
}

/// Appending makes `c` the last child of `p`, with `p` as its parent.
pub proof fn lemma_append_links(m: TreeModel, p: NodeId, c: NodeId)
    requires
        m.wf(),
        m.has(p),
        m.has(c),
    ensures
        m.appended(p, c).parents[c as int] == Some(p),
        m.appended(p, c).last_child(p) == Some(c),
        m.appended(p, c).children[p as int] == m.detached(c).children[p as int].push(c),
{
    let d = m.detached(c);
    assert(d.children[p as int].insert(d.children[p as int].len() as int, c) =~= d.children[p as int].push(c));
}

/// Prepending makes `c` the first child of `p`, with `p` as its parent.
pub proof fn lemma_prepend_links(m: TreeModel, p: NodeId, c: NodeId)
    requires
        m.wf(),
        m.has(p),
        m.has(c),
    ensures
        m.prepended(p, c).parents[c as int] == Some(p),
        m.prepended(p, c).first_child(p) == Some(c),
{
    let d = m.detached(c);
    d.children[p as int].insert_ensures(0, c);
}

/// Inserting `n` before `s`, where `s` has a parent other than `n`, makes `n` the sibling just
/// before `s` and `s` the sibling just after `n`, under the same parent.
pub proof fn lemma_insert_before_links(m: TreeModel, s: NodeId, n: NodeId)
    requires
        m.wf(),
        m.has(s),
        m.has(n),
        s != n,
        m.parents[s as int] is Some,
    ensures
        m.inserted_before(s, n).parents[n as int] == m.parents[s as int],
        m.inserted_before(s, n).previous_sibling(s) == Some(n),
        m.inserted_before(s, n).next_sibling(n) == Some(s),
{
    let d = m.detached(n);
    lemma_detach_unlinks(m, n);
    let p = d.parents[s as int]->0;
    assert(d.parents[s as int] == m.parents[s as int]);
    lemma_detach_wf(m, n);
    assert(d.children[p as int].contains(s));
    let kids = d.children[p as int];
    let k = kids.index_of(s);
    lemma_index_of_unique(kids, k);
    let r = d.inserted_child(p, k, n);
    let nk = kids.insert(k, n);
    kids.insert_ensures(k, n);
    assert(nk[k] == n);
    assert(nk[k + 1] == s);
    assert(r.children[p as int] == nk);
    lemma_insert_wf(d, p, k, n);
    lemma_index_of_unique(nk, k + 1);
    lemma_index_of_unique(nk, k);
}

/// Inserting `n` after `s`, where `s` has a parent other than `n`, makes `n` the sibling just
/// after `s` and `s` the sibling just before `n`, under the same parent.
pub proof fn lemma_insert_after_links(m: TreeModel, s: NodeId, n: NodeId)
    requires
        m.wf(),
        m.has(s),
        m.has(n),
        s != n,
        m.parents[s as int] is Some,
    ensures
        m.inserted_after(s, n).parents[n as int] == m.parents[s as int],
        m.inserted_after(s, n).next_sibling(s) == Some(n),
        m.inserted_after(s, n).previous_sibling(n) == Some(s),
{
    let d = m.detached(n);
    lemma_detach_unlinks(m, n);
    let p = d.parents[s as int]->0;
    assert(d.parents[s as int] == m.parents[s as int]);
    lemma_detach_wf(m, n);
    assert(d.children[p as int].contains(s));
    let kids = d.children[p as int];
    let k = kids.index_of(s);
    lemma_index_of_unique(kids, k);
    let r = d.inserted_child(p, k + 1, n);
    let nk = kids.insert(k + 1, n);
    kids.insert_ensures(k + 1, n);
    assert(nk[k] == s);
    assert(nk[k + 1] == n);
    assert(r.children[p as int] == nk);
    lemma_insert_wf(d, p, k + 1, n);
    lemma_index_of_unique(nk, k + 1);
    lemma_index_of_unique(nk, k);
}

} // verus!

verus! {

/// Adding a node keeps a tree well formed.
pub proof fn lemma_pushed_wf(m: TreeModel, v: NodeView)
    requires
        m.wf(),
        m.len() < usize::MAX,
        m.template_ok(v),
    ensures
        m.pushed(v).wf(),
        m.pushed(v).len() == m.len() + 1,
{
    let r = m.pushed(v);
    assert forall|x: NodeId| r.has(x) implies r.template_ok(#[trigger] r.nodes[x as int]) by {
        if x < m.len() {
            assert(m.template_ok(m.nodes[x as int]));
        }
    }
}

/// Moving a node keeps a tree well formed, and keeps its nodes.
pub proof fn lemma_moves_wf(m: TreeModel, p: NodeId, c: NodeId)
    requires
        m.wf(),
        m.has(p),
        m.has(c),
    ensures
        m.detached(c).wf(),
        m.detached(c).nodes == m.nodes,
        m.appended(p, c).wf(),
        m.appended(p, c).nodes == m.nodes,
        m.prepended(p, c).wf(),
        m.prepended(p, c).nodes == m.nodes,
        m.inserted_before(p, c).wf(),
        m.inserted_before(p, c).nodes == m.nodes,
        m.inserted_after(p, c).wf(),
        m.inserted_after(p, c).nodes == m.nodes,
{
    let d = m.detached(c);
    lemma_detach_wf(m, c);
    lemma_detach_unlinks(m, c);
    lemma_insert_wf(d, p, d.children[p as int].len() as int, c);
    lemma_insert_wf(d, p, 0, c);
    match d.parents[p as int] {
        None => {},
        Some(q) => {
            assert(d.children[q as int].contains(p));
            let k = d.children[q as int].index_of(p);
            lemma_index_of_unique(d.children[q as int], k);
            lemma_insert_wf(d, q, k, c);
            lemma_insert_wf(d, q, k + 1, c);
        },
    }
}

} // verus!

verus! {

/// Detaching a node that was just appended gives the same tree as detaching it where it was.
pub proof fn lemma_detach_undoes_append(m: TreeModel, p: NodeId, c: NodeId)
    requires
        m.wf(),
        m.has(p),
        m.has(c),
    ensures
        m.appended(p, c).detached(c) == m.detached(c),
{
    let d = m.detached(c);
    let a = m.appended(p, c);
    lemma_detach_wf(m, c);
    lemma_detach_unlinks(m, c);
    lemma_append_links(m, p, c);
    let kids = a.children[p as int];
    assert(kids == d.children[p as int].push(c));
    let k = kids.len() - 1;
    lemma_moves_wf(m, p, c);
    assert(kids.no_duplicates());
    lemma_index_of_unique(kids, k);
    assert(kids.remove(k) =~= d.children[p as int]);
    assert(a.detached(c).children =~= d.children);
    assert(a.detached(c).parents =~= d.parents);
}

} // verus!

verus! {

/// The siblings of a node are its neighbours among its parent's children: where `n` sits at
/// position `k` among the children of `p`, its previous sibling is the child at `k - 1` (none
/// for the first child) and its next sibling the child at `k + 1` (none for the last child); a
/// node without parent has no siblings. The first and last children are those at the ends.
pub proof fn lemma_siblings_are_neighbours(m: TreeModel, n: NodeId)
    requires
        m.wf(),
        m.has(n),
    ensures
        m.parents[n as int] is None ==> m.previous_sibling(n) is None && m.next_sibling(n) is None,
        forall|p: NodeId, k: int|
            m.parents[n as int] == Some(p) && 0 <= k < m.children[p as int].len()
                && #[trigger] m.children[p as int][k] == n ==> {
                &&& m.previous_sibling(n) == (if k > 0 { Some(m.children[p as int][k - 1]) } else { None::<NodeId> })
                &&& m.next_sibling(n) == (if k + 1 < m.children[p as int].len() {
                    Some(m.children[p as int][k + 1])
                } else {
                    None::<NodeId>
                })
            },
        m.children[n as int].len() == 0 ==> m.first_child(n) is None && m.last_child(n) is None,
        m.children[n as int].len() > 0 ==> m.first_child(n) == Some(m.children[n as int][0])
            && m.last_child(n) == Some(m.children[n as int][m.children[n as int].len() - 1]),
{
    assert forall|p: NodeId, k: int|
        m.parents[n as int] == Some(p) && 0 <= k < m.children[p as int].len()
            && #[trigger] m.children[p as int][k] == n implies m.children[p as int].index_of(n) == k by {
        assert(m.has(p));
        lemma_index_of_unique(m.children[p as int], k);
    }
}

/// Detaching `n` from its parent `p`, where it sits at position `k`, removes it from there and
/// keeps the other children of `p` in their order; `n` is left without parent.
pub proof fn lemma_detach_children(m: TreeModel, n: NodeId)
    requires
        m.wf(),
        m.has(n),
    ensures
        m.detached(n).parents[n as int] is None,
        m.detached(n).nodes == m.nodes,
        forall|p: NodeId, k: int|
            m.parents[n as int] == Some(p) && 0 <= k < m.children[p as int].len()
                && #[trigger] m.children[p as int][k] == n ==>
                m.detached(n).children[p as int] == m.children[p as int].remove(k),
        forall|x: NodeId| m.has(x) && m.parents[n as int] != Some(x) ==>
            #[trigger] m.detached(n).children[x as int] == m.children[x as int],
{
    assert forall|p: NodeId, k: int|
        m.parents[n as int] == Some(p) && 0 <= k < m.children[p as int].len()
            && #[trigger] m.children[p as int][k] == n implies m.detached(n).children[p as int]
            == m.children[p as int].remove(k) by {
        assert(m.has(p));
        lemma_index_of_unique(m.children[p as int], k);
    }
}

/// The children of `p` once `c` is taken out of them: the same children in the same order,
/// less `c` where it was one of them (at position `k`).
proof fn lemma_children_without(m: TreeModel, p: NodeId, c: NodeId)
    requires
        m.wf(),
        m.has(p),
        m.has(c),
    ensures
        !m.children[p as int].contains(c) ==> m.detached(c).children[p as int] == m.children[p as int],
        forall|k: int| 0 <= k < m.children[p as int].len() && #[trigger] m.children[p as int][k] == c
            ==> m.detached(c).children[p as int] == m.children[p as int].remove(k),
{
    lemma_detach_children(m, c);
    if m.children[p as int].contains(c) {
        let j = choose|j: int| 0 <= j < m.children[p as int].len() && m.children[p as int][j] == c;
        assert(m.parents[m.children[p as int][j] as int] == Some(p));
    } else {
        if m.parents[c as int] == Some(p) {
            assert(m.children[p as int].contains(c));
        }
    }
}

/// Prepending `c` to `p` makes the children of `p` be `c` followed by the former children of
/// `p`, less `c` where it was one of them, in their former order; `p` becomes the parent of `c`.
pub proof fn lemma_prepend_children(m: TreeModel, p: NodeId, c: NodeId)
    requires
        m.wf(),
        m.has(p),
        m.has(c),
    ensures
        m.prepended(p, c).parents[c as int] == Some(p),
        !m.children[p as int].contains(c) ==> m.prepended(p, c).children[p as int] == seq![c]
            + m.children[p as int],
        forall|k: int| 0 <= k < m.children[p as int].len() && #[trigger] m.children[p as int][k] == c
            ==> m.prepended(p, c).children[p as int] == seq![c] + m.children[p as int].remove(k),
{
    lemma_children_without(m, p, c);
    let d = m.detached(c);
    assert(d.children[p as int].insert(0, c) =~= seq![c] + d.children[p as int]);
}

/// Appending `c` to `p` makes the children of `p` be the former children of `p`, less `c`
/// where it was one of them, in their former order, followed by `c`; `p` becomes the parent of
/// `c`.
pub proof fn lemma_append_children(m: TreeModel, p: NodeId, c: NodeId)
    requires
        m.wf(),
        m.has(p),
        m.has(c),
    ensures
        m.appended(p, c).parents[c as int] == Some(p),
        !m.children[p as int].contains(c) ==> m.appended(p, c).children[p as int]
            == m.children[p as int].push(c),
        forall|k: int| 0 <= k < m.children[p as int].len() && #[trigger] m.children[p as int][k] == c
            ==> m.appended(p, c).children[p as int] == m.children[p as int].remove(k).push(c),
{
    lemma_children_without(m, p, c);
    let d = m.detached(c);
    assert(d.children[p as int].insert(d.children[p as int].len() as int, c) =~= d.children[p as int].push(c));
}

/// Inserting `n` before `s`, where `s` has the parent `p` and is not `n`: the children of `p`
/// are its former children, less `n` where it was one of them, with `n` put at the position of
/// `s`, just before it; `p` becomes the parent of `n`.
pub proof fn lemma_insert_before_children(m: TreeModel, s: NodeId, n: NodeId, p: NodeId)
    requires
        m.wf(),
        m.has(s),
        m.has(n),
        s != n,
        m.parents[s as int] == Some(p),
    ensures
        m.inserted_before(s, n).parents[n as int] == Some(p),
        !m.children[p as int].contains(n) ==> forall|j: int|
            0 <= j < m.children[p as int].len() && #[trigger] m.children[p as int][j] == s
                ==> m.inserted_before(s, n).children[p as int] == m.children[p as int].insert(j, n),
        forall|k: int, j: int|
            0 <= k < m.children[p as int].len() && m.children[p as int][k] == n
                && 0 <= j < m.children[p as int].len() - 1
                && #[trigger] m.children[p as int].remove(k)[j] == s
                ==> m.inserted_before(s, n).children[p as int] == m.children[p as int].remove(k).insert(j, n),
{
    let d = m.detached(n);
    lemma_detach_wf(m, n);
    lemma_detach_unlinks(m, n);
    lemma_children_without(m, p, n);
    assert(m.has(p));
    assert(d.parents[s as int] == Some(p));
    assert forall|j: int| 0 <= j < d.children[p as int].len() && #[trigger] d.children[p as int][j] == s
        implies d.children[p as int].index_of(s) == j by {
        lemma_index_of_unique(d.children[p as int], j);
    }
}

/// Inserting `n` after `s`, where `s` has the parent `p` and is not `n`: the children of `p`
/// are its former children, less `n` where it was one of them, with `n` put just after `s`;
/// `p` becomes the parent of `n`.
pub proof fn lemma_insert_after_children(m: TreeModel, s: NodeId, n: NodeId, p: NodeId)
    requires
        m.wf(),
        m.has(s),
        m.has(n),
        s != n,
        m.parents[s as int] == Some(p),
    ensures
        m.inserted_after(s, n).parents[n as int] == Some(p),
        !m.children[p as int].contains(n) ==> forall|j: int|
            0 <= j < m.children[p as int].len() && #[trigger] m.children[p as int][j] == s
                ==> m.inserted_after(s, n).children[p as int] == m.children[p as int].insert(j + 1, n),
        forall|k: int, j: int|
            0 <= k < m.children[p as int].len() && m.children[p as int][k] == n
                && 0 <= j < m.children[p as int].len() - 1
                && #[trigger] m.children[p as int].remove(k)[j] == s
                ==> m.inserted_after(s, n).children[p as int] == m.children[p as int].remove(k).insert(j + 1, n),
{
    let d = m.detached(n);
    lemma_detach_wf(m, n);
    lemma_detach_unlinks(m, n);
    lemma_children_without(m, p, n);
    assert(m.has(p));
    assert(d.parents[s as int] == Some(p));
    assert forall|j: int| 0 <= j < d.children[p as int].len() && #[trigger] d.children[p as int][j] == s
        implies d.children[p as int].index_of(s) == j by {
        lemma_index_of_unique(d.children[p as int], j);
    }
}

} // verus!
