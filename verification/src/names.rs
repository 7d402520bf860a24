//! Qualified and expanded names of elements and attributes.
use vstd::prelude::*;

verus! {

/// A fully qualified name (with a namespace), used to depict names of tags and attributes.
///
/// Namespaces can be used to differentiate between different XML schemas that share tags with
/// the same name. The `<furn:table>` tag of `<furn:table xmlns:furn="https://furniture.example.com">`
/// has the prefix `furn`, which resolves to the namespace URL `https://furniture.example.com`,
/// and the local name `table`.
#[derive(PartialEq, Eq, PartialOrd, Ord, Hash, Debug, Clone)]
pub struct QualName {
    /// The prefix of the qualified name (e.g. `furn`), if any.
    pub prefix: Option<String>,
    /// The namespace URL after resolution (e.g. `https://furniture.example.com`).
    pub ns: String,
    /// The local name (e.g. `table`).
    pub local: String,
}

/// An expanded tag name, containing only the namespace URL and local name.
///
/// This is the fully resolved form of an XML or HTML tag name, as the prefix is arbitrary and can
/// be set differently in each document.
#[derive(PartialEq, Eq, PartialOrd, Ord, Hash, Debug, Clone)]
pub struct ExpandedName {
    /// The namespace URL of the tag.
    pub ns: String,
    /// The local name of the tag.
    pub local: String,
}

/// The text of a name: its namespace URL and its local name.
pub type NameView = (Seq<char>, Seq<char>);

impl View for ExpandedName {
    type V = NameView;

    open spec fn view(&self) -> NameView {
        (self.ns@, self.local@)
    }
}

/// The text of a qualified name: its prefix, if any, its namespace URL and its local name.
pub type QualNameView = (Option<Seq<char>>, Seq<char>, Seq<char>);

impl View for QualName {
    type V = QualNameView;

    open spec fn view(&self) -> QualNameView {
        (self.prefix_view(), self.ns@, self.local@)
    }
}

impl QualName {
    /// The prefix of a qualified name as text, if it has one.
    pub open spec fn prefix_view(self) -> Option<Seq<char>> {
        match self.prefix {
            Some(p) => Some(p@),
            None => None,
        }
    }

    /// Constructs a qualified element name with no prefix.
    pub fn new(ns: &str, local: &str) -> (name: QualName)
        ensures
            name.prefix is None,
            name.ns@ == ns@,
            name.local@ == local@,
    {
        QualName { prefix: None, ns: ns.to_owned(), local: local.to_owned() }
    }

    /// Constructs a qualified element name with an explicit prefix.
    pub fn new_prefixed(prefix: &str, ns: &str, local: &str) -> (name: QualName)
        ensures
            name.prefix_view() == Some(prefix@),
            name.ns@ == ns@,
            name.local@ == local@,
    {
        QualName { prefix: Some(prefix.to_owned()), ns: ns.to_owned(), local: local.to_owned() }
    }

    /// The expanded name of `self`, dropping the unresolved prefix.
    ///
    /// In XML and HTML, prefixes are only used to extract the relevant namespace URI. Expanded
    /// names only contain the resolved namespace and tag name.
    pub fn expanded(&self) -> (name: ExpandedName)
        ensures
            name.ns@ == self.ns@,
            name.local@ == self.local@,
    {
        ExpandedName { ns: self.ns.clone(), local: self.local.clone() }
    }
}

impl ExpandedName {
    /// Create a new expanded name.
    pub fn new(ns: &str, local: &str) -> (name: ExpandedName)
        ensures
            name.ns@ == ns@,
            name.local@ == local@,
    {
        ExpandedName { ns: ns.to_owned(), local: local.to_owned() }
    }
}

} // verus!
