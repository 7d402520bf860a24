//! Tsugiki (接ぎ木) is an HTML tree manipulation library.
//!
//! A document is held as a [`Tree`]: an arena of nodes (the document, elements, text,
//! comments, doctypes, processing instructions and document fragments), each addressed by a
//! [`NodeId`], with the operations that move nodes around in it. A [`Sink`] receives the
//! requests of an HTML tree builder and carries them out on a tree; [`ParseOpts`] holds the
//! options of the parser. The attributes of an element are kept in [`Attributes`], an
//! insertion-ordered map keyed by [`ExpandedName`].

pub mod attributes;
pub mod names;
pub mod parser;
pub mod sink;
pub mod tree;

pub use attributes::{Attribute, Attributes, Entry};
pub use names::{ExpandedName, QualName};
pub use parser::{ParseOpts, TokenizerOpts, TreeBuilderOpts};
pub use sink::{NodeOrText, ParsedAttribute, Sink};
pub use tree::{Doctype, ElementData, NodeData, NodeId, QuirksMode, Tree};
