//! Options for the HTML parser.
use crate::tree::QuirksMode;
use vstd::prelude::*;

verus! {

/// Options for the HTML tokenizer.
#[derive(Clone, Copy, PartialEq, Eq, Structural, Debug)]
pub struct TokenizerOpts {
    /// Report all parse errors that the HTML standard describes, at some performance penalty?
    pub exact_errors: bool,
    /// Discard a `U+FEFF BYTE ORDER MARK` if we see one at the beginning of the stream?
    pub discard_bom: bool,
    /// Keep a record of how long we spent in each state?
    pub profile: bool,
}

/// Options for the HTML tree builder.
#[derive(Clone, Copy, PartialEq, Eq, Structural, Debug)]
pub struct TreeBuilderOpts {
    /// Report all parse errors that the HTML standard describes, at some performance penalty?
    pub exact_errors: bool,
    /// Is scripting enabled?
    pub scripting_enabled: bool,
    /// Is this document being parsed from the `srcdoc` attribute of an `<iframe>` element?
    pub iframe_srcdoc: bool,
    /// Should we drop the DOCTYPE (if any) from the tree?
    pub drop_doctype: bool,
    /// Initial quirks mode of the tree builder.
    pub quirks_mode: QuirksMode,
}

/// The options, with the parse error handlers in the order they were added.
pub struct ParseOptsView<H> {
    pub tokenizer: TokenizerOpts,
    pub tree_builder: TreeBuilderOpts,
    pub on_parse_error: Seq<H>,
}

/// Options for the HTML parser, with handlers of type `H` for parse errors.
#[derive(Clone)]
pub struct ParseOpts<H> {
    /// Options for the HTML tokenizer.
    tokenizer: TokenizerOpts,
    /// Options for the HTML tree builder.
    tree_builder: TreeBuilderOpts,
    /// The handlers for HTML parse errors (which are never fatal).
    on_parse_error: Vec<H>,
}

impl<H> View for ParseOpts<H> {
    type V = ParseOptsView<H>;

    closed spec fn view(&self) -> ParseOptsView<H> {
        ParseOptsView {
            tokenizer: self.tokenizer,
            tree_builder: self.tree_builder,
            on_parse_error: self.on_parse_error@,
        }
    }
}

impl<H> Default for ParseOpts<H> {
    /// Default options: no exact errors, the byte order mark discarded, scripting enabled, no
    /// `srcdoc` iframe, the doctype kept, no quirks, no profiling, no handlers.
    fn default() -> (opts: Self)
        ensures
            opts@ == (ParseOptsView {
                tokenizer: TokenizerOpts { exact_errors: false, discard_bom: true, profile: false },
                tree_builder: TreeBuilderOpts {
                    exact_errors: false,
                    scripting_enabled: true,
                    iframe_srcdoc: false,
                    drop_doctype: false,
                    quirks_mode: QuirksMode::NoQuirks,
                },
                on_parse_error: Seq::<H>::empty(),
            }),
    {
        ParseOpts {
            tokenizer: TokenizerOpts { exact_errors: false, discard_bom: true, profile: false },
            tree_builder: TreeBuilderOpts {
                exact_errors: false,
                scripting_enabled: true,
                iframe_srcdoc: false,
                drop_doctype: false,
                quirks_mode: QuirksMode::NoQuirks,
            },
            on_parse_error: Vec::new(),
        }
    }
}

impl<H> ParseOpts<H> {
    /// Whether to report all parse errors defined by the HTML standard, at moderate
    /// performance cost. Sets it for both the tokenizer and the tree builder.
    ///
    /// By default, this is set to `false`.
    pub fn exact_errors(self, value: bool) -> (opts: Self)
        ensures
            opts@ == (ParseOptsView {
                tokenizer: TokenizerOpts { exact_errors: value, ..self@.tokenizer },
                tree_builder: TreeBuilderOpts { exact_errors: value, ..self@.tree_builder },
                on_parse_error: self@.on_parse_error,
            }),
    {
        let mut opts = self;
        opts.tokenizer.exact_errors = value;
        opts.tree_builder.exact_errors = value;
        opts
    }

    /// Whether to discard a `U+FEFF BYTE ORDER MARK` codepoint at the start of the stream.
    ///
    /// By default, this is set to `true`.
    pub fn discard_bom(self, value: bool) -> (opts: Self)
        ensures
            opts@ == (ParseOptsView {
                tokenizer: TokenizerOpts { discard_bom: value, ..self@.tokenizer },
                ..self@
            }),
    {
        let mut opts = self;
        opts.tokenizer.discard_bom = value;
        opts
    }

    /// Controls whether the parser should assume that scripting is enabled.
    ///
    /// * If scripting is enabled then the contents of a `<noscript>` element are parsed as a
    ///   single text node.
    /// * If scripting is not enabled then the contents of a `<noscript>` element are parsed as a
    ///   normal tree of nodes.
    ///
    /// By default, this is set to `true`.
    pub fn scripting_enabled(self, value: bool) -> (opts: Self)
        ensures
            opts@ == (ParseOptsView {
                tree_builder: TreeBuilderOpts { scripting_enabled: value, ..self@.tree_builder },
                ..self@
            }),
    {
        let mut opts = self;
        opts.tree_builder.scripting_enabled = value;
        opts
    }

    /// Adds a hook to be called when an error occurs.
    ///
    /// When called multiple times, all provided hook functions are called and previous values do
    /// not override new values.
    pub fn parse_error_handler(self, handler: H) -> (opts: Self)
        ensures
            opts@ == (ParseOptsView { on_parse_error: self@.on_parse_error.push(handler), ..self@ }),
    {
        let mut opts = self;
        opts.on_parse_error.push(handler);
        opts
    }

    /// The options of the tokenizer.
    pub fn tokenizer(&self) -> (opts: TokenizerOpts)
        ensures
            opts == self@.tokenizer,
    {
        self.tokenizer
    }

    /// The options of the tree builder.
    pub fn tree_builder(&self) -> (opts: TreeBuilderOpts)
        ensures
            opts == self@.tree_builder,
    {
        self.tree_builder
    }

    /// The parse error handlers, in the order they were added.
    pub fn on_parse_error(&self) -> (handlers: &Vec<H>)
        ensures
            handlers@ == self@.on_parse_error,
    {
        &self.on_parse_error
    }
}

} // verus!
