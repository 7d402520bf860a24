use tsugiki::{ParseOpts, QuirksMode, TokenizerOpts, TreeBuilderOpts};

#[test]
fn default_options() {
    let opts: ParseOpts<u8> = ParseOpts::default();
    assert_eq!(
        opts.tokenizer(),
        TokenizerOpts {
            exact_errors: false,
            discard_bom: true,
            profile: false,
        }
    );
    assert_eq!(
        opts.tree_builder(),
        TreeBuilderOpts {
            exact_errors: false,
            scripting_enabled: true,
            iframe_srcdoc: false,
            drop_doctype: false,
            quirks_mode: QuirksMode::NoQuirks,
        }
    );
    assert!(opts.on_parse_error().is_empty());
}

#[test]
fn builders_set_only_their_option() {
    let opts: ParseOpts<u8> = ParseOpts::default().exact_errors(true);
    assert!(opts.tokenizer().exact_errors);
    assert!(opts.tree_builder().exact_errors);
    assert!(opts.tokenizer().discard_bom);
    let opts = opts.discard_bom(false);
    assert!(!opts.tokenizer().discard_bom);
    assert!(opts.tokenizer().exact_errors);
    let opts = opts.scripting_enabled(false);
    assert!(!opts.tree_builder().scripting_enabled);
    assert!(opts.tree_builder().exact_errors);
}

#[test]
fn error_handlers_accumulate_in_order() {
    let opts: ParseOpts<u8> = ParseOpts::default().parse_error_handler(1).parse_error_handler(2);
    assert_eq!(opts.on_parse_error(), &vec![1, 2]);
}
