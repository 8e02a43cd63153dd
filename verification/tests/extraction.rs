use symbol_extract::{extract_symbols, extract_symbols_with, my_func, ExtractionError};
use symbol_extract::profile::{rust_profile, Registry, SymbolKind};
use symbol_extract::records::SymbolRecord;

fn fixture() -> String {
    let mut s = String::new();
    s.push_str("// Simple Rust test file for symbol extraction\n");
    s.push_str("/// Test module docstring\n");
    s.push_str("pub mod test_mod {\n");
    s.push_str("    /// Test function docstring\n");
    s.push_str("    pub fn my_func(param: &str) -> String {\n");
    s.push_str("        format!(\"Hello, {}!\", param)\n");
    s.push_str("    }\n");
    s.push_str("}\n");
    s.push_str("\n");
    s.push_str("fn main() {\n");
    s.push_str("    let result = test_mod::my_func(\"World\");\n");
    s.push_str("    println!(\"{}\", result);\n");
    s.push_str("}\n");
    s
}

#[test]
fn fixture_yields_three_records() {
    let recs = extract_symbols(&fixture(), "rust").unwrap();
    assert_eq!(recs.len(), 3);

    assert_eq!(recs[0].qualified_name, "test_mod");
    assert_eq!(recs[0].kind, SymbolKind::Module);
    assert_eq!(recs[0].doc.as_deref(), Some("Test module docstring"));
    assert_eq!(recs[0].depth, 0);

    assert_eq!(recs[1].qualified_name, "test_mod::my_func");
    assert_eq!(recs[1].kind, SymbolKind::Function);
    assert_eq!(recs[1].doc.as_deref(), Some("Test function docstring"));
    assert_eq!(recs[1].depth, 1);

    assert_eq!(recs[2].qualified_name, "main");
    assert_eq!(recs[2].kind, SymbolKind::Function);
    assert_eq!(recs[2].doc, None);
    assert_eq!(recs[2].depth, 0);
}

#[test]
fn fixture_lines_and_columns() {
    let recs = extract_symbols(&fixture(), "rust").unwrap();
    // zero-based lines and columns, spans starting at the `pub`/`fn` opener
    assert_eq!((recs[0].start_line, recs[0].start_col), (2, 0));
    assert_eq!((recs[0].end_line, recs[0].end_col), (7, 1));
    assert_eq!((recs[1].start_line, recs[1].start_col), (4, 4));
    assert_eq!((recs[1].end_line, recs[1].end_col), (6, 5));
    assert_eq!((recs[2].start_line, recs[2].start_col), (9, 0));
    assert_eq!((recs[2].end_line, recs[2].end_col), (12, 1));
}

#[test]
fn output_is_source_ordered() {
    let recs = extract_symbols(&fixture(), "rust").unwrap();
    for w in recs.windows(2) {
        assert!(w[0].start_offset <= w[1].start_offset);
    }
}

#[test]
fn extraction_is_idempotent_on_fixture() {
    let a = extract_symbols(&fixture(), "rust").unwrap();
    let b = extract_symbols(&fixture(), "rust").unwrap();
    assert_eq!(a, b);
}

#[test]
fn unsupported_language_is_rejected() {
    let r = extract_symbols("anything", "no-such-lang");
    assert_eq!(r, Err(ExtractionError::UnsupportedLanguage));
}

#[test]
fn unterminated_string_reports_opening_quote() {
    let r = extract_symbols("let s = \"unterminated", "rust");
    assert_eq!(r, Err(ExtractionError::MalformedInput { offset: 8 }));
}

#[test]
fn unterminated_block_comment_reports_opening() {
    let r = extract_symbols("fn f() {}\n/* never closed", "rust");
    assert_eq!(r, Err(ExtractionError::MalformedInput { offset: 10 }));
}

#[test]
fn empty_source_yields_empty_table() {
    let recs = extract_symbols("", "rust").unwrap();
    assert!(recs.is_empty());
}

#[test]
fn source_without_declarations_yields_empty_table() {
    let recs = extract_symbols("let x = 1 + 2;\n// just a comment\n", "rust").unwrap();
    assert!(recs.is_empty());
}

#[test]
fn unbalanced_braces_close_at_end_of_input() {
    let src = "mod a {\n    fn b() {\n";
    let recs = extract_symbols(src, "rust").unwrap();
    assert_eq!(recs.len(), 2);
    assert_eq!(recs[0].qualified_name, "a");
    assert_eq!(recs[1].qualified_name, "a::b");
    assert_eq!(recs[0].end_offset, src.len());
    assert_eq!(recs[1].end_offset, src.len());
}

#[test]
fn nested_modules_join_names_with_separator() {
    let recs = extract_symbols("mod a { mod b { fn c() {} } }", "rust").unwrap();
    assert_eq!(recs.len(), 3);
    assert_eq!(recs[0].qualified_name, "a");
    assert_eq!(recs[1].qualified_name, "a::b");
    assert_eq!(recs[2].qualified_name, "a::b::c");
    assert_eq!(recs[0].depth, 0);
    assert_eq!(recs[1].depth, 1);
    assert_eq!(recs[2].depth, 2);
}

#[test]
fn trait_with_method_signature() {
    let recs = extract_symbols("trait T { fn m(&self); }", "rust").unwrap();
    assert_eq!(recs.len(), 2);
    assert_eq!(recs[0].qualified_name, "T");
    assert_eq!(recs[0].kind, SymbolKind::Type);
    assert_eq!(recs[1].qualified_name, "T::m");
    assert_eq!(recs[1].kind, SymbolKind::Function);
}

#[test]
fn leaf_declarations_end_at_semicolon() {
    let recs = extract_symbols("struct P;\ntype X = i32;", "rust").unwrap();
    assert_eq!(recs.len(), 2);
    assert_eq!(recs[0].qualified_name, "P");
    assert_eq!(recs[0].kind, SymbolKind::Type);
    assert_eq!(recs[0].end_offset, 9);
    assert_eq!(recs[1].qualified_name, "X");
    assert_eq!(recs[1].kind, SymbolKind::Type);
}

#[test]
fn keyword_without_name_degrades_to_other() {
    let recs = extract_symbols("fn", "rust").unwrap();
    assert_eq!(recs.len(), 1);
    assert_eq!(recs[0].qualified_name, "");
    assert_eq!(recs[0].kind, SymbolKind::Other);
}

#[test]
fn ordinary_comments_never_attach() {
    let recs = extract_symbols("// plain comment\nfn f() {}", "rust").unwrap();
    assert_eq!(recs.len(), 1);
    assert_eq!(recs[0].doc, None);
}

#[test]
fn doc_attaches_across_ordinary_comments() {
    let recs = extract_symbols("/// the doc\n// noise\n/* more */ fn f() {}", "rust").unwrap();
    assert_eq!(recs.len(), 1);
    assert_eq!(recs[0].doc.as_deref(), Some("the doc"));
}

#[test]
fn doc_does_not_attach_across_code() {
    let recs = extract_symbols("/// orphan\nlet x = 1;\nfn f() {}", "rust").unwrap();
    assert_eq!(recs.len(), 1);
    assert_eq!(recs[0].qualified_name, "f");
    assert_eq!(recs[0].doc, None);
}

#[test]
fn multi_line_doc_joins_with_newlines() {
    let recs = extract_symbols("/// first\n/// second\nfn f() {}", "rust").unwrap();
    assert_eq!(recs[0].doc.as_deref(), Some("first\nsecond"));
}

#[test]
fn doc_marker_stripping_keeps_text_without_space() {
    let recs = extract_symbols("///no space\nfn f() {}", "rust").unwrap();
    assert_eq!(recs[0].doc.as_deref(), Some("no space"));
}

#[test]
fn braces_inside_literals_do_not_nest() {
    let recs = extract_symbols("fn f() { let c = '}'; let s = \"}\"; }\nfn g() {}", "rust")
        .unwrap();
    assert_eq!(recs.len(), 2);
    assert_eq!(recs[0].qualified_name, "f");
    assert_eq!(recs[0].depth, 0);
    assert_eq!(recs[1].qualified_name, "g");
    assert_eq!(recs[1].depth, 0);
}

#[test]
fn string_escapes_are_honoured() {
    let recs = extract_symbols("fn f() { let s = \"a\\\"}{b\"; }", "rust").unwrap();
    assert_eq!(recs.len(), 1);
    assert_eq!(recs[0].depth, 0);
}

#[test]
fn comment_looking_text_inside_string_is_not_a_comment() {
    let recs = extract_symbols("fn f() { let s = \"// not /* a comment\"; }", "rust").unwrap();
    assert_eq!(recs.len(), 1);
    assert_eq!(recs[0].qualified_name, "f");
}

#[test]
fn anonymous_blocks_do_not_add_depth() {
    let recs = extract_symbols("fn f() { if x { let y = 1; } }", "rust").unwrap();
    assert_eq!(recs.len(), 1);
    assert_eq!(recs[0].depth, 0);
}

#[test]
fn empty_registry_supports_nothing() {
    let reg = Registry::new();
    let r = extract_symbols_with(&reg, "fn f() {}", "rust");
    assert_eq!(r, Err(ExtractionError::UnsupportedLanguage));
}

#[test]
fn custom_registry_resolves_registered_profile() {
    let mut reg = Registry::new();
    reg.register(rust_profile());
    let recs = extract_symbols_with(&reg, "fn f() {}", "rust").unwrap();
    assert_eq!(recs.len(), 1);
    assert_eq!(recs[0].qualified_name, "f");
}

#[test]
fn records_expose_spans() {
    let recs = extract_symbols("fn f() {}", "rust").unwrap();
    let r: &SymbolRecord = &recs[0];
    assert_eq!(r.start_offset, 0);
    assert_eq!(r.end_offset, 9);
    assert_eq!((r.start_line, r.start_col), (0, 0));
    assert_eq!((r.end_line, r.end_col), (0, 9));
}

#[test]
fn my_func_greets() {
    assert_eq!(my_func("World"), "Hello, World!");
    assert_eq!(my_func(""), "Hello, !");
}

#[test]
fn every_prefix_extracts_without_panic() {
    // truncated, in-progress source must degrade gracefully: each prefix
    // either yields a table or reports an unterminated literal
    let src = fixture();
    for n in 0..=src.len() {
        match extract_symbols(&src[..n], "rust") {
            Ok(recs) => assert!(recs.len() <= 3),
            Err(ExtractionError::MalformedInput { offset }) => assert!(offset < n),
            Err(ExtractionError::UnsupportedLanguage) => panic!("language is registered"),
        }
    }
}

#[test]
fn nearest_doc_block_wins() {
    let recs = extract_symbols("/// far\n// noise\n/// near\nfn f() {}", "rust").unwrap();
    assert_eq!(recs.len(), 1);
    assert_eq!(recs[0].doc.as_deref(), Some("near"));
}

#[test]
fn grouped_modifiers_open_a_declaration() {
    let recs = extract_symbols("/// doc\npub(crate) fn f() {}", "rust").unwrap();
    assert_eq!(recs.len(), 1);
    assert_eq!(recs[0].qualified_name, "f");
    assert_eq!(recs[0].kind, SymbolKind::Function);
    assert_eq!(recs[0].doc.as_deref(), Some("doc"));
}

#[test]
fn enum_variants_are_not_symbols() {
    let recs = extract_symbols("enum E { A, B }", "rust").unwrap();
    assert_eq!(recs.len(), 1);
    assert_eq!(recs[0].qualified_name, "E");
    assert_eq!(recs[0].kind, SymbolKind::Type);
}
