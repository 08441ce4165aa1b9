use protobuf::Message;
use makefile_lsp::scip::{
    build_document, build_index, byte_offset_to_line_col, byte_range_to_scip, byte_span_to_scip,
    find_word, find_words, is_word_byte, scan_variable_references, target_symbol, variable_symbol,
    Document, Severity, SourceFile, SymbolKind, SyntaxKind, TextEncoding, SYMBOL_ROLE_DEFINITION,
};

fn src_file(relative_path: &str, text: &str) -> SourceFile {
    SourceFile {
        relative_path: relative_path.to_string(),
        text: text.to_string(),
        base_dir: None,
    }
}

fn is_def(roles: i32) -> bool {
    roles & SYMBOL_ROLE_DEFINITION != 0
}

fn occ_symbols(doc: &Document) -> Vec<(&str, &Vec<i32>, bool)> {
    doc.occurrences
        .iter()
        .map(|o| (o.symbol.as_str(), &o.range, is_def(o.symbol_roles)))
        .collect()
}

/// The documentation attached to the symbol that `name` resolves to.
fn doc_for(doc: &Document, name: &str) -> Option<String> {
    doc.symbols
        .iter()
        .find(|s| s.display_name == name)
        .map(|s| s.documentation.join(""))
}

#[test]
fn test_target_definition_and_reference() {
    let text = "all: build\n\nbuild:\n\techo ok\n";
    let doc = build_document("Makefile", text);
    let all = target_symbol("all");
    let build = target_symbol("build");
    assert!(doc
        .occurrences
        .iter()
        .any(|o| o.symbol == all && o.range == vec![0, 0, 0, 3] && is_def(o.symbol_roles)));
    assert!(doc
        .occurrences
        .iter()
        .any(|o| o.symbol == build && o.range == vec![0, 5, 0, 10] && !is_def(o.symbol_roles)));
    assert!(doc
        .occurrences
        .iter()
        .any(|o| o.symbol == build && o.range == vec![2, 0, 2, 5] && is_def(o.symbol_roles)));
}

#[test]
fn test_variable_definition_and_reference() {
    let text = "CC = gcc\nall:\n\t$(CC) main.c\n";
    let doc = build_document("Makefile", text);
    let cc = variable_symbol("CC");
    assert!(doc
        .occurrences
        .iter()
        .any(|o| o.symbol == cc && o.range == vec![0, 0, 0, 2] && is_def(o.symbol_roles)));
    assert!(doc
        .occurrences
        .iter()
        .any(|o| o.symbol == cc && o.range == vec![2, 3, 2, 5] && !is_def(o.symbol_roles)));
}

#[test]
fn test_occurrence_syntax_kinds() {
    let text = "CC = gcc\nall: build\n\t$(CC) x.c\nbuild:\n\techo hi\n";
    let doc = build_document("Makefile", text);
    let cc = variable_symbol("CC");
    let all = target_symbol("all");
    let build = target_symbol("build");
    let kind = |sym: &str, def: bool| {
        doc.occurrences
            .iter()
            .find(|o| o.symbol == sym && is_def(o.symbol_roles) == def)
            .unwrap()
            .syntax_kind
            .unwrap()
    };
    assert_eq!(kind(&all, true), SyntaxKind::IdentifierFunctionDefinition);
    assert_eq!(kind(&build, true), SyntaxKind::IdentifierFunctionDefinition);
    assert_eq!(kind(&build, false), SyntaxKind::IdentifierFunction);
    assert_eq!(kind(&cc, true), SyntaxKind::IdentifierMutableGlobal);
    assert_eq!(kind(&cc, false), SyntaxKind::IdentifierMutableGlobal);
}

#[test]
fn test_symbol_table_lists_definitions() {
    let text = "CC = gcc\n\nall: build\n\techo ok\n";
    let doc = build_document("Makefile", text);
    let names: Vec<&str> = doc.symbols.iter().map(|s| s.display_name.as_str()).collect();
    assert!(names.contains(&"CC"));
    assert!(names.contains(&"all"));
    let cc = doc.symbols.iter().find(|s| s.display_name == "CC").unwrap();
    assert_eq!(cc.kind, SymbolKind::Variable);
    let all = doc.symbols.iter().find(|s| s.display_name == "all").unwrap();
    assert_eq!(all.kind, SymbolKind::Function);
}

#[test]
fn test_special_target_documentation() {
    let text = "all: build\n\techo ok\nbuild:\n\techo b\n.PHONY: all\n";
    let doc = build_document("Makefile", text);
    let phony = doc.symbols.iter().find(|s| s.display_name == ".PHONY").unwrap();
    assert_eq!(
        phony.documentation,
        vec!["Declare targets that do not represent files.".to_string()]
    );
}

#[test]
fn test_automatic_variable_documentation() {
    let text = "all:\n\t$(CC) -o $@ $<\n";
    let doc = build_document("Makefile", text);
    assert_eq!(
        doc_for(&doc, "@").as_deref(),
        Some("The file name of the target of the rule.")
    );
    assert_eq!(
        doc_for(&doc, "<").as_deref(),
        Some("The name of the first prerequisite.")
    );
    let at = variable_symbol("@");
    assert!(doc.occurrences.iter().any(|o| o.symbol == at));
}

#[test]
fn automatic_variable_variant_in_table_is_documented() {
    let text = "all:\n\techo $(@D)\n";
    let doc = build_document("Makefile", text);
    assert_eq!(
        doc_for(&doc, "@D").as_deref(),
        Some("The directory part of `$@`.")
    );
}

#[test]
fn test_unknown_single_char_not_documented() {
    let text = "all:\n\techo $$HOME $x\n";
    let doc = build_document("Makefile", text);
    assert!(doc_for(&doc, "$").is_none());
    assert!(doc_for(&doc, "x").is_none());
}

#[test]
fn test_nested_automatic_variable_documented() {
    let text = "all:\n\techo $(dir $@)\n";
    let doc = build_document("Makefile", text);
    assert_eq!(
        doc_for(&doc, "@").as_deref(),
        Some("The file name of the target of the rule.")
    );
    let at = variable_symbol("@");
    assert!(doc.occurrences.iter().any(|o| o.symbol == at));
}

#[test]
fn test_nested_user_variable_referenced() {
    let text = "SRC = a.c\nall:\n\techo $(notdir $(SRC))\n";
    let doc = build_document("Makefile", text);
    let src = variable_symbol("SRC");
    let refs = doc
        .occurrences
        .iter()
        .filter(|o| o.symbol == src && !is_def(o.symbol_roles))
        .count();
    assert_eq!(refs, 1);
}

#[test]
fn test_comment_variable_not_documented() {
    let text = "# see $(MAKE) docs\nall:\n\techo done\n";
    let doc = build_document("Makefile", text);
    assert!(doc_for(&doc, "MAKE").is_none());
    let make = variable_symbol("MAKE");
    assert!(!doc.occurrences.iter().any(|o| o.symbol == make));
}

#[test]
fn test_user_symbols_have_no_documentation() {
    let text = "FOO = bar\nall: build\n\techo ok\nbuild:\n\techo b\n";
    let doc = build_document("Makefile", text);
    for name in ["FOO", "all", "build"] {
        let sym = doc.symbols.iter().find(|s| s.display_name == name).unwrap();
        assert!(sym.documentation.is_empty(), "{name} should have no documentation");
    }
}

#[test]
fn test_brace_variable_reference() {
    let text = "CC = gcc\nall:\n\t${CC} main.c\n";
    let doc = build_document("Makefile", text);
    let cc = variable_symbol("CC");
    assert!(doc
        .occurrences
        .iter()
        .any(|o| o.symbol == cc && o.range == vec![2, 3, 2, 5] && !is_def(o.symbol_roles)));
}

#[test]
fn test_multiple_variable_uses() {
    let text = "CC = gcc\nall:\n\t$(CC) a.c\nclean:\n\t$(CC) --version\n";
    let doc = build_document("Makefile", text);
    let cc = variable_symbol("CC");
    let uses = occ_symbols(&doc)
        .into_iter()
        .filter(|(s, _, def)| *s == cc && !*def)
        .count();
    assert_eq!(uses, 2);
}

#[test]
fn test_index_metadata() {
    let files = vec![src_file("Makefile", "all:\n\techo hi\n")];
    let index = build_index("file:///project", &files);
    let metadata = &index.metadata;
    assert_eq!(metadata.project_root, "file:///project");
    assert_eq!(metadata.text_document_encoding, TextEncoding::UTF8);
    assert_eq!(metadata.tool_info.name, "makefile-lsp");
    assert_eq!(index.documents.len(), 1);
}

#[test]
fn test_target_symbol_format() {
    assert_eq!(target_symbol("all"), "scip-makefile . . . all/");
    assert_eq!(variable_symbol("CC"), "scip-makefile . . . CC.");
}

#[test]
fn symbols_with_other_characters_are_escaped() {
    assert_eq!(target_symbol("%.o"), "scip-makefile . . . `%.o`/");
    assert_eq!(variable_symbol("a`b"), "scip-makefile . . . `a``b`.");
}

#[test]
fn test_no_symbols_empty_makefile() {
    let doc = build_document("Makefile", "");
    assert!(doc.occurrences.is_empty());
    assert!(doc.symbols.is_empty());
}

fn diags(doc: &Document) -> Vec<(&Vec<i32>, &makefile_lsp::scip::Diagnostic)> {
    doc.occurrences
        .iter()
        .filter(|o| o.symbol.is_empty())
        .flat_map(|o| o.diagnostics.iter().map(move |d| (&o.range, d)))
        .collect()
}

#[test]
fn test_diagnostic_in_occurrence() {
    let doc = build_document("Makefile", "CFLAGS = $(MISSING) -Wall\n");
    let found = diags(&doc);
    assert_eq!(found.len(), 1);
    let (range, diag) = found[0];
    assert_eq!(*range, vec![0, 9, 0, 19]);
    assert_eq!(diag.code, "undefined-variable");
    assert_eq!(diag.severity, Severity::Warning);
    assert_eq!(diag.source, "makefile-lsp");
    assert_eq!(diag.message, "variable 'MISSING' is not defined");
}

#[test]
fn test_no_diagnostics_for_clean_makefile() {
    let doc = build_document("Makefile", "all: build\n\techo done\nbuild:\n\techo b\n");
    assert!(diags(&doc).is_empty());
}

#[test]
fn occurrences_are_sorted_and_unique() {
    let doc = build_document("Makefile", "all: a a\na:\n\techo $(X) $(X)\nX = 1\n");
    let keys: Vec<(Vec<i32>, String)> = doc
        .occurrences
        .iter()
        .filter(|o| !o.symbol.is_empty())
        .map(|o| (o.range.clone(), o.symbol.clone()))
        .collect();
    let mut sorted = keys.clone();
    sorted.sort();
    sorted.dedup();
    assert_eq!(keys, sorted);
}

#[test]
fn find_words_whole_words_only() {
    assert_eq!(find_words("foo foobar foo_x foo", "foo"), vec![0, 17]);
    assert_eq!(find_words("aaaa", "aa"), Vec::<usize>::new());
    assert_eq!(find_words("a-b a", "a"), vec![0, 4]);
    assert_eq!(find_words("abc", ""), Vec::<usize>::new());
    assert_eq!(find_word("x build build", "build"), Some(2));
    assert_eq!(find_word("builder", "build"), None);
    assert!(is_word_byte(b'_'));
    assert!(!is_word_byte(b'-'));
}

#[test]
fn line_columns_are_bytes_from_line_start() {
    let text = "ab\nc\u{e9}d\n";
    assert_eq!(byte_offset_to_line_col(text, 0), (0, 0));
    assert_eq!(byte_offset_to_line_col(text, 3), (1, 0));
    assert_eq!(byte_offset_to_line_col(text, 6), (1, 3));
    assert_eq!(byte_offset_to_line_col(text, 100), (2, 92));
    assert_eq!(byte_range_to_scip(text, 3, 2), vec![1, 0, 1, 2]);
    assert_eq!(byte_span_to_scip(text, 1, 4), vec![0, 1, 1, 1]);
}

#[test]
fn scan_finds_nested_and_automatic_references() {
    let text = "X = $(dir $@) ${Y} $$Z # $(C)\n\t# $(R) $\u{e9}";
    let refs: Vec<(&str, usize)> = scan_variable_references(text)
        .iter()
        .map(|r| (r.name, r.name_start))
        .collect();
    assert_eq!(
        refs,
        vec![("dir", 6), ("@", 11), ("Y", 16), ("R", 35), ("\u{e9}", 39)]
    );
}

#[test]
fn test_multiline_diagnostic_range() {
    // A circular dependency is anchored on the whole rule, so the range
    // crosses line boundaries.
    let doc = build_document("Makefile", "a: b\n\techo a\nb: a\n\techo b\n");
    let circular: Vec<_> = diags(&doc)
        .into_iter()
        .filter(|(_, d)| d.code == "circular-dependency")
        .collect();
    assert_eq!(circular.len(), 1);
    let (range, _) = circular[0];
    assert_eq!(*range, vec![0, 0, 2, 0]);
}

#[test]
fn test_builtin_variable_documentation() {
    let text = "CC = gcc\nall:\n\t$(CC) main.c\n";
    let doc = build_document("Makefile", text);
    let cc = doc.symbols.iter().find(|s| s.display_name == "CC").unwrap();
    assert_eq!(cc.documentation, vec!["C compiler (default: cc).".to_string()]);
}

#[test]
fn test_automatic_variable_variant_documentation() {
    let text = "all:\n\techo $(@D) $(^F)\n";
    let doc = build_document("Makefile", text);
    assert_eq!(doc_for(&doc, "@D").as_deref(), Some("The directory part of `$@`."));
    assert_eq!(doc_for(&doc, "^F").as_deref(), Some("The file-within-directory part of `$^`."));
}

#[test]
fn test_builtin_variable_reference_documentation() {
    // MAKE and CURDIR are never defined here, but referenced.
    let text = "all:\n\tcd $(CURDIR) && $(MAKE) -C sub\n";
    let doc = build_document("Makefile", text);
    assert_eq!(
        doc_for(&doc, "CURDIR").as_deref(),
        Some("The absolute pathname of the current working directory.")
    );
    assert_eq!(doc_for(&doc, "MAKE").as_deref(), Some("The name of the make program being run."));
}

#[test]
fn test_user_definition_shadows_builtin_reference() {
    let text = "CC = clang\nall:\n\t$(CC) main.c\n";
    let doc = build_document("Makefile", text);
    let cc_syms: Vec<_> = doc.symbols.iter().filter(|s| s.display_name == "CC").collect();
    assert_eq!(cc_syms.len(), 1);
    assert_eq!(cc_syms[0].documentation, vec!["C compiler (default: cc).".to_string()]);
}

#[test]
fn test_nested_builtin_variable_documented() {
    // CURDIR nested inside $(addprefix ...) must still be documented.
    let text = "all:\n\techo $(addprefix $(CURDIR)/,a b)\n";
    let doc = build_document("Makefile", text);
    assert_eq!(
        doc_for(&doc, "CURDIR").as_deref(),
        Some("The absolute pathname of the current working directory.")
    );
}

#[test]
fn test_recipe_comment_variable_documented() {
    // In a recipe, Make expands `$` before the shell sees `#`, so a variable
    // after a recipe-line `#` is a real reference.
    let text = "all:\n\techo hi # uses $(MAKE)\n";
    let doc = build_document("Makefile", text);
    assert_eq!(doc_for(&doc, "MAKE").as_deref(), Some("The name of the make program being run."));
}

#[test]
fn variable_reference_scan_is_in_source_order() {
    let text = "A = $(B) ${C} $D $$E\nall:\n\techo $(addprefix $(CURDIR)/,$@) # $(X)\n";
    let refs = scan_variable_references(text);
    let names: Vec<&str> = refs.iter().map(|r| r.name).collect();
    assert_eq!(names, vec!["B", "C", "D", "addprefix", "CURDIR", "@", "X"]);
    for w in refs.windows(2) {
        assert!(w[0].name_start < w[1].name_start);
    }
    for r in &refs {
        assert!(!r.name.is_empty());
        assert_eq!(&text[r.name_start..r.name_start + r.name.len()], r.name);
        let before = &text[..r.name_start];
        assert!(before.ends_with('$') || before.ends_with("$(") || before.ends_with("${"));
    }
}

#[test]
fn document_symbol_occurrences_come_sorted_before_diagnostics() {
    let doc = build_document("Makefile", "all: build $(MISSING)\nbuild:\n\techo $(CC)\nbuild:\n");
    let n = doc.occurrences.iter().position(|o| o.symbol.is_empty()).unwrap();
    for w in doc.occurrences[..n].windows(2) {
        assert!((&w[0].range, &w[0].symbol) < (&w[1].range, &w[1].symbol));
    }
    assert!(doc.occurrences[n..].iter().all(|o| o.symbol.is_empty() && o.diagnostics.len() == 1));
    assert!(doc.occurrences.len() > n);
}

#[test]
fn symbol_table_lists_each_symbol_once() {
    let text = "CC = gcc\nCC += -O2\nall: main.o\n\t$(CC) -o all main.o\nall: extra\nmain.o: main.c\n\t$(CC) -c main.c\n";
    let doc = build_document("Makefile", text);
    let mut names: Vec<&str> = doc.symbols.iter().map(|s| s.symbol.as_str()).collect();
    let count = names.len();
    assert!(count >= 3);
    names.sort();
    names.dedup();
    assert_eq!(names.len(), count);
}

#[test]
fn index_documents_equal_documents_built_alone() {
    let files = vec![
        src_file("a/Makefile", "CC = gcc\nall:\n\t$(CC) x.c\n"),
        src_file("b/rules.mk", "clean:\n\trm -f *.o\n"),
    ];
    let index = build_index("/proj", &files);
    assert!(index.external_symbols.is_empty());
    assert_eq!(index.metadata.project_root, "/proj");
    assert_eq!(index.documents.len(), 2);
    for (i, f) in files.iter().enumerate() {
        let alone = build_document(&f.relative_path, &f.text);
        assert_eq!(index.documents[i].relative_path, alone.relative_path);
        assert_eq!(index.documents[i].occurrences.len(), alone.occurrences.len());
        assert_eq!(index.documents[i].symbols.len(), alone.symbols.len());
        for (x, y) in index.documents[i].symbols.iter().zip(alone.symbols.iter()) {
            assert_eq!(x.symbol, y.symbol);
        }
    }
}

/// The library's index in the protobuf types of the `scip` crate.
fn index_to_pb(index: &makefile_lsp::scip::Index) -> scip::types::Index {
    let mut out = scip::types::Index::new();
    let mut metadata = scip::types::Metadata::new();
    metadata.project_root = index.metadata.project_root.clone();
    out.metadata = Some(metadata).into();
    for d in &index.documents {
        let mut doc = scip::types::Document::new();
        doc.language = d.language.clone();
        doc.relative_path = d.relative_path.clone();
        for o in &d.occurrences {
            let mut occ = scip::types::Occurrence::new();
            occ.range = o.range.clone();
            occ.symbol = o.symbol.clone();
            occ.symbol_roles = o.symbol_roles;
            doc.occurrences.push(occ);
        }
        for s in &d.symbols {
            let mut info = scip::types::SymbolInformation::new();
            info.symbol = s.symbol.clone();
            info.documentation = s.documentation.clone();
            info.display_name = s.display_name.clone();
            doc.symbols.push(info);
        }
        out.documents.push(doc);
    }
    out
}

#[test]
fn test_index_protobuf_roundtrip() {
    let files = vec![src_file(
        "Makefile",
        "CC = gcc\nall: build\n\t$(CC) x.c\nbuild:\n\techo hi\n",
    )];
    let index = index_to_pb(&build_index("file:///project", &files));

    let bytes = index.write_to_bytes().unwrap();
    let parsed = scip::types::Index::parse_from_bytes(&bytes).unwrap();

    assert_eq!(parsed.metadata.project_root, "file:///project");
    assert_eq!(parsed.documents.len(), 1);
    assert_eq!(parsed.documents[0].relative_path, "Makefile");
    assert_eq!(
        parsed.documents[0].occurrences,
        index.documents[0].occurrences
    );
    assert_eq!(parsed.documents[0].symbols, index.documents[0].symbols);
}
