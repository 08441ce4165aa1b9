use makefile_lsp::makefile::Makefile;
use makefile_lsp::symbols::{generate_document_symbols, SymbolKind};

#[test]
fn test_symbols_rules() {
    let text = "all: build\n\techo all\n\nclean:\n\trm -rf build\n";
    let parsed = Makefile::parse(text);
    let symbols = generate_document_symbols(&parsed.makefile, text);

    let names: Vec<&str> = symbols.iter().map(|s| s.name.as_str()).collect();
    assert!(names.contains(&"all"));
    assert!(names.contains(&"clean"));
}

#[test]
fn test_symbols_variables() {
    let text = "CC = gcc\nCFLAGS = -Wall -O2\n";
    let parsed = Makefile::parse(text);
    let symbols = generate_document_symbols(&parsed.makefile, text);

    assert_eq!(symbols.len(), 2);
    assert_eq!(symbols[0].name, "CC");
    assert_eq!(symbols[0].kind, SymbolKind::Variable);
    assert_eq!(symbols[1].name, "CFLAGS");
}

#[test]
fn test_symbols_empty() {
    let text = "";
    let parsed = Makefile::parse(text);
    let symbols = generate_document_symbols(&parsed.makefile, text);
    assert!(symbols.is_empty());
}

#[test]
fn test_symbols_mixed() {
    let text = "CC = gcc\n\nall: main.o\n\t$(CC) -o $@ $^\n";
    let parsed = Makefile::parse(text);
    let symbols = generate_document_symbols(&parsed.makefile, text);

    assert_eq!(symbols.len(), 2);
    assert_eq!(symbols[0].kind, SymbolKind::Function); // rule
    assert_eq!(symbols[1].kind, SymbolKind::Variable); // CC
}

#[test]
fn symbol_details_and_joined_targets() {
    let text = "a b: c\n\techo\nX = 1 \n";
    let parsed = Makefile::parse(text);
    let symbols = generate_document_symbols(&parsed.makefile, text);
    assert_eq!(symbols.len(), 2);
    assert_eq!(symbols[0].name, "a, b");
    assert_eq!(symbols[0].detail, None);
    assert_eq!(symbols[1].name, "X");
    assert_eq!(symbols[1].detail.as_deref(), Some("1"));
    assert_eq!(symbols[1].range, symbols[1].selection_range);
}

#[test]
fn symbol_detail_drops_unicode_whitespace() {
    let text = "NAME = \u{3000}x y\u{a0}\u{2003}\n";
    let parsed = Makefile::parse(text);
    let symbols = generate_document_symbols(&parsed.makefile, text);
    let var = symbols.iter().find(|s| s.name == "NAME").expect("variable symbol");
    assert_eq!(var.detail.as_deref(), Some("x y"));
}
