use makefile_lsp::makefile::Makefile;
use makefile_lsp::position::Position;
use makefile_lsp::signature_help::{get_signature_help, SignatureHelp};

fn get_sig(text: &str, pos: Position) -> Option<SignatureHelp> {
    let parsed = Makefile::parse(text);
    get_signature_help(&parsed.makefile, text, pos)
}

#[test]
fn test_subst_first_arg() {
    let text = "X = $(subst a,b,text)\n";
    // Cursor on 'a' (first arg) — col 12
    let sig = get_sig(text, Position::new(0, 12));
    assert!(sig.is_some());
    let sig = sig.unwrap();
    assert_eq!(sig.active_parameter, Some(0));
    assert!(sig.signatures[0].label.contains("subst"));
}

#[test]
fn test_subst_second_arg() {
    let text = "X = $(subst a,b,text)\n";
    // Cursor on 'b' (second arg) — col 14
    let sig = get_sig(text, Position::new(0, 14));
    assert!(sig.is_some());
    assert_eq!(sig.unwrap().active_parameter, Some(1));
}

#[test]
fn test_subst_third_arg() {
    let text = "X = $(subst a,b,text)\n";
    // Cursor on 't' in 'text' (third arg) — col 16
    let sig = get_sig(text, Position::new(0, 16));
    assert!(sig.is_some());
    assert_eq!(sig.unwrap().active_parameter, Some(2));
}

#[test]
fn test_wildcard_single_arg() {
    let text = "FILES = $(wildcard *.c)\n";
    let sig = get_sig(text, Position::new(0, 19));
    assert!(sig.is_some());
    assert_eq!(sig.unwrap().active_parameter, Some(0));
}

#[test]
fn test_no_sig_for_variable() {
    let text = "X = $(CC)\n";
    let sig = get_sig(text, Position::new(0, 6));
    assert!(sig.is_none());
}

#[test]
fn test_no_sig_outside_function() {
    let text = "CC = gcc\n";
    let sig = get_sig(text, Position::new(0, 5));
    assert!(sig.is_none());
}

#[test]
fn signature_label_and_parameters() {
    let text = "X = $(subst a,b,text)\n";
    let sig = get_sig(text, Position::new(0, 12)).unwrap();
    assert_eq!(sig.signatures.len(), 1);
    assert_eq!(sig.signatures[0].label, "$(subst from,to,text)");
    let params = sig.signatures[0].parameters.as_ref().unwrap();
    let labels: Vec<&str> = params.iter().map(|p| p.label.as_str()).collect();
    assert_eq!(labels, vec!["from", "to", "text"]);
    assert_eq!(sig.active_signature, Some(0));
    assert_eq!(sig.signatures[0].documentation.as_deref(), Some("Replace occurrences of *from* with *to* in *text*."));
}
