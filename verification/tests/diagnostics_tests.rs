use makefile_lsp::diagnostics::{get_diagnostics, Diagnostic, DiagnosticSeverity};
use makefile_lsp::makefile::Makefile;
use makefile_lsp::position::{Position, Range};

fn get_diags(text: &str) -> Vec<Diagnostic> {
    let parsed = Makefile::parse(text);
    get_diagnostics(text, &parsed)
}

fn diag_codes(text: &str) -> Vec<String> {
    get_diags(text).into_iter().filter_map(|d| d.code).collect()
}

#[test]
fn test_valid_makefile_no_diagnostics() {
    let text = "all: build\n\techo done\n";
    let diagnostics = get_diags(text);
    assert!(diagnostics.is_empty());
}

#[test]
fn test_defined_variable_no_warning() {
    let text = "CC = gcc\nCFLAGS = $(CC) -Wall\n";
    let diagnostics = get_diags(text);
    assert!(diagnostics.is_empty());
}

#[test]
fn test_builtin_variable_no_warning() {
    let text = "CMD = $(MAKE) -C subdir\n";
    let diagnostics = get_diags(text);
    assert!(diagnostics.is_empty());
}

#[test]
fn test_builtin_function_no_warning() {
    let text = "FILES = $(wildcard *.c)\n";
    let diagnostics = get_diags(text);
    assert!(diagnostics.is_empty());
}

#[test]
fn test_undefined_variable_in_value() {
    let text = "CFLAGS = $(UNDEFINED_VAR) -Wall\n";
    let codes = diag_codes(text);
    assert_eq!(codes, vec!["undefined-variable"]);
}

#[test]
fn test_undefined_variable_in_prerequisites() {
    let text = "all: $(MISSING_TARGETS)\n";
    let codes = diag_codes(text);
    assert_eq!(codes, vec!["undefined-variable"]);
}

#[test]
fn test_undefined_variable_message() {
    let text = "CFLAGS = $(MISSING) -Wall\n";
    let diags = get_diags(text);
    assert_eq!(diags.len(), 1);
    assert_eq!(diags[0].message, "variable 'MISSING' is not defined");
}

#[test]
fn test_multiple_undefined_variables() {
    let text = "CFLAGS = $(FOO) $(BAR)\n";
    let codes = diag_codes(text);
    assert_eq!(codes, vec!["undefined-variable", "undefined-variable"]);
}

// Recursive self-reference tests

#[test]
fn test_recursive_self_reference() {
    let text = "FOO = $(FOO) bar\n";
    let codes = diag_codes(text);
    assert!(codes.contains(&"recursive-variable-reference".to_string()));
}

#[test]
fn test_simple_expand_self_reference_ok() {
    // := expands immediately, so self-reference is valid (refers to previous value)
    let text = "FOO := $(FOO) bar\n";
    let codes = diag_codes(text);
    assert!(!codes.contains(&"recursive-variable-reference".to_string()));
}

#[test]
fn test_append_self_reference_ok() {
    let text = "FOO += bar\n";
    let codes = diag_codes(text);
    assert!(!codes.contains(&"recursive-variable-reference".to_string()));
}

#[test]
fn test_recursive_self_reference_message() {
    let text = "FOO = $(FOO)\n";
    let diags = get_diags(text);
    let self_ref: Vec<_> = diags
        .iter()
        .filter(|d| {
            d.code
                == Some("recursive-variable-reference".to_string())
        })
        .collect();
    assert_eq!(self_ref.len(), 1);
    assert!(self_ref[0].message.contains("FOO"));
}

// Duplicate target tests

#[test]
fn test_duplicate_target() {
    let text = "all: build\n\techo first\n\nall: test\n\techo second\n";
    let codes = diag_codes(text);
    assert!(codes.contains(&"duplicate-target".to_string()));
}

#[test]
fn test_no_duplicate_different_targets() {
    let text = "all: build\n\techo all\n\nbuild:\n\techo build\n";
    let codes = diag_codes(text);
    assert!(!codes.contains(&"duplicate-target".to_string()));
}

#[test]
fn test_duplicate_target_phony_ok() {
    // .PHONY can appear multiple times
    let text = ".PHONY: all\n.PHONY: build\n";
    let codes = diag_codes(text);
    assert!(!codes.contains(&"duplicate-target".to_string()));
}

#[test]
fn test_duplicate_target_double_colon_ok() {
    // Double-colon rules intentionally allow duplicates
    let text = "all:: dep1\n\techo first\n\nall:: dep2\n\techo second\n";
    let codes = diag_codes(text);
    assert!(!codes.contains(&"duplicate-target".to_string()));
}

#[test]
fn test_duplicate_target_message() {
    let text = "all: build\n\techo first\n\nall: test\n\techo second\n";
    let diags = get_diags(text);
    let dups: Vec<_> = diags
        .iter()
        .filter(|d| d.code == Some("duplicate-target".to_string()))
        .collect();
    assert_eq!(dups.len(), 1);
    assert!(dups[0].message.contains("all"));
    assert!(dups[0].message.contains("line 1"));
}

#[test]
fn test_pattern_rule_not_duplicate() {
    let text = "%.o: %.c\n\t$(CC) -c $<\n\n%.o: %.cpp\n\t$(CXX) -c $<\n";
    let codes = diag_codes(text);
    assert!(!codes.contains(&"duplicate-target".to_string()));
}

// Empty variable reference tests

#[test]
fn test_empty_variable_reference() {
    let text = "FOO = $()\n";
    let codes = diag_codes(text);
    assert!(codes.contains(&"empty-variable-reference".to_string()));
}

#[test]
fn test_non_empty_variable_reference_ok() {
    let text = "FOO = $(BAR)\n";
    let codes = diag_codes(text);
    assert!(!codes.contains(&"empty-variable-reference".to_string()));
}

// Self-dependency tests

#[test]
fn test_self_dependency() {
    let text = "foo: foo bar\n\techo $@\n";
    let codes = diag_codes(text);
    assert!(codes.contains(&"self-dependency".to_string()));
}

#[test]
fn test_no_self_dependency() {
    let text = "foo: bar baz\n\techo $@\n";
    let codes = diag_codes(text);
    assert!(!codes.contains(&"self-dependency".to_string()));
}

#[test]
fn test_self_dependency_message() {
    let text = "foo: foo\n\techo $@\n";
    let diags = get_diags(text);
    let self_deps: Vec<_> = diags
        .iter()
        .filter(|d| d.code == Some("self-dependency".to_string()))
        .collect();
    assert_eq!(self_deps.len(), 1);
    assert!(self_deps[0].message.contains("foo"));
}

// Undefined .PHONY target tests

#[test]
fn test_undefined_phony_target() {
    let text = ".PHONY: clean\n";
    let codes = diag_codes(text);
    assert!(codes.contains(&"undefined-phony-target".to_string()));
}

#[test]
fn test_defined_phony_target_ok() {
    let text = ".PHONY: clean\nclean:\n\trm -f *.o\n";
    let codes = diag_codes(text);
    assert!(!codes.contains(&"undefined-phony-target".to_string()));
}

#[test]
fn test_phony_partially_defined() {
    let text = ".PHONY: all clean\nall: build\n\techo done\n";
    let diags = get_diags(text);
    let phony_diags: Vec<_> = diags
        .iter()
        .filter(|d| {
            d.code == Some("undefined-phony-target".to_string())
        })
        .collect();
    assert_eq!(phony_diags.len(), 1);
    assert!(phony_diags[0].message.contains("clean"));
}

// Include missing path tests

#[test]
fn test_include_with_path_ok() {
    let text = "include config.mk\n";
    let codes = diag_codes(text);
    assert!(!codes.contains(&"include-missing-path".to_string()));
}

// Spaces instead of tab tests

#[test]
fn test_tab_indented_recipe_ok() {
    let text = "all:\n\techo done\n";
    let codes = diag_codes(text);
    assert!(!codes.contains(&"spaces-instead-of-tab".to_string()));
}

#[test]
fn test_spaces_instead_of_tab() {
    let text = "all:\n    echo done\n";
    let codes = diag_codes(text);
    assert!(codes.contains(&"spaces-instead-of-tab".to_string()));
}

#[test]
fn test_spaces_instead_of_tab_message() {
    let text = "all:\n    echo done\n";
    let diags = get_diags(text);
    let space_diags: Vec<_> = diags
        .iter()
        .filter(|d| d.code == Some("spaces-instead-of-tab".to_string()))
        .collect();
    assert_eq!(space_diags.len(), 1);
    assert_eq!(
        space_diags[0].message,
        "recipe lines must start with a tab, not spaces"
    );
    assert_eq!(space_diags[0].severity, Some(DiagnosticSeverity::Error));
}

#[test]
fn test_multiple_space_indented_recipes() {
    let text = "all:\n    echo first\n    echo second\n";
    let diags = get_diags(text);
    let space_diags: Vec<_> = diags
        .iter()
        .filter(|d| d.code == Some("spaces-instead-of-tab".to_string()))
        .collect();
    assert_eq!(space_diags.len(), 2);
}

// Trailing whitespace in value tests

#[test]
fn test_trailing_whitespace_in_value() {
    let text = "FOO = bar \n";
    let codes = diag_codes(text);
    assert!(codes.contains(&"trailing-whitespace-in-value".to_string()));
}

#[test]
fn test_trailing_tab_in_value() {
    let text = "FOO = bar\t\n";
    let codes = diag_codes(text);
    assert!(codes.contains(&"trailing-whitespace-in-value".to_string()));
}

#[test]
fn test_no_trailing_whitespace_clean_value() {
    let text = "FOO = bar\n";
    let codes = diag_codes(text);
    assert!(!codes.contains(&"trailing-whitespace-in-value".to_string()));
}

#[test]
fn test_internal_whitespace_not_flagged() {
    let text = "FOO = bar baz\n";
    let codes = diag_codes(text);
    assert!(!codes.contains(&"trailing-whitespace-in-value".to_string()));
}

#[test]
fn test_empty_value_not_flagged() {
    // `FOO = ` is an empty assignment; the whitespace is between `=` and EOL,
    // not part of the value.
    let text = "FOO = \n";
    let codes = diag_codes(text);
    assert!(!codes.contains(&"trailing-whitespace-in-value".to_string()));
}

#[test]
fn test_trailing_whitespace_before_comment_flagged() {
    // `FOO = bar # comment` sets FOO to "bar " (trailing space captured).
    let text = "FOO = bar # comment\n";
    let codes = diag_codes(text);
    assert!(codes.contains(&"trailing-whitespace-in-value".to_string()));
}

#[test]
fn test_line_continuation_not_flagged() {
    // The trailing whitespace before `\` is part of a continued line, not the
    // end of the value. We only care about the final value's tail.
    let text = "FOO = bar \\\n\tbaz\n";
    let codes = diag_codes(text);
    // The trailing token here is BACKSLASH, not WHITESPACE — so no warning.
    assert!(!codes.contains(&"trailing-whitespace-in-value".to_string()));
}

#[test]
fn test_trailing_whitespace_message() {
    let text = "FOO = bar   \n";
    let diags = get_diags(text);
    let ws_diags: Vec<_> = diags
        .iter()
        .filter(|d| {
            d.code
                == Some("trailing-whitespace-in-value".to_string())
        })
        .collect();
    assert_eq!(ws_diags.len(), 1);
    assert_eq!(
        ws_diags[0].message,
        "trailing whitespace is included in the variable value"
    );
    assert_eq!(ws_diags[0].severity, Some(DiagnosticSeverity::Warning));
}

#[test]
fn undefined_variable_diagnostic_fields() {
    let text = "CFLAGS = $(MISSING) -Wall\n";
    let diags = get_diags(text);
    assert_eq!(diags.len(), 1);
    assert_eq!(diags[0].severity, Some(DiagnosticSeverity::Warning));
    assert_eq!(diags[0].source.as_deref(), Some("makefile-lsp"));
    assert_eq!(diags[0].range.start.line, 0);
}

#[test]
fn circular_dependency_is_reported_once_per_cycle() {
    let text = "a: b\n\techo a\nb: a\n\techo b\nc: c\n";
    let parsed = Makefile::parse(text);
    let diags = get_diagnostics(text, &parsed);
    let circular: Vec<_> = diags
        .iter()
        .filter(|d| d.code.as_deref() == Some("circular-dependency"))
        .collect();
    assert_eq!(circular.len(), 1);
    assert_eq!(circular[0].message, "circular dependency: a -> b -> a");
    assert_eq!(circular[0].range, Range::new(Position::new(0, 0), Position::new(2, 0)));
    assert_eq!(circular[0].severity, Some(DiagnosticSeverity::Warning));
}
