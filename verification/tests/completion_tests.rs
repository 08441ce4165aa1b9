use makefile_lsp::completion::{include_path_start, is_makefile_fragment, partial_word_before, completion_cuts_ok, completion_step, filesystem_completions, get_automatic_variable_completions, get_completions, get_function_completions, get_prerequisite_completions, get_variable_reference_completions, rank_include_completions, split_partial_path, CompletionItem, CompletionItemKind, CompletionStep, DirEntry};
use makefile_lsp::makefile::Makefile;
use makefile_lsp::position::Position;

#[test]
fn test_include_path_start() {
    assert_eq!(include_path_start("include "), Some(8));
    assert_eq!(include_path_start("include foo.mk"), Some(8));
    assert_eq!(include_path_start("-include .env"), Some(9));
    assert_eq!(include_path_start("sinclude bar"), Some(9));
    assert_eq!(include_path_start("  include foo"), Some(10));
    // Multiple paths: anchor on the last word.
    assert_eq!(include_path_start("include a.mk b.mk"), Some(13));
    assert_eq!(include_path_start("all: foo"), None);
    assert_eq!(include_path_start("includex foo"), None);
}

#[test]
fn include_path_start_unicode_whitespace() {
    // A no-break space before the keyword is trimmed like a space.
    assert_eq!(include_path_start("\u{a0}include x"), Some(10));
    assert_eq!(include_path_start("include"), None);
    assert_eq!(include_path_start("\tinclude a\tb"), Some(11));
}

#[test]
fn test_partial_word_before() {
    assert_eq!(partial_word_before("all: src/", 9), "src/");
    assert_eq!(partial_word_before("all: main", 9), "main");
    assert_eq!(partial_word_before("all: ", 5), "");
    assert_eq!(partial_word_before("all: foo bar", 12), "bar");
}

#[test]
fn partial_word_before_stops_at_line_start() {
    assert_eq!(partial_word_before("x\nabc", 5), "abc");
    assert_eq!(partial_word_before("a:b", 3), "b");
    assert_eq!(partial_word_before("", 0), "");
}

#[test]
fn makefile_fragments() {
    assert!(is_makefile_fragment("config.mk"));
    assert!(is_makefile_fragment("rules.make"));
    assert!(is_makefile_fragment("Makefile.local"));
    assert!(is_makefile_fragment("makefile.inc"));
    assert!(is_makefile_fragment("GNUmakefile"));
    assert!(is_makefile_fragment("Makefile"));
    assert!(!is_makefile_fragment("README.txt"));
    assert!(!is_makefile_fragment("mk"));
}

fn completions_at(text: &str, pos: Position) -> Vec<CompletionItem> {
    let parsed = Makefile::parse(text);
    assert!(completion_cuts_ok(text, pos));
    get_completions(&parsed.makefile, text, pos)
}

#[test]
fn test_completions_empty_line() {
    let completions = completions_at("all: build\n\n", Position::new(1, 0));
    assert!(!completions.is_empty());
    assert!(completions.iter().any(|c| c.label == ".PHONY"));
}

#[test]
fn test_completions_exclude_existing_targets() {
    let completions = completions_at(".PHONY: all\n\n", Position::new(1, 0));
    assert!(!completions.iter().any(|c| c.label == ".PHONY"));
}

#[test]
fn test_completions_in_recipe() {
    let completions = completions_at("all:\n\t", Position::new(1, 1));
    assert!(completions.is_empty());
}

#[test]
fn test_variable_completions() {
    let completions = completions_at("CC = gcc\nCFLAGS = -Wall\n", Position::new(2, 1));
    // Should not crash, may offer variable completions
    let _ = completions;
}

#[test]
fn test_completions_in_recipe_builtin_variables() {
    let completions = completions_at("all:\n\t$(", Position::new(1, 3));
    let make = completions.iter().find(|c| c.label == "MAKE").unwrap();
    assert_eq!(make.insert_text.as_deref(), Some("MAKE)"));
    assert!(completions.iter().any(|c| c.label == "MAKEFLAGS"));
    assert!(completions.iter().any(|c| c.label == "CURDIR"));
    // Functions are still offered alongside variables.
    assert!(completions.iter().any(|c| c.label == "wildcard"));
}

#[test]
fn test_completions_in_recipe_user_variables() {
    let completions = completions_at("CC = gcc\nall:\n\t$(", Position::new(2, 3));
    let cc = completions.iter().find(|c| c.label == "CC").unwrap();
    assert_eq!(cc.insert_text.as_deref(), Some("CC)"));
}

#[test]
fn test_variable_reference_completions_dedups() {
    // A user-defined variable that shares a name with a built-in should
    // appear once, taking the built-in's slot.
    let text = "CC = clang\n";
    let parsed = Makefile::parse(text);
    let items = get_variable_reference_completions(&parsed.makefile);
    let cc: Vec<_> = items.iter().filter(|c| c.label == "CC").collect();
    assert_eq!(cc.len(), 1);
}

#[test]
fn test_function_completions() {
    let completions = get_function_completions();
    assert!(!completions.is_empty());
    assert!(completions.iter().any(|c| c.label == "subst"));
    assert!(completions.iter().any(|c| c.label == "wildcard"));
}

#[test]
fn test_automatic_variable_completions_cover_all_variants() {
    let completions = get_automatic_variable_completions();
    // Single-character forms insert bare.
    let at = completions.iter().find(|c| c.label == "$@").unwrap();
    assert_eq!(at.insert_text.as_deref(), Some("@"));
    for variant in ["@D", "@F", "<D", "<F", "^D", "^F", "+D", "+F", "?D", "?F", "*D", "*F"] {
        let label = format!("$({})", variant);
        let item = completions
            .iter()
            .find(|c| c.label == label)
            .unwrap_or_else(|| panic!("missing completion for {}", label));
        assert_eq!(item.insert_text.as_deref(), Some(&*format!("({})", variant)));
    }
}

#[test]
fn test_prerequisite_target_completions() {
    let text = "build:\n\techo build\n\ntest:\n\techo test\n\nall: \n";
    // Position cursor right after "all: "
    let completions = completions_at(text, Position::new(6, 5));
    let labels: Vec<&str> = completions.iter().map(|c| c.label.as_str()).collect();
    assert!(labels.contains(&"build"), "expected 'build' in {:?}", labels);
    assert!(labels.contains(&"test"), "expected 'test' in {:?}", labels);
}

#[test]
fn test_prerequisite_excludes_pattern_and_special_targets() {
    let text = ".PHONY: build\n\n%.o: %.c\n\techo compile\n\nbuild:\n\techo build\n\nall: \n";
    let completions = completions_at(text, Position::new(8, 5));
    let labels: Vec<&str> = completions.iter().map(|c| c.label.as_str()).collect();
    assert!(labels.contains(&"build"));
    assert!(!labels.iter().any(|l| l.contains('%')));
    assert!(!labels.iter().any(|l| l.starts_with('.')));
}

fn entries(list: &[(&str, bool)]) -> Vec<DirEntry> {
    list.iter().map(|(n, d)| DirEntry { name: n.to_string(), is_dir: *d }).collect()
}

#[test]
fn prerequisite_filesystem_completions_from_listing() {
    let text = "all: \n";
    let parsed = Makefile::parse(text);
    let step = completion_step(&parsed.makefile, text, Position::new(0, 5));
    let partial = match step {
        CompletionStep::Prerequisite(p) => p,
        _ => panic!("expected a prerequisite step"),
    };
    assert_eq!(partial, "");
    let fs = filesystem_completions(&entries(&[("main.c", false), ("util.c", false), ("src", true)]), &partial);
    let completions = get_prerequisite_completions(&parsed.makefile, fs);
    let labels: Vec<&str> = completions.iter().map(|c| c.label.as_str()).collect();
    assert!(labels.contains(&"main.c"));
    assert!(labels.contains(&"util.c"));
    let src_item = completions.iter().find(|c| c.label == "src").unwrap();
    assert_eq!(src_item.kind, Some(CompletionItemKind::Folder));
    assert_eq!(src_item.insert_text.as_deref(), Some("src/"));
}

#[test]
fn filesystem_subdir_and_hidden_entries() {
    let items = filesystem_completions(&entries(&[("main.c", false), (".hidden", false)]), "src/");
    let labels: Vec<&str> = items.iter().map(|c| c.label.as_str()).collect();
    assert_eq!(labels, vec!["src/main.c"]);
    let items = filesystem_completions(&entries(&[("visible.c", false), (".hidden", false)]), ".");
    let labels: Vec<&str> = items.iter().map(|c| c.label.as_str()).collect();
    assert!(labels.contains(&".hidden"));
    assert_eq!(split_partial_path("a/b/c"), ("a/b", "c"));
    assert_eq!(split_partial_path("abc"), ("", "abc"));
}

#[test]
fn include_completions_rank_fragments_first() {
    let text = "include \n";
    let parsed = Makefile::parse(text);
    let partial = match completion_step(&parsed.makefile, text, Position::new(0, 8)) {
        CompletionStep::IncludePath(p) => p,
        _ => panic!("expected an include step"),
    };
    let fs = filesystem_completions(
        &entries(&[("config.mk", false), ("README.txt", false), ("Makefile.local", false), ("rules", true)]),
        &partial,
    );
    let ranked = rank_include_completions(fs);
    let sort = |l: &str| ranked.iter().find(|c| c.label == l).unwrap().sort_text.clone().unwrap();
    assert_eq!(sort("config.mk"), "0config.mk");
    assert_eq!(sort("Makefile.local"), "0Makefile.local");
    assert_eq!(sort("rules"), "0rules");
    assert_eq!(sort("README.txt"), "1README.txt");
}

#[test]
fn include_path_step_carries_partial() {
    let text = "include rules/co\n";
    let parsed = Makefile::parse(text);
    match completion_step(&parsed.makefile, text, Position::new(0, 16)) {
        CompletionStep::IncludePath(p) => assert_eq!(p, "rules/co"),
        _ => panic!("expected an include step"),
    }
    // Without a directory to list, an include path gets nothing.
    assert!(get_completions(&parsed.makefile, text, Position::new(0, 16)).is_empty());
}

#[test]
fn automatic_variables_after_dollar_in_recipe() {
    let completions = completions_at("all:\n\t$", Position::new(1, 2));
    assert!(completions.iter().any(|c| c.label == "$<"));
}

#[test]
fn variable_names_while_typing_a_name() {
    let completions = completions_at("CC = gcc\nC\n", Position::new(1, 1));
    let cc = completions.iter().find(|c| c.label == "CC").unwrap();
    assert_eq!(cc.insert_text.as_deref(), Some("CC = "));
    assert_eq!(cc.detail.as_deref(), Some("= gcc"));
}

#[test]
fn special_target_item_fields() {
    let completions = completions_at("\n", Position::new(0, 0));
    let phony = completions.iter().find(|c| c.label == ".PHONY").unwrap();
    assert_eq!(phony.insert_text.as_deref(), Some(".PHONY: "));
    assert_eq!(phony.kind, Some(CompletionItemKind::Keyword));
    assert_eq!(phony.detail.as_deref(), Some("Declare targets that do not represent files."));
}

#[test]
fn reference_completion_labels_are_unique() {
    let text = "FOO = 1\nFOO = 2\nCC = clang\nBAR := x\n";
    let parsed = Makefile::parse(text);
    let items = get_variable_reference_completions(&parsed.makefile);
    for (i, a) in items.iter().enumerate() {
        for b in items.iter().skip(i + 1) {
            assert_ne!(a.label, b.label);
        }
    }
    for name in ["FOO", "BAR", "CC", "MAKE"] {
        assert_eq!(items.iter().filter(|c| c.label == name).count(), 1);
    }
    let foo = items.iter().find(|c| c.label == "FOO").unwrap();
    assert_eq!(foo.insert_text.as_deref(), Some("FOO)"));
}
