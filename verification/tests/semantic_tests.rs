use makefile_lsp::makefile::Makefile;
use makefile_lsp::semantic::{
    generate_semantic_tokens, SemanticToken, SemanticTokensBuilder, TokenModifier, TokenType,
};

fn tokens_of(text: &str) -> Vec<SemanticToken> {
    let parsed = Makefile::parse(text);
    generate_semantic_tokens(&parsed.makefile, text)
}

#[test]
fn test_target_token() {
    let tokens = tokens_of("clean:\n\trm -rf build\n");
    assert!(!tokens.is_empty());
    assert_eq!(tokens[0].token_type, TokenType::Target as u32);
}

#[test]
fn test_variable_token() {
    let tokens = tokens_of("CC = gcc\n");
    assert!(!tokens.is_empty());
    assert_eq!(tokens[0].token_type, TokenType::Variable as u32);
}

#[test]
fn test_comment_token() {
    let tokens = tokens_of("# This is a comment\n");
    assert!(!tokens.is_empty());
    assert_eq!(tokens[0].token_type, TokenType::Comment as u32);
}

#[test]
fn semantic_test_empty_file() {
    let tokens = tokens_of("");
    assert!(tokens.is_empty());
}

#[test]
fn test_multiple_tokens() {
    let tokens = tokens_of("# comment\nCC = gcc\nall:\n\t$(CC) main.c\n");
    assert!(tokens.len() >= 3);
}

#[test]
fn test_target_has_definition_modifier() {
    let tokens = tokens_of("all:\n\techo done\n");
    let target_token = tokens
        .iter()
        .find(|t| t.token_type == TokenType::Target as u32)
        .unwrap();
    assert_ne!(
        target_token.token_modifiers_bitset & TokenModifier::Definition.bitmask(),
        0
    );
}

#[test]
fn test_special_target_has_default_library_modifier() {
    let tokens = tokens_of(".PHONY: all\n");
    let target_token = tokens
        .iter()
        .find(|t| t.token_type == TokenType::Target as u32)
        .unwrap();
    assert_ne!(
        target_token.token_modifiers_bitset & TokenModifier::DefaultLibrary.bitmask(),
        0
    );
}

#[test]
fn test_user_target_no_default_library_modifier() {
    let tokens = tokens_of("all:\n\techo done\n");
    let target_token = tokens
        .iter()
        .find(|t| t.token_type == TokenType::Target as u32)
        .unwrap();
    assert_eq!(
        target_token.token_modifiers_bitset & TokenModifier::DefaultLibrary.bitmask(),
        0
    );
}

#[test]
fn test_variable_definition_has_definition_modifier() {
    let tokens = tokens_of("CC = gcc\n");
    let var_token = tokens
        .iter()
        .find(|t| t.token_type == TokenType::Variable as u32)
        .unwrap();
    assert_ne!(
        var_token.token_modifiers_bitset & TokenModifier::Definition.bitmask(),
        0
    );
}

#[test]
fn builder_computes_deltas() {
    let mut b = SemanticTokensBuilder::new();
    b.push(0, 0, 3, TokenType::Target, 1);
    b.push(0, 5, 2, TokenType::Prerequisite, 0);
    b.push(2, 1, 4, TokenType::Comment, 0);
    let tokens = b.build();
    assert_eq!(
        tokens,
        vec![
            SemanticToken { delta_line: 0, delta_start: 0, length: 3, token_type: 0, token_modifiers_bitset: 1 },
            SemanticToken { delta_line: 0, delta_start: 5, length: 2, token_type: 3, token_modifiers_bitset: 0 },
            SemanticToken { delta_line: 2, delta_start: 1, length: 4, token_type: 2, token_modifiers_bitset: 0 },
        ]
    );
}

#[test]
fn token_legend_and_bits() {
    assert_eq!(TokenType::Recipe.index(), 4);
    assert_eq!(TokenModifier::Definition.bitmask(), 1);
    assert_eq!(TokenModifier::DefaultLibrary.bitmask(), 2);
}

#[test]
fn builder_deltas_decode_to_pushed_positions() {
    let pushed = [(0u32, 2u32, 3u32), (0, 9, 1), (3, 4, 2), (3, 4, 5), (7, 0, 1)];
    let mut b = SemanticTokensBuilder::new();
    for &(line, start, len) in pushed.iter() {
        b.push(line, start, len, TokenType::Variable, 0);
    }
    let tokens = b.build();
    let (mut line, mut start) = (0u32, 0u32);
    for (t, &(l, s, len)) in tokens.iter().zip(pushed.iter()) {
        line += t.delta_line;
        start = if t.delta_line == 0 { start + t.delta_start } else { t.delta_start };
        assert_eq!((line, start, t.length), (l, s, len));
    }
}

#[test]
fn legend_names_match_indices() {
    let types = makefile_lsp::semantic::token_type_legend();
    assert_eq!(types.len(), 5);
    assert_eq!(types[TokenType::Target as usize], "makefileTarget");
    assert_eq!(types[TokenType::Variable.index() as usize], "makefileVariable");
    assert_eq!(types[TokenType::Comment.index() as usize], "comment");
    assert_eq!(types[TokenType::Prerequisite.index() as usize], "makefilePrerequisite");
    assert_eq!(types[TokenType::Recipe.index() as usize], "makefileRecipe");
    let mods = makefile_lsp::semantic::token_modifier_legend();
    assert_eq!(mods, vec!["definition", "defaultLibrary"]);
    assert_eq!(TokenModifier::Definition.bitmask(), 1);
    assert_eq!(TokenModifier::DefaultLibrary.bitmask(), 2);
}
