//! Semantic token generation for Makefile syntax highlighting.

use vstd::prelude::*;
use vstd::string::StringSliceAdditionalSpecFns;

use crate::builtins::{is_builtin_variable, is_special_target, pair_names, spec_builtin_variables, spec_special_targets};
use crate::makefile::{tokens_view, Makefile, TokenView, KIND_COMMENT, KIND_IDENTIFIER, KIND_PREREQUISITE, KIND_TARGETS, KIND_VARIABLE};
use crate::position::{offset_to_position, spec_offset_to_position, utf16_units, Position};
use crate::strs::utf8;

verus! {

/// Semantic token types, in the order of the legend registered at
/// initialization.
#[derive(Clone, Copy, Debug, PartialEq, Eq, Structural)]
pub enum TokenType {
    /// A target name
    Target,
    /// A variable name
    Variable,
    /// A comment
    Comment,
    /// A prerequisite
    Prerequisite,
    /// A recipe line (reserved in the legend)
    Recipe,
}

impl TokenType {
    /// The position of the type in the legend.
    pub open spec fn spec_index(self) -> u32 {
        match self {
            TokenType::Target => 0,
            TokenType::Variable => 1,
            TokenType::Comment => 2,
            TokenType::Prerequisite => 3,
            TokenType::Recipe => 4,
        }
    }

    /// The position of the type in the legend.
    pub fn index(self) -> (r: u32)
        ensures
            r == self.spec_index(),
    {
        match self {
            TokenType::Target => 0,
            TokenType::Variable => 1,
            TokenType::Comment => 2,
            TokenType::Prerequisite => 3,
            TokenType::Recipe => 4,
        }
    }
}

/// Semantic token modifiers, bit flags in the order of the legend.
#[derive(Clone, Copy, Debug, PartialEq, Eq, Structural)]
pub enum TokenModifier {
    /// The token is a definition site (not a reference)
    Definition,
    /// The token is a built-in (not user-defined)
    DefaultLibrary,
}

impl TokenModifier {
    /// The bit of the modifier: bit 0 for `Definition`, bit 1 for
    /// `DefaultLibrary`.
    pub open spec fn spec_bitmask(self) -> u32 {
        match self {
            TokenModifier::Definition => 1,
            TokenModifier::DefaultLibrary => 2,
        }
    }

    pub fn bitmask(self) -> (r: u32)
        ensures
            r == self.spec_bitmask(),
    {
        match self {
            TokenModifier::Definition => 1,
            TokenModifier::DefaultLibrary => 2,
        }
    }
}

impl TokenType {
    /// The name under which the type is registered in the legend.
    pub open spec fn spec_legend_name(self) -> Seq<char> {
        match self {
            TokenType::Target => "makefileTarget"@,
            TokenType::Variable => "makefileVariable"@,
            TokenType::Comment => "comment"@,
            TokenType::Prerequisite => "makefilePrerequisite"@,
            TokenType::Recipe => "makefileRecipe"@,
        }
    }
}

impl TokenModifier {
    /// The name under which the modifier is registered in the legend.
    pub open spec fn spec_legend_name(self) -> Seq<char> {
        match self {
            TokenModifier::Definition => "definition"@,
            TokenModifier::DefaultLibrary => "defaultLibrary"@,
        }
    }
}

/// The token type names of the legend: the name of each type at its index.
pub fn token_type_legend() -> (v: Vec<&'static str>)
    ensures
        v@.len() == 5,
        forall|t: TokenType| #[trigger] v@[t.spec_index() as int]@ == t.spec_legend_name(),
{
    let v = vec!["makefileTarget", "makefileVariable", "comment", "makefilePrerequisite", "makefileRecipe"];
    assert forall|t: TokenType| #[trigger] v@[t.spec_index() as int]@ == t.spec_legend_name() by {
        match t {
            TokenType::Target => {},
            TokenType::Variable => {},
            TokenType::Comment => {},
            TokenType::Prerequisite => {},
            TokenType::Recipe => {},
        }
    }
    v
}

/// The token modifier names of the legend: modifier `m` at the position of
/// its bit (`bitmask == 1 << position`).
pub fn token_modifier_legend() -> (v: Vec<&'static str>)
    ensures
        v@.len() == 2,
        v@[0]@ == TokenModifier::Definition.spec_legend_name() && TokenModifier::Definition.spec_bitmask() == 1u32 << 0u32,
        v@[1]@ == TokenModifier::DefaultLibrary.spec_legend_name() && TokenModifier::DefaultLibrary.spec_bitmask() == 1u32 << 1u32,
{
    assert(1u32 << 0u32 == 1u32 && 1u32 << 1u32 == 2u32) by (bit_vector);
    vec!["definition", "defaultLibrary"]
}

/// A semantic token, its position relative to the previous token.
#[derive(Clone, Copy, Debug, PartialEq, Eq, Structural)]
pub struct SemanticToken {
    pub delta_line: u32,
    pub delta_start: u32,
    pub length: u32,
    pub token_type: u32,
    pub token_modifiers_bitset: u32,
}

/// Builder that tracks delta positions for semantic tokens.
pub struct SemanticTokensBuilder {
    tokens: Vec<SemanticToken>,
    prev_line: u32,
    prev_start: u32,
}

/// The abstract state of a builder: the tokens so far and the position of
/// the last one.
pub struct SemanticTokensBuilderView {
    pub tokens: Seq<SemanticToken>,
    pub prev_line: u32,
    pub prev_start: u32,
}

impl View for SemanticTokensBuilder {
    type V = SemanticTokensBuilderView;

    closed spec fn view(&self) -> SemanticTokensBuilderView {
        SemanticTokensBuilderView { tokens: self.tokens@, prev_line: self.prev_line, prev_start: self.prev_start }
    }
}

/// A token at `(line, start)` may follow one at `(prev_line, prev_start)`:
/// it is not before it.
pub open spec fn in_order(prev_line: u32, prev_start: u32, line: u32, start: u32) -> bool {
    prev_line < line || (prev_line == line && prev_start <= start)
}

/// The token pushed at `(line, start)` after one at `(prev_line,
/// prev_start)`.
pub open spec fn delta_token(
    prev_line: u32,
    prev_start: u32,
    line: u32,
    start: u32,
    length: u32,
    token_type: TokenType,
    modifiers: u32,
) -> SemanticToken {
    let delta_line = (line - prev_line) as u32;
    SemanticToken {
        delta_line,
        delta_start: if delta_line == 0 { (start - prev_start) as u32 } else { start },
        length,
        token_type: token_type.spec_index(),
        token_modifiers_bitset: modifiers,
    }
}

/// The deltas of a token pushed in order decode back to its position:
/// its line is the previous line plus `delta_line`, and its start is
/// `delta_start` past the previous start on the same line, or `delta_start`
/// itself on a later line.
pub proof fn lemma_delta_token_decodes(
    prev_line: u32,
    prev_start: u32,
    line: u32,
    start: u32,
    length: u32,
    token_type: TokenType,
    modifiers: u32,
)
    requires
        in_order(prev_line, prev_start, line, start),
    ensures
        ({
            let t = delta_token(prev_line, prev_start, line, start, length, token_type, modifiers);
            &&& prev_line + t.delta_line == line
            &&& (if t.delta_line == 0 {
                prev_start + t.delta_start
            } else {
                t.delta_start as int
            }) == start
            &&& t.length == length
        }),
{
}

impl SemanticTokensBuilder {
    /// Create a new builder.
    pub fn new() -> (b: Self)
        ensures
            b@.tokens.len() == 0,
            b@.prev_line == 0,
            b@.prev_start == 0,
    {
        SemanticTokensBuilder { tokens: Vec::new(), prev_line: 0, prev_start: 0 }
    }

    /// Push a semantic token, computing deltas automatically.
    pub fn push(&mut self, line: u32, start: u32, length: u32, token_type: TokenType, modifiers: u32)
        requires
            in_order(old(self)@.prev_line, old(self)@.prev_start, line, start),
        ensures
            final(self)@.tokens == old(self)@.tokens.push(
                delta_token(old(self)@.prev_line, old(self)@.prev_start, line, start, length, token_type, modifiers),
            ),
            final(self)@.prev_line == line,
            final(self)@.prev_start == start,
    {
        let delta_line = line - self.prev_line;
        let delta_start = if delta_line == 0 {
            start - self.prev_start
        } else {
            start
        };
        self.tokens.push(
            SemanticToken {
                delta_line,
                delta_start,
                length,
                token_type: token_type.index(),
                token_modifiers_bitset: modifiers,
            },
        );
        self.prev_line = line;
        self.prev_start = start;
    }

    /// Consume the builder and return the tokens.
    pub fn build(self) -> (r: Vec<SemanticToken>)
        ensures
            r@ == self@.tokens,
    {
        self.tokens
    }
}

/// The UTF-16 length of `s`, if it fits a `u32`.
fn utf16_len_checked(s: &str) -> (r: Option<u32>)
    ensures
        match r {
            Some(n) => n == utf16_units(s.spec_bytes()),
            None => utf16_units(s.spec_bytes()) > u32::MAX,
        },
{
    let bytes = s.as_bytes();
    let mut total: u64 = 0;
    let mut i: usize = 0;
    while i < bytes.len()
        invariant
            bytes@ == s.spec_bytes(),
            i <= bytes@.len(),
            total == utf16_units(bytes@.subrange(0, i as int)),
            total <= u32::MAX,
        decreases bytes@.len() - i,
    {
        assert(bytes@.subrange(0, (i + 1) as int).drop_last() =~= bytes@.subrange(0, i as int));
        let b = bytes[i];
        let units: u64 = if 0x80 <= b && b <= 0xbf { 0 } else if b >= 0xF0 { 2 } else { 1 };
        total = total + units;
        if total > 0xffff_ffff {
            proof {
                crate::position::lemma_utf16_units_prefix_mono(bytes@, i + 1, bytes@.len() as int);
                assert(bytes@.subrange(0, bytes@.len() as int) =~= bytes@);
            }
            return None;
        }
        i += 1;
    }
    assert(bytes@.subrange(0, i as int) =~= bytes@);
    Some(total as u32)
}

/// How a syntax element is highlighted, if at all: comments; identifiers of
/// targets (definitions, and built-in when a special target), of variable
/// definitions (definitions, and built-in when a built-in variable) and of
/// prerequisites.
pub open spec fn classify(t: TokenView) -> Option<(TokenType, u32)> {
    match t.text {
        None => None,
        Some(text) => if t.kind == KIND_COMMENT {
            Some((TokenType::Comment, 0u32))
        } else if t.kind == KIND_IDENTIFIER && t.parent_kind == Some(KIND_TARGETS) {
            Some((TokenType::Target, if pair_names(spec_special_targets()).contains(text) { 3u32 } else { 1u32 }))
        } else if t.kind == KIND_IDENTIFIER && t.parent_kind == Some(KIND_VARIABLE) {
            Some((TokenType::Variable, if spec_builtin_variables().contains(text) { 3u32 } else { 1u32 }))
        } else if t.kind == KIND_IDENTIFIER && t.parent_kind == Some(KIND_PREREQUISITE) {
            Some((TokenType::Prerequisite, 0u32))
        } else {
            None
        },
    }
}

/// The state of the builder after the elements `ts`, starting from
/// `start`: each classified token at its position, with its UTF-16 length,
/// unless its length does not fit a `u32` or it would come before the
/// previous token (the syntax tree yields its tokens in document order, so
/// neither happens).
pub open spec fn semantic_tokens_after(bs: Seq<u8>, ts: Seq<TokenView>, start: SemanticTokensBuilderView) -> SemanticTokensBuilderView
    decreases ts.len(),
{
    if ts.len() == 0 {
        start
    } else {
        let st = semantic_tokens_after(bs, ts.drop_last(), start);
        let t = ts.last();
        match classify(t) {
            None => st,
            Some((ty, mods)) => {
                let pos = spec_offset_to_position(bs, t.range.start as int);
                let units = utf16_units(utf8(t.text.unwrap()));
                if units <= u32::MAX && in_order(st.prev_line, st.prev_start, pos.line, pos.character) {
                    SemanticTokensBuilderView {
                        tokens: st.tokens.push(
                            delta_token(st.prev_line, st.prev_start, pos.line, pos.character, units as u32, ty, mods),
                        ),
                        prev_line: pos.line,
                        prev_start: pos.character,
                    }
                } else {
                    st
                }
            },
        }
    }
}

/// The semantic tokens of a text, from the elements of its syntax tree in
/// preorder.
pub open spec fn spec_semantic_tokens(bs: Seq<u8>, ts: Seq<TokenView>) -> Seq<SemanticToken> {
    semantic_tokens_after(bs, ts, SemanticTokensBuilderView { tokens: seq![], prev_line: 0, prev_start: 0 }).tokens
}

/// Generate semantic tokens for a Makefile.
pub fn generate_semantic_tokens(makefile: &Makefile, source_text: &str) -> (r: Vec<SemanticToken>)
    requires
        source_text.spec_bytes().len() <= u32::MAX,
    ensures
        r@ == spec_semantic_tokens(source_text.spec_bytes(), tokens_view(makefile.descendants@)),
{
    let ghost bs = source_text.spec_bytes();
    let ghost ts = tokens_view(makefile.descendants@);
    let ghost init = SemanticTokensBuilderView { tokens: seq![], prev_line: 0, prev_start: 0 };
    let mut builder = SemanticTokensBuilder::new();
    assert(builder@.tokens =~= init.tokens);
    let mut i: usize = 0;
    while i < makefile.descendants.len()
        invariant
            i <= makefile.descendants@.len(),
            bs == source_text.spec_bytes(),
            bs.len() <= u32::MAX,
            ts == tokens_view(makefile.descendants@),
            init == (SemanticTokensBuilderView { tokens: seq![], prev_line: 0, prev_start: 0 }),
            builder@ == semantic_tokens_after(bs, ts.subrange(0, i as int), init),
        decreases makefile.descendants@.len() - i,
    {
        let element = &makefile.descendants[i];
        assert(ts.subrange(0, i + 1).drop_last() =~= ts.subrange(0, i as int));
        assert(ts.subrange(0, i + 1).last() == element@);
        if let Some(text) = &element.text {
            let class: Option<(TokenType, u32)> = if element.kind == KIND_COMMENT {
                Some((TokenType::Comment, 0))
            } else if element.kind == KIND_IDENTIFIER && element.parent_kind == Some(KIND_TARGETS) {
                let mut mods = TokenModifier::Definition.bitmask();
                if is_special_target(text.as_str()) {
                    mods = mods | TokenModifier::DefaultLibrary.bitmask();
                    assert(1u32 | 2u32 == 3u32) by (bit_vector);
                }
                Some((TokenType::Target, mods))
            } else if element.kind == KIND_IDENTIFIER && element.parent_kind == Some(KIND_VARIABLE) {
                let mut mods = TokenModifier::Definition.bitmask();
                if is_builtin_variable(text.as_str()) {
                    mods = mods | TokenModifier::DefaultLibrary.bitmask();
                    assert(1u32 | 2u32 == 3u32) by (bit_vector);
                }
                Some((TokenType::Variable, mods))
            } else if element.kind == KIND_IDENTIFIER && element.parent_kind == Some(KIND_PREREQUISITE) {
                Some((TokenType::Prerequisite, 0))
            } else {
                None
            };
            assert(class == classify(element@));
            if let Some((ty, mods)) = class {
                let pos = offset_to_position(source_text, element.range.start);
                if let Some(length) = utf16_len_checked(text.as_str()) {
                    if builder.prev_line < pos.line || (builder.prev_line == pos.line && builder.prev_start
                        <= pos.character) {
                        builder.push(pos.line, pos.character, length, ty, mods);
                    }
                }
            }
        }
        i += 1;
    }
    assert(ts.subrange(0, i as int) =~= ts);
    builder.build()
}

/// Where the element `t` starts in the text.
pub open spec fn element_position(bs: Seq<u8>, t: TokenView) -> Position {
    spec_offset_to_position(bs, t.range.start as int)
}

/// Each element starts no earlier than the ones before it.
pub open spec fn in_document_order(bs: Seq<u8>, ts: Seq<TokenView>) -> bool {
    forall|j: int, k: int|
        0 <= j < k < ts.len() ==> {
            let a = element_position(bs, #[trigger] ts[j]);
            let b = element_position(bs, #[trigger] ts[k]);
            a.line < b.line || (a.line == b.line && a.character <= b.character)
        }
}

/// The builder with no token yet.
pub open spec fn empty_builder() -> SemanticTokensBuilderView {
    SemanticTokensBuilderView { tokens: seq![], prev_line: 0, prev_start: 0 }
}

/// The previous position of the builder is the origin or the start of an
/// element already seen.
proof fn lemma_builder_prev_seen(bs: Seq<u8>, ts: Seq<TokenView>, n: int)
    requires
        0 <= n <= ts.len(),
    ensures
        ({
            let st = semantic_tokens_after(bs, ts.subrange(0, n), empty_builder());
            (st.prev_line == 0 && st.prev_start == 0) || exists|j: int|
                0 <= j < n && st.prev_line == element_position(bs, #[trigger] ts[j]).line && st.prev_start
                    == element_position(bs, ts[j]).character
        }),
    decreases n,
{
    if n > 0 {
        lemma_builder_prev_seen(bs, ts, n - 1);
        assert(ts.subrange(0, n).drop_last() =~= ts.subrange(0, n - 1));
        assert(ts.subrange(0, n).last() == ts[n - 1]);
    }
}

/// The tokens after the first `n` elements begin the tokens after the
/// first `n2`.
proof fn lemma_tokens_grow(bs: Seq<u8>, ts: Seq<TokenView>, n: int, n2: int)
    requires
        0 <= n <= n2 <= ts.len(),
    ensures
        ({
            let a = semantic_tokens_after(bs, ts.subrange(0, n), empty_builder()).tokens;
            let b = semantic_tokens_after(bs, ts.subrange(0, n2), empty_builder()).tokens;
            a.len() <= b.len() && b.subrange(0, a.len() as int) == a
        }),
    decreases n2 - n,
{
    if n < n2 {
        lemma_tokens_grow(bs, ts, n, n2 - 1);
        assert(ts.subrange(0, n2).drop_last() =~= ts.subrange(0, n2 - 1));
        let a = semantic_tokens_after(bs, ts.subrange(0, n), empty_builder()).tokens;
        let b1 = semantic_tokens_after(bs, ts.subrange(0, n2 - 1), empty_builder()).tokens;
        let b = semantic_tokens_after(bs, ts.subrange(0, n2), empty_builder()).tokens;
        assert(b == b1 || exists|x: SemanticToken| b == b1.push(x));
        if b != b1 {
            let x = choose|x: SemanticToken| b == b1.push(x);
            assert(b.subrange(0, a.len() as int) =~= b1.subrange(0, a.len() as int));
        }
    } else {
        let a = semantic_tokens_after(bs, ts.subrange(0, n), empty_builder()).tokens;
        assert(a.subrange(0, a.len() as int) =~= a);
    }
}

/// In a text whose elements come in document order, every identifier of a
/// prerequisite yields a semantic token of type `Prerequisite`, without
/// modifiers, with the identifier's UTF-16 length, whose deltas decode to
/// the identifier's position; it follows the tokens of the elements
/// before it.
pub proof fn lemma_prerequisite_identifiers_highlighted(bs: Seq<u8>, ts: Seq<TokenView>, i: int)
    requires
        in_document_order(bs, ts),
        0 <= i < ts.len(),
        ts[i].kind == KIND_IDENTIFIER,
        ts[i].parent_kind == Some(KIND_PREREQUISITE),
        ts[i].text is Some,
        utf16_units(utf8(ts[i].text.unwrap())) <= u32::MAX,
    ensures
        ({
            let before = semantic_tokens_after(bs, ts.subrange(0, i), empty_builder());
            let k = before.tokens.len() as int;
            let out = spec_semantic_tokens(bs, ts);
            let pos = element_position(bs, ts[i]);
            &&& k < out.len()
            &&& out.subrange(0, k) == before.tokens
            &&& out[k].token_type == TokenType::Prerequisite.spec_index()
            &&& out[k].token_modifiers_bitset == 0
            &&& out[k].length == utf16_units(utf8(ts[i].text.unwrap()))
            &&& before.prev_line + out[k].delta_line == pos.line
            &&& (if out[k].delta_line == 0 {
                before.prev_start + out[k].delta_start
            } else {
                out[k].delta_start as int
            }) == pos.character
        }),
{
    let st = semantic_tokens_after(bs, ts.subrange(0, i), empty_builder());
    let t = ts[i];
    let pos = element_position(bs, t);
    let units = utf16_units(utf8(t.text.unwrap()));
    assert(ts.subrange(0, i + 1).drop_last() =~= ts.subrange(0, i));
    assert(ts.subrange(0, i + 1).last() == t);
    assert(classify(t) == Some((TokenType::Prerequisite, 0u32)));
    lemma_builder_prev_seen(bs, ts, i);
    assert(in_order(st.prev_line, st.prev_start, pos.line, pos.character)) by {
        if !(st.prev_line == 0 && st.prev_start == 0) {
            let j = choose|j: int|
                0 <= j < i && st.prev_line == element_position(bs, #[trigger] ts[j]).line && st.prev_start
                    == element_position(bs, ts[j]).character;
            assert(element_position(bs, ts[j]) == element_position(bs, ts[j]));
        }
    }
    let tok = delta_token(st.prev_line, st.prev_start, pos.line, pos.character, units as u32, TokenType::Prerequisite, 0u32);
    let after = semantic_tokens_after(bs, ts.subrange(0, i + 1), empty_builder());
    assert(after.tokens == st.tokens.push(tok));
    lemma_delta_token_decodes(st.prev_line, st.prev_start, pos.line, pos.character, units as u32, TokenType::Prerequisite, 0u32);
    lemma_tokens_grow(bs, ts, i + 1, ts.len() as int);
    assert(ts.subrange(0, ts.len() as int) =~= ts);
    let out = spec_semantic_tokens(bs, ts);
    assert(out.subrange(0, after.tokens.len() as int) == after.tokens);
    assert(out[st.tokens.len() as int] == after.tokens[st.tokens.len() as int]);
    assert(out.subrange(0, st.tokens.len() as int) =~= after.tokens.subrange(0, st.tokens.len() as int));
    assert(after.tokens.subrange(0, st.tokens.len() as int) =~= st.tokens);
}

} // verus!
