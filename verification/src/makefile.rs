//! A plain-value model of a parsed Makefile.
//!
//! Parsing is done by `makefile_lossless`; the values that the language
//! features read from its syntax tree (rules, variable definitions,
//! references, tokens, ...) are copied into the types of this module.

use vstd::prelude::*;
use rowan::ast::AstNode;

use crate::goto::{spec_is_in_prerequisites, spec_word_at_offset};
use crate::position::TextRange;
use crate::strs::{str_eq, strings_view};
use vstd::string::StringSliceAdditionalSpecFns;
use vstd::utf8::is_char_boundary;

verus! {

/// Raw kinds of the syntax tree produced by `makefile_lossless`, in the
/// discriminant order of its `SyntaxKind`.
pub const KIND_IDENTIFIER: u16 = 0;
pub const KIND_INDENT: u16 = 1;
pub const KIND_WHITESPACE: u16 = 3;
pub const KIND_COMMENT: u16 = 14;
pub const KIND_VARIABLE: u16 = 19;
pub const KIND_EXPR: u16 = 20;
pub const KIND_TARGETS: u16 = 21;
pub const KIND_PREREQUISITE: u16 = 23;

/// The kind and byte range of a child node.
#[derive(Debug, Clone, Copy, PartialEq, Eq, Structural)]
pub struct Span {
    pub kind: u16,
    pub range: TextRange,
}

/// A node of the syntax tree, with its depth (the number of its ancestors,
/// itself included) and its byte range.
#[derive(Debug, Clone, Copy, PartialEq, Eq, Structural)]
pub struct NodeInfo {
    pub kind: u16,
    pub depth: usize,
    pub range: TextRange,
}

/// A rule: targets, prerequisites and recipe.
pub struct Rule {
    pub targets: Vec<String>,
    pub prerequisites: Vec<String>,
    /// Byte range of the whole rule.
    pub range: TextRange,
    pub double_colon: bool,
    /// The recipe lines, without their prefix.
    pub recipes: Vec<String>,
}

/// The abstract content of a [`Rule`].
pub struct RuleView {
    pub targets: Seq<Seq<char>>,
    pub prerequisites: Seq<Seq<char>>,
    pub range: TextRange,
    pub double_colon: bool,
    pub recipes: Seq<Seq<char>>,
}

impl View for Rule {
    type V = RuleView;

    open spec fn view(&self) -> RuleView {
        RuleView {
            targets: strings_view(self.targets@),
            prerequisites: strings_view(self.prerequisites@),
            range: self.range,
            double_colon: self.double_colon,
            recipes: strings_view(self.recipes@),
        }
    }
}

/// A child of a syntax node: a token or a nested node.
pub struct Element {
    pub kind: u16,
    pub is_token: bool,
    pub range: TextRange,
    pub text: String,
}

/// The abstract content of an [`Element`].
pub struct ElementView {
    pub kind: u16,
    pub is_token: bool,
    pub range: TextRange,
    pub text: Seq<char>,
}

impl View for Element {
    type V = ElementView;

    open spec fn view(&self) -> ElementView {
        ElementView { kind: self.kind, is_token: self.is_token, range: self.range, text: self.text@ }
    }
}

pub open spec fn elements_view(v: Seq<Element>) -> Seq<ElementView> {
    v.map_values(|e: Element| e@)
}

/// A recipe line of a rule, with the children of its syntax node.
pub struct RecipeLine {
    pub range: TextRange,
    pub children: Vec<Element>,
}

pub struct RecipeLineView {
    pub range: TextRange,
    pub children: Seq<ElementView>,
}

impl View for RecipeLine {
    type V = RecipeLineView;

    open spec fn view(&self) -> RecipeLineView {
        RecipeLineView { range: self.range, children: elements_view(self.children@) }
    }
}

/// A variable definition such as `CC = gcc`.
pub struct VariableDefinition {
    pub name: Option<String>,
    /// The assignment operator (`=`, `:=`, `+=`, ...).
    pub operator: Option<String>,
    /// The value as written.
    pub raw_value: Option<String>,
    pub range: TextRange,
}

pub open spec fn opt_string_view(o: Option<String>) -> Option<Seq<char>> {
    match o {
        Some(s) => Some(s@),
        None => None,
    }
}

pub struct VariableDefinitionView {
    pub name: Option<Seq<char>>,
    pub operator: Option<Seq<char>>,
    pub raw_value: Option<Seq<char>>,
    pub range: TextRange,
}

impl View for VariableDefinition {
    type V = VariableDefinitionView;

    open spec fn view(&self) -> VariableDefinitionView {
        VariableDefinitionView {
            name: opt_string_view(self.name),
            operator: opt_string_view(self.operator),
            raw_value: opt_string_view(self.raw_value),
            range: self.range,
        }
    }
}

/// A variable reference or function call, `$(NAME ...)` or `${NAME ...}`.
pub struct VariableReference {
    pub name: Option<String>,
    /// Byte range from the `$` through the closing delimiter.
    pub range: TextRange,
    pub is_function_call: bool,
}

pub struct VariableReferenceView {
    pub name: Option<Seq<char>>,
    pub range: TextRange,
    pub is_function_call: bool,
}

impl View for VariableReference {
    type V = VariableReferenceView;

    open spec fn view(&self) -> VariableReferenceView {
        VariableReferenceView {
            name: opt_string_view(self.name),
            range: self.range,
            is_function_call: self.is_function_call,
        }
    }
}

/// A top-level item of the Makefile, as far as the features look at it.
pub enum Item {
    /// An `include` directive, with its path and the range of the path.
    Include { path: Option<String>, range: TextRange, path_range: Option<TextRange> },
    Other,
}

pub enum ItemView {
    Include { path: Option<Seq<char>>, range: TextRange, path_range: Option<TextRange> },
    Other,
}

impl View for Item {
    type V = ItemView;

    open spec fn view(&self) -> ItemView {
        match self {
            Item::Include { path, range, path_range } => ItemView::Include {
                path: opt_string_view(*path),
                range: *range,
                path_range: *path_range,
            },
            Item::Other => ItemView::Other,
        }
    }
}

/// An element of the syntax tree with the kind of its parent node; tokens
/// carry their text.
pub struct Token {
    pub kind: u16,
    pub parent_kind: Option<u16>,
    pub range: TextRange,
    pub text: Option<String>,
}

pub struct TokenView {
    pub kind: u16,
    pub parent_kind: Option<u16>,
    pub range: TextRange,
    pub text: Option<Seq<char>>,
}

impl View for Token {
    type V = TokenView;

    open spec fn view(&self) -> TokenView {
        TokenView {
            kind: self.kind,
            parent_kind: self.parent_kind,
            range: self.range,
            text: opt_string_view(self.text),
        }
    }
}

/// A child node with its own children.
pub struct Node {
    pub kind: u16,
    pub children: Vec<Element>,
}

pub struct NodeView {
    pub kind: u16,
    pub children: Seq<ElementView>,
}

impl View for Node {
    type V = NodeView;

    open spec fn view(&self) -> NodeView {
        NodeView { kind: self.kind, children: elements_view(self.children@) }
    }
}

/// A parse error with its position.
pub struct ParseError {
    pub range: TextRange,
    pub code: Option<String>,
    pub message: String,
}

pub struct ParseErrorView {
    pub range: TextRange,
    pub code: Option<Seq<char>>,
    pub message: Seq<char>,
}

impl View for ParseError {
    type V = ParseErrorView;

    open spec fn view(&self) -> ParseErrorView {
        ParseErrorView { range: self.range, code: opt_string_view(self.code), message: self.message@ }
    }
}

// What the parser of `makefile_lossless` finds in a text. Each is a
// function of the text alone: parsing is deterministic.

/// The rules of the Makefile in `text`, in source order.
pub uninterp spec fn parsed_rules(text: Seq<char>) -> Seq<RuleView>;

/// For each rule of `text`, its recipe lines.
pub uninterp spec fn parsed_recipe_lines(text: Seq<char>) -> Seq<Seq<RecipeLineView>>;

/// For each rule of `text`, the kinds and ranges of its child nodes.
pub uninterp spec fn parsed_rule_children(text: Seq<char>) -> Seq<Seq<Span>>;

/// The variable definitions of `text`, in source order.
pub uninterp spec fn parsed_variables(text: Seq<char>) -> Seq<VariableDefinitionView>;

/// For each variable definition of `text`, its child nodes.
pub uninterp spec fn parsed_variable_children(text: Seq<char>) -> Seq<Seq<NodeView>>;

/// All variable references and function calls of `text`, in preorder.
pub uninterp spec fn parsed_references(text: Seq<char>) -> Seq<VariableReferenceView>;

/// For each variable definition of `text`, what `VariableReference::cast`
/// makes of each descendant of its node, in preorder.
pub uninterp spec fn parsed_definition_casts(text: Seq<char>) -> Seq<Seq<Option<VariableReferenceView>>>;

/// The references among the results of casts, in order.
pub open spec fn cast_references(v: Seq<Option<VariableReferenceView>>) -> Seq<VariableReferenceView>
    decreases v.len(),
{
    if v.len() == 0 {
        seq![]
    } else {
        cast_references(v.drop_last()) + match v.last() {
            Some(r) => seq![r],
            None => seq![],
        }
    }
}

/// For each variable definition of `text`, the variable references within
/// it, in preorder.
pub open spec fn parsed_definition_references(text: Seq<char>) -> Seq<Seq<VariableReferenceView>> {
    parsed_definition_casts(text).map_values(|v: Seq<Option<VariableReferenceView>>| cast_references(v))
}

/// The top-level items of `text`.
pub uninterp spec fn parsed_items(text: Seq<char>) -> Seq<ItemView>;

/// The ranges of the top-level conditionals of `text`.
pub uninterp spec fn parsed_conditionals(text: Seq<char>) -> Seq<TextRange>;

/// The ranges of the blocks of consecutive comment lines of `text`.
pub uninterp spec fn parsed_comment_blocks(text: Seq<char>) -> Seq<TextRange>;

/// The nodes of the syntax tree of `text`, in preorder, from the root.
pub uninterp spec fn parsed_nodes(text: Seq<char>) -> Seq<NodeInfo>;

/// All elements of the syntax tree of `text`, in preorder.
pub uninterp spec fn parsed_descendants(text: Seq<char>) -> Seq<TokenView>;

/// The parse errors of `text`, with positions.
pub uninterp spec fn parsed_errors(text: Seq<char>) -> Seq<ParseErrorView>;

pub open spec fn rules_view(v: Seq<Rule>) -> Seq<RuleView> {
    v.map_values(|r: Rule| r@)
}

pub open spec fn recipe_lines_view(v: Seq<Vec<RecipeLine>>) -> Seq<Seq<RecipeLineView>> {
    v.map_values(|l: Vec<RecipeLine>| l@.map_values(|r: RecipeLine| r@))
}

pub open spec fn spans_view(v: Seq<Vec<Span>>) -> Seq<Seq<Span>> {
    v.map_values(|l: Vec<Span>| l@)
}

pub open spec fn variables_view(v: Seq<VariableDefinition>) -> Seq<VariableDefinitionView> {
    v.map_values(|d: VariableDefinition| d@)
}

pub open spec fn nodes_view(v: Seq<Vec<Node>>) -> Seq<Seq<NodeView>> {
    v.map_values(|n: Vec<Node>| n@.map_values(|c: Node| c@))
}

pub open spec fn references_view(v: Seq<VariableReference>) -> Seq<VariableReferenceView> {
    v.map_values(|r: VariableReference| r@)
}

pub open spec fn definition_references_view(v: Seq<Vec<VariableReference>>) -> Seq<Seq<VariableReferenceView>> {
    v.map_values(|l: Vec<VariableReference>| references_view(l@))
}

pub open spec fn items_view(v: Seq<Item>) -> Seq<ItemView> {
    v.map_values(|i: Item| i@)
}

pub open spec fn tokens_view(v: Seq<Token>) -> Seq<TokenView> {
    v.map_values(|t: Token| t@)
}

pub open spec fn errors_view(v: Seq<ParseError>) -> Seq<ParseErrorView> {
    v.map_values(|e: ParseError| e@)
}

/// A parsed Makefile: what the language features read from the syntax tree.
pub struct Makefile {
    pub rules: Vec<Rule>,
    /// For each rule, its recipe lines.
    pub recipe_lines: Vec<Vec<RecipeLine>>,
    /// For each rule, the kinds and ranges of its child nodes.
    pub rule_children: Vec<Vec<Span>>,
    pub variables: Vec<VariableDefinition>,
    /// For each variable definition, its child nodes.
    pub variable_children: Vec<Vec<Node>>,
    /// All variable references, in preorder.
    pub references: Vec<VariableReference>,
    /// For each variable definition, the variable references within it.
    pub definition_references: Vec<Vec<VariableReference>>,
    pub items: Vec<Item>,
    pub conditionals: Vec<TextRange>,
    pub comment_blocks: Vec<TextRange>,
    /// All elements of the syntax tree, in preorder.
    pub descendants: Vec<Token>,
    /// The nodes of the syntax tree, in preorder, from the root.
    pub nodes: Vec<NodeInfo>,
}

/// The result of parsing: the Makefile and the parse errors.
pub struct Parse {
    pub makefile: Makefile,
    pub errors: Vec<ParseError>,
}

/// The abstract content of a [`Makefile`].
pub struct MakefileView {
    pub rules: Seq<RuleView>,
    pub recipe_lines: Seq<Seq<RecipeLineView>>,
    pub rule_children: Seq<Seq<Span>>,
    pub variables: Seq<VariableDefinitionView>,
    pub variable_children: Seq<Seq<NodeView>>,
    pub references: Seq<VariableReferenceView>,
    pub definition_references: Seq<Seq<VariableReferenceView>>,
    pub items: Seq<ItemView>,
    pub conditionals: Seq<TextRange>,
    pub comment_blocks: Seq<TextRange>,
    pub descendants: Seq<TokenView>,
    pub nodes: Seq<NodeInfo>,
}

impl View for Makefile {
    type V = MakefileView;

    open spec fn view(&self) -> MakefileView {
        MakefileView {
            rules: rules_view(self.rules@),
            recipe_lines: recipe_lines_view(self.recipe_lines@),
            rule_children: spans_view(self.rule_children@),
            variables: variables_view(self.variables@),
            variable_children: nodes_view(self.variable_children@),
            references: references_view(self.references@),
            definition_references: definition_references_view(self.definition_references@),
            items: items_view(self.items@),
            conditionals: self.conditionals@,
            comment_blocks: self.comment_blocks@,
            descendants: tokens_view(self.descendants@),
            nodes: self.nodes@,
        }
    }
}

/// What `makefile_lossless` parses from `text`.
pub open spec fn parsed_makefile(text: Seq<char>) -> MakefileView {
    MakefileView {
        rules: parsed_rules(text),
        recipe_lines: parsed_recipe_lines(text),
        rule_children: parsed_rule_children(text),
        variables: parsed_variables(text),
        variable_children: parsed_variable_children(text),
        references: parsed_references(text),
        definition_references: parsed_definition_references(text),
        items: parsed_items(text),
        conditionals: parsed_conditionals(text),
        comment_blocks: parsed_comment_blocks(text),
        descendants: parsed_descendants(text),
        nodes: parsed_nodes(text),
    }
}

impl Makefile {
    /// Parse a Makefile. Parsing never fails; errors are recorded.
    pub fn parse(text: &str) -> (p: Parse)
        requires
            text.spec_bytes().len() <= u32::MAX,
        ensures
            p.makefile@ == parsed_makefile(text@),
            errors_view(p.errors@) == parsed_errors(text@),
    {
        Parse {
            makefile: Makefile {
                rules: lossless_rules(text),
                recipe_lines: lossless_recipe_lines(text),
                rule_children: lossless_rule_children(text),
                variables: lossless_variables(text),
                variable_children: lossless_variable_children(text),
                references: lossless_references(text),
                definition_references: definition_references_of(&lossless_definition_casts(text)),
                items: lossless_items(text),
                conditionals: lossless_conditionals(text),
                comment_blocks: lossless_comment_blocks(text),
                descendants: lossless_descendants(text),
                nodes: lossless_nodes(text),
            },
            errors: lossless_errors(text),
        }
    }

    /// The rules with `target` among their targets.
    pub open spec fn spec_rules_by_target(&self, target: Seq<char>) -> Seq<RuleView> {
        rules_view(self.rules@).filter(|r: RuleView| r.targets.contains(target))
    }

    /// `target` is a prerequisite of a `.PHONY` rule.
    pub open spec fn spec_is_phony(&self, target: Seq<char>) -> bool {
        exists|i: int|
            0 <= i < self.rules@.len() && #[trigger] self.rules@[i]@.targets.contains(".PHONY"@)
                && self.rules@[i]@.prerequisites.contains(target)
    }
}

/// Rules of the parse of `text` by `makefile_lossless` (`Makefile::rules`
/// with `Rule::targets`, `Rule::prerequisites`, the rule's range,
/// `Rule::is_double_colon` and `Rule::recipes`).
#[verifier::external_body]
fn lossless_rules(text: &str) -> (r: Vec<Rule>)
    requires
        text.spec_bytes().len() <= u32::MAX,
    ensures
        rules_view(r@) == parsed_rules(text@),
{
    let tree = makefile_lossless::Makefile::parse(text).tree();
    tree.rules().map(|r| {
        let range = r.syntax().text_range();
        Rule {
            targets: r.targets().collect(),
            prerequisites: r.prerequisites().collect(),
            range: TextRange { start: range.start().into(), end: range.end().into() },
            double_colon: r.is_double_colon(),
            recipes: r.recipes().collect(),
        }
    }).collect()
}

/// For each rule of the parse of `text` by `makefile_lossless`, its
/// `Rule::recipe_nodes` with their ranges and children.
#[verifier::external_body]
fn lossless_recipe_lines(text: &str) -> (r: Vec<Vec<RecipeLine>>)
    requires
        text.spec_bytes().len() <= u32::MAX,
    ensures
        recipe_lines_view(r@) == parsed_recipe_lines(text@),
{
    let tree = makefile_lossless::Makefile::parse(text).tree();
    tree.rules().map(|r| r.recipe_nodes().map(|n| {
        let range = n.syntax().text_range();
        RecipeLine {
            range: TextRange { start: range.start().into(), end: range.end().into() },
            children: n.syntax().children_with_tokens().map(|c| Element {
                kind: rowan::SyntaxKind::from(c.kind()).0,
                is_token: c.as_token().is_some(),
                range: TextRange { start: c.text_range().start().into(), end: c.text_range().end().into() },
                text: c.to_string(),
            }).collect(),
        }
    }).collect()).collect()
}

/// For each rule of the parse of `text` by `makefile_lossless`, the kinds
/// and ranges of the child nodes of its syntax node.
#[verifier::external_body]
fn lossless_rule_children(text: &str) -> (r: Vec<Vec<Span>>)
    requires
        text.spec_bytes().len() <= u32::MAX,
    ensures
        spans_view(r@) == parsed_rule_children(text@),
{
    let tree = makefile_lossless::Makefile::parse(text).tree();
    tree.rules().map(|r| r.syntax().children().map(|c| Span {
        kind: rowan::SyntaxKind::from(c.kind()).0,
        range: TextRange { start: c.text_range().start().into(), end: c.text_range().end().into() },
    }).collect()).collect()
}

/// Variable definitions of the parse of `text` by `makefile_lossless`
/// (`Makefile::variable_definitions` with `name`, `assignment_operator`,
/// `raw_value` and the definition's range).
#[verifier::external_body]
fn lossless_variables(text: &str) -> (r: Vec<VariableDefinition>)
    requires
        text.spec_bytes().len() <= u32::MAX,
    ensures
        variables_view(r@) == parsed_variables(text@),
{
    let tree = makefile_lossless::Makefile::parse(text).tree();
    tree.variable_definitions().map(|v| {
        let range = v.syntax().text_range();
        VariableDefinition {
            name: v.name(),
            operator: v.assignment_operator(),
            raw_value: v.raw_value(),
            range: TextRange { start: range.start().into(), end: range.end().into() },
        }
    }).collect()
}

/// For each variable definition of the parse of `text` by
/// `makefile_lossless`, its child nodes with their children.
#[verifier::external_body]
fn lossless_variable_children(text: &str) -> (r: Vec<Vec<Node>>)
    requires
        text.spec_bytes().len() <= u32::MAX,
    ensures
        nodes_view(r@) == parsed_variable_children(text@),
{
    let tree = makefile_lossless::Makefile::parse(text).tree();
    tree.variable_definitions().map(|v| v.syntax().children().map(|n| Node {
        kind: rowan::SyntaxKind::from(n.kind()).0,
        children: n.children_with_tokens().map(|c| Element {
            kind: rowan::SyntaxKind::from(c.kind()).0,
            is_token: c.as_token().is_some(),
            range: TextRange { start: c.text_range().start().into(), end: c.text_range().end().into() },
            text: c.to_string(),
        }).collect(),
    }).collect()).collect()
}

/// All variable references of the parse of `text` by `makefile_lossless`
/// (`Makefile::variable_references` with `name`, `text_range` and
/// `is_function_call`).
#[verifier::external_body]
fn lossless_references(text: &str) -> (r: Vec<VariableReference>)
    requires
        text.spec_bytes().len() <= u32::MAX,
    ensures
        references_view(r@) == parsed_references(text@),
{
    let tree = makefile_lossless::Makefile::parse(text).tree();
    tree.variable_references().map(|v| {
        let range = v.text_range();
        VariableReference {
            name: v.name(),
            range: TextRange { start: range.start().into(), end: range.end().into() },
            is_function_call: v.is_function_call(),
        }
    }).collect()
}

pub open spec fn opt_reference_view(o: Option<VariableReference>) -> Option<VariableReferenceView> {
    match o {
        Some(r) => Some(r@),
        None => None,
    }
}

pub open spec fn definition_casts_view(v: Seq<Vec<Option<VariableReference>>>) -> Seq<Seq<Option<VariableReferenceView>>> {
    v.map_values(|c: Vec<Option<VariableReference>>| c@.map_values(|o: Option<VariableReference>| opt_reference_view(o)))
}

/// For each variable definition of the parse of `text` by
/// `makefile_lossless`, `VariableReference::cast` of each descendant of its
/// node, with `name`, `text_range` and `is_function_call` of what it casts.
#[verifier::external_body]
fn lossless_definition_casts(text: &str) -> (r: Vec<Vec<Option<VariableReference>>>)
    requires
        text.spec_bytes().len() <= u32::MAX,
    ensures
        definition_casts_view(r@) == parsed_definition_casts(text@),
{
    let tree = makefile_lossless::Makefile::parse(text).tree();
    tree.variable_definitions().map(|v| v.syntax().descendants()
        .map(|d| makefile_lossless::VariableReference::cast(d).map(|r| VariableReference {
            name: r.name(),
            range: TextRange { start: r.text_range().start().into(), end: r.text_range().end().into() },
            is_function_call: r.is_function_call(),
        })).collect()).collect()
}

/// The references among the casts of each definition, in order.
fn definition_references_of(casts: &Vec<Vec<Option<VariableReference>>>) -> (r: Vec<Vec<VariableReference>>)
    ensures
        definition_references_view(r@) == definition_casts_view(casts@).map_values(
            |v: Seq<Option<VariableReferenceView>>| cast_references(v),
        ),
{
    let ghost cv = definition_casts_view(casts@);
    let mut out: Vec<Vec<VariableReference>> = Vec::new();
    let mut i: usize = 0;
    while i < casts.len()
        invariant
            i <= casts@.len(),
            cv == definition_casts_view(casts@),
            definition_references_view(out@) == cv.subrange(0, i as int).map_values(
                |v: Seq<Option<VariableReferenceView>>| cast_references(v),
            ),
        decreases casts@.len() - i,
    {
        let defs = &casts[i];
        let ghost dv = cv[i as int];
        assert(dv == defs@.map_values(|o: Option<VariableReference>| opt_reference_view(o)));
        let mut refs: Vec<VariableReference> = Vec::new();
        let mut j: usize = 0;
        while j < defs.len()
            invariant
                j <= defs@.len(),
                dv == defs@.map_values(|o: Option<VariableReference>| opt_reference_view(o)),
                references_view(refs@) == cast_references(dv.subrange(0, j as int)),
            decreases defs@.len() - j,
        {
            assert(dv.subrange(0, j + 1).drop_last() =~= dv.subrange(0, j as int));
            match &defs[j] {
                Some(r) => {
                    let name = match &r.name {
                        Some(n) => Some(n.clone()),
                        None => None,
                    };
                    refs.push(VariableReference { name, range: r.range, is_function_call: r.is_function_call });
                    assert(references_view(refs@) =~= cast_references(dv.subrange(0, j + 1)));
                },
                None => {
                    assert(references_view(refs@) =~= cast_references(dv.subrange(0, j + 1)));
                },
            }
            j += 1;
        }
        assert(dv.subrange(0, j as int) =~= dv);
        let ghost before = out@;
        out.push(refs);
        assert(definition_references_view(out@) =~= definition_references_view(before).push(
            cast_references(dv),
        ));
        assert(cv.subrange(0, i + 1).map_values(|v: Seq<Option<VariableReferenceView>>| cast_references(v))
            =~= cv.subrange(0, i as int).map_values(|v: Seq<Option<VariableReferenceView>>| cast_references(v)).push(
            cast_references(dv),
        ));
        i += 1;
    }
    assert(cv.subrange(0, i as int) =~= cv);
    out
}

/// Top-level items of the parse of `text` by `makefile_lossless`
/// (`Makefile::items`), with `Include::path` and `Include::path_range`
/// for include directives.
#[verifier::external_body]
fn lossless_items(text: &str) -> (r: Vec<Item>)
    requires
        text.spec_bytes().len() <= u32::MAX,
    ensures
        items_view(r@) == parsed_items(text@),
{
    let tree = makefile_lossless::Makefile::parse(text).tree();
    let conv = |r: rowan::TextRange| TextRange { start: r.start().into(), end: r.end().into() };
    tree.items().map(|i| match i {
        makefile_lossless::MakefileItem::Include(inc) => Item::Include {
            path: inc.path(),
            range: conv(inc.syntax().text_range()),
            path_range: inc.path_range().map(conv),
        },
        _ => Item::Other,
    }).collect()
}

/// Ranges of `Makefile::conditionals` of the parse of `text`.
#[verifier::external_body]
fn lossless_conditionals(text: &str) -> (r: Vec<TextRange>)
    requires
        text.spec_bytes().len() <= u32::MAX,
    ensures
        r@ == parsed_conditionals(text@),
{
    let tree = makefile_lossless::Makefile::parse(text).tree();
    tree.conditionals().map(|c| {
        let range = c.syntax().text_range();
        TextRange { start: range.start().into(), end: range.end().into() }
    }).collect()
}

/// `Makefile::comment_blocks` of the parse of `text`.
#[verifier::external_body]
fn lossless_comment_blocks(text: &str) -> (r: Vec<TextRange>)
    requires
        text.spec_bytes().len() <= u32::MAX,
    ensures
        r@ == parsed_comment_blocks(text@),
{
    let tree = makefile_lossless::Makefile::parse(text).tree();
    tree.comment_blocks().map(|range| TextRange {
        start: range.start().into(),
        end: range.end().into(),
    }).collect()
}

/// The descendants of the syntax tree of the parse of `text`, in preorder,
/// with the kinds of their parents and the text of tokens.
#[verifier::external_body]
fn lossless_descendants(text: &str) -> (r: Vec<Token>)
    requires
        text.spec_bytes().len() <= u32::MAX,
    ensures
        tokens_view(r@) == parsed_descendants(text@),
{
    let tree = makefile_lossless::Makefile::parse(text).tree();
    tree.syntax().descendants_with_tokens().map(|e| {
        let range = e.text_range();
        Token {
            kind: rowan::SyntaxKind::from(e.kind()).0,
            parent_kind: e.parent().map(|p| rowan::SyntaxKind::from(p.kind()).0),
            range: TextRange { start: range.start().into(), end: range.end().into() },
            text: e.as_token().map(|t| t.text().to_string()),
        }
    }).collect()
}

/// The nodes of the syntax tree of the parse of `text`
/// (`SyntaxNode::descendants` of the root), with their kinds, the number
/// of their `ancestors` and their ranges.
#[verifier::external_body]
fn lossless_nodes(text: &str) -> (r: Vec<NodeInfo>)
    requires
        text.spec_bytes().len() <= u32::MAX,
    ensures
        r@ == parsed_nodes(text@),
{
    let tree = makefile_lossless::Makefile::parse(text).tree();
    tree.syntax().descendants().map(|n| NodeInfo {
        kind: rowan::SyntaxKind::from(n.kind()).0,
        depth: n.ancestors().count(),
        range: TextRange { start: n.text_range().start().into(), end: n.text_range().end().into() },
    }).collect()
}

/// `Parse::positioned_errors` of the parse of `text`.
#[verifier::external_body]
fn lossless_errors(text: &str) -> (r: Vec<ParseError>)
    requires
        text.spec_bytes().len() <= u32::MAX,
    ensures
        errors_view(r@) == parsed_errors(text@),
{
    let parsed = makefile_lossless::Makefile::parse(text);
    parsed.positioned_errors().iter().map(|e| ParseError {
        range: TextRange { start: e.range.start().into(), end: e.range.end().into() },
        code: e.code.clone(),
        message: e.message.clone(),
    }).collect()
}


/// The name of the innermost `$(VAR)`/`${VAR}` reference around byte
/// `offset` of `text`, as `makefile_lossless::variable_at_offset` finds it.
pub uninterp spec fn lossless_variable_name_at(text: Seq<char>, offset: usize) -> Option<Seq<char>>;

/// `makefile_lossless::variable_at_offset`: the name of the innermost
/// variable reference around `offset`, found by the crate's reference
/// splitter on the line of `offset`. What it finds is named, not stated.
#[verifier::external_body]
#[allow(deprecated)]
pub(crate) fn lossless_variable_at_offset<'a>(text: &'a str, offset: usize) -> (r: Option<&'a str>)
    ensures
        match r {
            Some(n) => lossless_variable_name_at(text@, offset) == Some(n@),
            None => lossless_variable_name_at(text@, offset) is None,
        },
{
    makefile_lossless::variable_at_offset(text, offset)
}

/// `makefile_lossless::word_at_offset`: `None` unless `offset` is a
/// character boundary of `text`; then the run of word bytes (ASCII
/// alphanumerics, `_`, `.`, `-`) around it, as `spec_word_at_offset` says.
#[verifier::external_body]
#[allow(deprecated)]
pub(crate) fn lossless_word_at_offset<'a>(text: &'a str, offset: usize) -> (r: Option<&'a str>)
    ensures
        match r {
            Some(w) => is_char_boundary(text.spec_bytes(), offset as int) && (spec_word_at_offset(
                text.spec_bytes(),
                offset as int,
            ) matches Some((s, e)) && w.spec_bytes() == text.spec_bytes().subrange(s, e)),
            None => !is_char_boundary(text.spec_bytes(), offset as int) || spec_word_at_offset(
                text.spec_bytes(),
                offset as int,
            ) is None,
        },
{
    makefile_lossless::word_at_offset(text, offset)
}

/// `makefile_lossless::is_in_prerequisites`: `false` unless `offset` is a
/// character boundary of `text`; then whether a `:` comes before it on its
/// line, which is not a recipe line, as `spec_is_in_prerequisites` says.
#[verifier::external_body]
#[allow(deprecated)]
pub(crate) fn lossless_is_in_prerequisites(text: &str, offset: usize) -> (r: bool)
    ensures
        r == (is_char_boundary(text.spec_bytes(), offset as int) && spec_is_in_prerequisites(
            text.spec_bytes(),
            offset as int,
        )),
{
    makefile_lossless::is_in_prerequisites(text, offset)
}

} // verus!
