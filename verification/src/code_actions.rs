//! Code actions for Makefiles.

use vstd::prelude::*;
use vstd::string::StringSliceAdditionalSpecFns;
use rowan::ast::AstNode;

use crate::makefile::{
    elements_view, lossless_variable_at_offset, lossless_variable_name_at, opt_string_view, recipe_lines_view,
    Element, ElementView, Makefile, MakefileView, Parse, RecipeLine, RecipeLineView, RuleView,
    VariableDefinitionView, VariableReferenceView, KIND_INDENT,
};
use crate::position::{
    lsp_range, offset_to_position, spec_offset_to_position, spec_position_to_offset, text_range_to_lsp_range,
    try_position_to_offset, Position, Range, TextRange,
};
use crate::rename::{edits_view, EditView, TextEdit, WorkspaceEdit};
use crate::scip::{defined_names, defined_variable_names};
use crate::strs::{bytes_contain, contains_string, push_str, starts_with_tab, str_eq, strings_view, utf8};

verus! {

/// The kind of a code action.
#[derive(Debug, Clone, Copy, PartialEq, Eq, Structural)]
pub enum CodeActionKind {
    QuickFix,
}

/// A titled change to the document.
pub struct CodeAction {
    pub title: String,
    pub kind: Option<CodeActionKind>,
    pub edit: Option<WorkspaceEdit>,
}

/// A quick fix with its title and its single edit.
pub type FixView = (Seq<char>, EditView);

/// `a` is the quick fix `fix` on the document `uri`.
pub open spec fn is_fix(a: CodeAction, fix: FixView, uri: Seq<char>) -> bool {
    &&& a.title@ == fix.0
    &&& a.kind == Some(CodeActionKind::QuickFix)
    &&& a.edit matches Some(w) && w.uri@ == uri && edits_view(w.edits@) == seq![fix.1]
}

/// `actions` are the fixes `fixes` that are present, in order.
pub open spec fn are_fixes(actions: Seq<CodeAction>, fixes: Seq<Option<FixView>>, uri: Seq<char>) -> bool
    decreases fixes.len(),
{
    if fixes.len() == 0 {
        actions.len() == 0
    } else {
        match fixes.last() {
            Some(f) => actions.len() > 0 && is_fix(actions.last(), f, uri) && are_fixes(
                actions.drop_last(),
                fixes.drop_last(),
                uri,
            ),
            None => are_fixes(actions, fixes.drop_last(), uri),
        }
    }
}

/// The range of an insertion at `p`.
pub open spec fn at(p: Position) -> Range {
    Range { start: p, end: p }
}

// ---- Add to .PHONY ----

/// The first target of `r` from index `k` on whose name, written from the
/// rule's start, covers byte `o`.
pub open spec fn target_at_in_rule(r: RuleView, o: int, k: int) -> Option<Seq<char>>
    decreases r.targets.len() - k,
{
    if k < 0 || k >= r.targets.len() {
        None
    } else if r.range.start <= o < r.range.start + utf8(r.targets[k]).len() {
        Some(r.targets[k])
    } else {
        target_at_in_rule(r, o, k + 1)
    }
}

/// The target under byte `o`, looked for rule by rule from rule `i` on.
pub open spec fn target_at(rules: Seq<RuleView>, o: int, i: int) -> Option<Seq<char>>
    decreases rules.len() - i,
{
    if i < 0 || i >= rules.len() {
        None
    } else {
        match target_at_in_rule(rules[i], o, 0) {
            Some(t) => Some(t),
            None => target_at(rules, o, i + 1),
        }
    }
}

/// `t` is a prerequisite of a `.PHONY` rule.
pub open spec fn phony_listed(rules: Seq<RuleView>, t: Seq<char>) -> bool {
    exists|i: int|
        0 <= i < rules.len() && #[trigger] rules[i].targets.contains(".PHONY"@) && rules[i].prerequisites.contains(t)
}

/// The last rule with a `.PHONY` target among the first `n` rules.
pub open spec fn last_phony_rule(rules: Seq<RuleView>, n: int) -> Option<RuleView>
    decreases n,
{
    if n <= 0 || n > rules.len() {
        None
    } else if rules[n - 1].targets.contains(".PHONY"@) {
        Some(rules[n - 1])
    } else {
        last_phony_rule(rules, n - 1)
    }
}

/// "Add to .PHONY" for the target under byte `o`, unless it is phony
/// already, starts with `.` or holds a `%`: a `.PHONY: target` line
/// inserted at the start of the line where the last `.PHONY` rule ends, or
/// at the top of the file.
pub open spec fn phony_fix(bs: Seq<u8>, m: MakefileView, o: int) -> Option<FixView> {
    match target_at(m.rules, o, 0) {
        None => None,
        Some(t) => if phony_listed(m.rules, t) || (utf8(t).len() > 0 && utf8(t)[0] == 0x2e) || utf8(t).contains(
            0x25u8,
        ) {
            None
        } else {
            let p = match last_phony_rule(m.rules, m.rules.len() as int) {
                Some(r) => Position { line: spec_offset_to_position(bs, r.range.end as int).line, character: 0 },
                None => Position { line: 0, character: 0 },
            };
            Some(("Add '"@ + t + "' to .PHONY"@, (at(p), ".PHONY: "@ + t + "\n"@)))
        },
    }
}

// ---- Define variable ----

/// "Define variable" for the variable referenced around byte `o` when no
/// definition names it: `NAME =` inserted at the top of the file.
pub open spec fn define_fix(text: Seq<char>, m: MakefileView, o: int) -> Option<FixView> {
    match lossless_variable_name_at(text, o as usize) {
        None => None,
        Some(v) => if defined_names(m.variables).contains(v) {
            None
        } else {
            Some(("Define variable '"@ + v + "'"@, (at(Position { line: 0, character: 0 }), v + " =\n"@)))
        },
    }
}

// ---- Replace spaces with tab ----

/// The first recipe line of `lines` from index `j` on whose range holds
/// byte `o`.
pub open spec fn line_at_in(lines: Seq<RecipeLineView>, o: int, j: int) -> Option<RecipeLineView>
    decreases lines.len() - j,
{
    if j < 0 || j >= lines.len() {
        None
    } else if lines[j].range.start <= o < lines[j].range.end {
        Some(lines[j])
    } else {
        line_at_in(lines, o, j + 1)
    }
}

/// The first recipe line, rule by rule from rule `i` on, whose range holds
/// byte `o`.
pub open spec fn recipe_line_at(all: Seq<Seq<RecipeLineView>>, o: int, i: int) -> Option<RecipeLineView>
    decreases all.len() - i,
{
    if i < 0 || i >= all.len() {
        None
    } else {
        match line_at_in(all[i], o, 0) {
            Some(l) => Some(l),
            None => recipe_line_at(all, o, i + 1),
        }
    }
}

/// The first indentation token among the children from index `k` on.
pub open spec fn indent_in(children: Seq<ElementView>, k: int) -> Option<ElementView>
    decreases children.len() - k,
{
    if k < 0 || k >= children.len() {
        None
    } else if children[k].is_token && children[k].kind == KIND_INDENT {
        Some(children[k])
    } else {
        indent_in(children, k + 1)
    }
}

/// "Replace spaces with tab" for the recipe line under byte `o` when its
/// indentation does not start with a tab: a tab replacing the indentation.
pub open spec fn tab_fix(bs: Seq<u8>, m: MakefileView, o: int) -> Option<FixView> {
    match recipe_line_at(m.recipe_lines, o, 0) {
        None => None,
        Some(l) => match indent_in(l.children, 0) {
            None => None,
            Some(tok) => if tok.text.len() > 0 && tok.text[0] == '\t' {
                None
            } else {
                Some(("Replace spaces with tab"@, (lsp_range(bs, tok.range), "\t"@)))
            },
        },
    }
}

// ---- Remove trailing whitespace / use := ----

/// The text of the `k`-th variable definition of `text` after
/// `VariableDefinition::trim_trailing_value_whitespace`, when that removes
/// whitespace.
pub uninterp spec fn lossless_trimmed_definition(text: Seq<char>, k: usize) -> Option<Seq<char>>;

/// The text of the `k`-th variable definition of `text` after
/// `VariableDefinition::try_set_assignment_operator(op)`, when the crate
/// accepts the change.
pub uninterp spec fn lossless_operator_edit(text: Seq<char>, k: usize, op: Seq<char>) -> Option<Seq<char>>;

/// `VariableDefinition::trim_trailing_value_whitespace` of
/// `makefile_lossless` on the `k`-th definition of the parse of `text`:
/// the definition's new text when it removed the whitespace at the end of
/// the value. Which whitespace it finds is named, not stated.
#[verifier::external_body]
fn trim_definition(text: &str, k: usize) -> (r: Option<String>)
    requires
        text.spec_bytes().len() <= u32::MAX,
    ensures
        opt_string_view(r) == lossless_trimmed_definition(text@, k),
{
    let mut v = makefile_lossless::Makefile::parse(text).tree().variable_definitions().nth(k)?;
    match v.trim_trailing_value_whitespace() {
        true => Some(v.syntax().text().to_string()),
        false => None,
    }
}

/// `VariableDefinition::try_set_assignment_operator` of `makefile_lossless`
/// on the `k`-th definition of the parse of `text`: the definition's new
/// text, or `None` when the crate refuses the operator (where
/// `set_assignment_operator` panics). The result is named, not stated.
#[verifier::external_body]
fn set_operator(text: &str, k: usize, op: &str) -> (r: Option<String>)
    requires
        text.spec_bytes().len() <= u32::MAX,
    ensures
        opt_string_view(r) == lossless_operator_edit(text@, k, op@),
{
    let mut v = makefile_lossless::Makefile::parse(text).tree().variable_definitions().nth(k)?;
    match v.try_set_assignment_operator(op) {
        Ok(()) => Some(v.syntax().text().to_string()),
        Err(_) => None,
    }
}

/// Index of the first variable definition from `k` on whose range holds
/// byte `o`.
pub open spec fn definition_at(vars: Seq<VariableDefinitionView>, o: int, k: int) -> Option<int>
    decreases vars.len() - k,
{
    if k < 0 || k >= vars.len() {
        None
    } else if vars[k].range.start <= o < vars[k].range.end {
        Some(k)
    } else {
        definition_at(vars, o, k + 1)
    }
}

/// "Remove trailing whitespace" for the definition under byte `o`: its
/// range replaced by its text without the value's trailing whitespace.
pub open spec fn trim_fix(bs: Seq<u8>, text: Seq<char>, m: MakefileView, o: int) -> Option<FixView> {
    match definition_at(m.variables, o, 0) {
        None => None,
        Some(k) => match lossless_trimmed_definition(text, k as usize) {
            None => None,
            Some(t) => Some(("Remove trailing whitespace"@, (lsp_range(bs, m.variables[k].range), t))),
        },
    }
}

/// A call of the `shell` function among the references.
pub open spec fn calls_shell(refs: Seq<VariableReferenceView>) -> bool {
    exists|i: int| 0 <= i < refs.len() && (#[trigger] refs[i]).is_function_call && refs[i].name == Some("shell"@)
}

/// The definition under byte `o` when it is recursive (`=`) and its value
/// calls `shell`.
pub open spec fn shell_definition_at(m: MakefileView, o: int) -> Option<int> {
    match definition_at(m.variables, o, 0) {
        None => None,
        Some(k) => if m.variables[k].operator == Some("="@) && k < m.definition_references.len() && calls_shell(
            m.definition_references[k],
        ) {
            Some(k)
        } else {
            None
        },
    }
}

/// "Use := for shell expansion" for such a definition: its range replaced
/// by its text with `:=` as operator.
pub open spec fn simple_fix(bs: Seq<u8>, text: Seq<char>, m: MakefileView, o: int) -> Option<FixView> {
    match shell_definition_at(m, o) {
        None => None,
        Some(k) => match lossless_operator_edit(text, k as usize, ":="@) {
            None => None,
            Some(t) => Some(("Use := for shell expansion"@, (lsp_range(bs, m.variables[k].range), t))),
        },
    }
}

/// Where the action of `:=` applies, the crate accepts the operator (it
/// panics otherwise).
pub open spec fn operator_change_accepted(text: Seq<char>, m: MakefileView, o: int) -> bool {
    shell_definition_at(m, o) matches Some(k) ==> lossless_operator_edit(text, k as usize, ":="@) is Some
}

/// The fixes offered at the start of `range`, in order.
pub open spec fn spec_code_actions(bs: Seq<u8>, text: Seq<char>, m: MakefileView, range: Range) -> Seq<Option<FixView>> {
    match spec_position_to_offset(bs, range.start) {
        None => seq![],
        Some(o) => seq![
            phony_fix(bs, m, o),
            define_fix(text, m, o),
            tab_fix(bs, m, o),
            trim_fix(bs, text, m, o),
            simple_fix(bs, text, m, o),
        ],
    }
}

/// The quick fix `fix` on the document `uri`.
fn make_fix(title: String, range: Range, new_text: String, uri: &str) -> (a: CodeAction)
    ensures
        is_fix(a, (title@, (range, new_text@)), uri@),
{
    let mut edits: Vec<TextEdit> = Vec::new();
    edits.push(TextEdit { range, new_text });
    assert(edits_view(edits@) =~= seq![(range, new_text@)]);
    CodeAction {
        title,
        kind: Some(CodeActionKind::QuickFix),
        edit: Some(WorkspaceEdit { uri: uri.to_owned(), edits }),
    }
}

/// The target under `byte_offset`.
fn target_at_exec(makefile: &Makefile, byte_offset: usize) -> (r: Option<&String>)
    ensures
        match r {
            Some(t) => target_at(makefile@.rules, byte_offset as int, 0) == Some(t@),
            None => target_at(makefile@.rules, byte_offset as int, 0) is None,
        },
{
    let ghost rules = makefile@.rules;
    let mut i: usize = 0;
    while i < makefile.rules.len()
        invariant
            i <= makefile.rules@.len(),
            rules == makefile@.rules,
            rules.len() == makefile.rules@.len(),
            target_at(rules, byte_offset as int, 0) == target_at(rules, byte_offset as int, i as int),
        decreases makefile.rules@.len() - i,
    {
        let rule = &makefile.rules[i];
        assert(rules[i as int] == rule@);
        let start = rule.range.start as usize;
        let mut k: usize = 0;
        while k < rule.targets.len()
            invariant
                k <= rule.targets@.len(),
                i < rules.len(),
                rules == makefile@.rules,
                target_at(rules, byte_offset as int, 0) == target_at(rules, byte_offset as int, i as int),
                rules[i as int] == rule@,
                start == rule.range.start,
                target_at_in_rule(rule@, byte_offset as int, 0) == target_at_in_rule(rule@, byte_offset as int, k as int),
            decreases rule.targets@.len() - k,
        {
            let t = &rule.targets[k];
            assert(rule@.targets[k as int] == t@);
            let ts = t.as_str();
            let tlen = ts.as_bytes().len();
            assert(ts.spec_bytes() == utf8(t@));
            if byte_offset >= start && byte_offset - start < tlen {
                assert(target_at_in_rule(rule@, byte_offset as int, k as int) == Some(t@));
                assert(target_at(rules, byte_offset as int, i as int) == Some(t@));
                return Some(t);
            }
            k += 1;
        }
        i += 1;
    }
    None
}

/// Is `t` a prerequisite of a `.PHONY` rule?
fn phony_listed_exec(makefile: &Makefile, t: &str) -> (r: bool)
    ensures
        r == phony_listed(makefile@.rules, t@),
{
    let ghost rules = makefile@.rules;
    let mut i: usize = 0;
    while i < makefile.rules.len()
        invariant
            i <= makefile.rules@.len(),
            rules == makefile@.rules,
            forall|j: int|
                0 <= j < i ==> !(#[trigger] rules[j].targets.contains(".PHONY"@) && rules[j].prerequisites.contains(t@)),
        decreases makefile.rules@.len() - i,
    {
        let rule = &makefile.rules[i];
        assert(rules[i as int] == rule@);
        if contains_string(&rule.targets, ".PHONY") && contains_string(&rule.prerequisites, t) {
            assert(rules[i as int].targets.contains(".PHONY"@) && rules[i as int].prerequisites.contains(t@));
            return true;
        }
        i += 1;
    }
    false
}

/// Index of the last `.PHONY` rule.
fn last_phony_index(makefile: &Makefile) -> (r: Option<usize>)
    ensures
        match r {
            Some(k) => k < makefile@.rules.len() && last_phony_rule(makefile@.rules, makefile@.rules.len() as int)
                == Some(makefile@.rules[k as int]),
            None => last_phony_rule(makefile@.rules, makefile@.rules.len() as int) is None,
        },
{
    let ghost rules = makefile@.rules;
    let mut n = makefile.rules.len();
    while n > 0
        invariant
            n <= rules.len(),
            rules == makefile@.rules,
            rules.len() == makefile.rules@.len(),
            last_phony_rule(rules, rules.len() as int) == last_phony_rule(rules, n as int),
        decreases n,
    {
        assert(rules[n - 1] == makefile.rules@[n - 1]@);
        if contains_string(&makefile.rules[n - 1].targets, ".PHONY") {
            return Some(n - 1);
        }
        n -= 1;
    }
    None
}

/// Offer "Add to .PHONY" for a target name.
fn add_phony_action(makefile: &Makefile, source_text: &str, byte_offset: usize, uri: &str) -> (r: Option<CodeAction>)
    requires
        source_text.spec_bytes().len() <= u32::MAX,
    ensures
        match phony_fix(source_text.spec_bytes(), makefile@, byte_offset as int) {
            Some(f) => r matches Some(a) && is_fix(a, f, uri@),
            None => r is None,
        },
{
    let target = target_at_exec(makefile, byte_offset)?;
    if phony_listed_exec(makefile, target.as_str()) {
        return None;
    }
    let tb = target.as_str().as_bytes();
    if (tb.len() > 0 && tb[0] == 0x2e) || bytes_contain(tb, 0x25) {
        return None;
    }
    let pos = match last_phony_index(makefile) {
        Some(k) => {
            let end = offset_to_position(source_text, makefile.rules[k].range.end);
            Position { line: end.line, character: 0 }
        },
        None => Position { line: 0, character: 0 },
    };
    let mut text = String::new();
    push_str(&mut text, ".PHONY: ");
    push_str(&mut text, target.as_str());
    push_str(&mut text, "\n");
    let mut title = String::new();
    push_str(&mut title, "Add '");
    push_str(&mut title, target.as_str());
    push_str(&mut title, "' to .PHONY");
    assert(text@ =~= ".PHONY: "@ + target@ + "\n"@);
    assert(title@ =~= "Add '"@ + target@ + "' to .PHONY"@);
    Some(make_fix(title, Range { start: pos, end: pos }, text, uri))
}

/// Offer "Define variable" for an undefined variable reference.
fn define_variable_action(makefile: &Makefile, source_text: &str, byte_offset: usize, uri: &str) -> (r: Option<CodeAction>)
    ensures
        match define_fix(source_text@, makefile@, byte_offset as int) {
            Some(f) => r matches Some(a) && is_fix(a, f, uri@),
            None => r is None,
        },
{
    let var_name = lossless_variable_at_offset(source_text, byte_offset)?;
    let defined = defined_variable_names(makefile);
    if contains_string(&defined, var_name) {
        return None;
    }
    let mut text = String::new();
    push_str(&mut text, var_name);
    push_str(&mut text, " =\n");
    let mut title = String::new();
    push_str(&mut title, "Define variable '");
    push_str(&mut title, var_name);
    push_str(&mut title, "'");
    let p = Position { line: 0, character: 0 };
    Some(make_fix(title, Range { start: p, end: p }, text, uri))
}

fn line_index_at(lines: &Vec<RecipeLine>, o: usize) -> (r: Option<usize>)
    ensures
        match r {
            Some(j) => j < lines@.len() && line_at_in(lines@.map_values(|l: RecipeLine| l@), o as int, 0) == Some(
                lines@[j as int]@,
            ),
            None => line_at_in(lines@.map_values(|l: RecipeLine| l@), o as int, 0) is None,
        },
{
    let ghost lv = lines@.map_values(|l: RecipeLine| l@);
    let mut j: usize = 0;
    while j < lines.len()
        invariant
            j <= lines@.len(),
            lv == lines@.map_values(|l: RecipeLine| l@),
            line_at_in(lv, o as int, 0) == line_at_in(lv, o as int, j as int),
        decreases lines@.len() - j,
    {
        assert(lv[j as int] == lines@[j as int]@);
        if lines[j].range.start as usize <= o && o < lines[j].range.end as usize {
            return Some(j);
        }
        j += 1;
    }
    None
}

fn indent_index(children: &Vec<Element>) -> (r: Option<usize>)
    ensures
        match r {
            Some(k) => k < children@.len() && indent_in(elements_view(children@), 0) == Some(children@[k as int]@),
            None => indent_in(elements_view(children@), 0) is None,
        },
{
    let ghost cv = elements_view(children@);
    let mut k: usize = 0;
    while k < children.len()
        invariant
            k <= children@.len(),
            cv == elements_view(children@),
            indent_in(cv, 0) == indent_in(cv, k as int),
        decreases children@.len() - k,
    {
        assert(cv[k as int] == children@[k as int]@);
        if children[k].is_token && children[k].kind == KIND_INDENT {
            return Some(k);
        }
        k += 1;
    }
    None
}

/// Offer "Replace spaces with tab" for a recipe line indented with spaces.
fn replace_spaces_with_tab_action(makefile: &Makefile, source_text: &str, byte_offset: usize, uri: &str) -> (r: Option<CodeAction>)
    requires
        source_text.spec_bytes().len() <= u32::MAX,
    ensures
        match tab_fix(source_text.spec_bytes(), makefile@, byte_offset as int) {
            Some(f) => r matches Some(a) && is_fix(a, f, uri@),
            None => r is None,
        },
{
    let ghost all = makefile@.recipe_lines;
    let mut i: usize = 0;
    while i < makefile.recipe_lines.len()
        invariant
            i <= makefile.recipe_lines@.len(),
            all == makefile@.recipe_lines,
            all == recipe_lines_view(makefile.recipe_lines@),
            source_text.spec_bytes().len() <= u32::MAX,
            recipe_line_at(all, byte_offset as int, 0) == recipe_line_at(all, byte_offset as int, i as int),
        decreases makefile.recipe_lines@.len() - i,
    {
        let lines = &makefile.recipe_lines[i];
        assert(all[i as int] == lines@.map_values(|l: RecipeLine| l@));
        if let Some(j) = line_index_at(lines, byte_offset) {
            let line = &lines[j];
            let k = indent_index(&line.children)?;
            let tok = &line.children[k];
            if starts_with_tab(tok.text.as_str()) {
                return None;
            }
            let range = text_range_to_lsp_range(source_text, tok.range);
            let mut title = String::new();
            push_str(&mut title, "Replace spaces with tab");
            let mut tab = String::new();
            push_str(&mut tab, "\t");
            return Some(make_fix(title, range, tab, uri));
        }
        i += 1;
    }
    None
}

fn definition_index_at(makefile: &Makefile, o: usize) -> (r: Option<usize>)
    ensures
        match r {
            Some(k) => k < makefile@.variables.len() && definition_at(makefile@.variables, o as int, 0) == Some(
                k as int,
            ),
            None => definition_at(makefile@.variables, o as int, 0) is None,
        },
{
    let ghost vars = makefile@.variables;
    let mut k: usize = 0;
    while k < makefile.variables.len()
        invariant
            k <= makefile.variables@.len(),
            vars == makefile@.variables,
            definition_at(vars, o as int, 0) == definition_at(vars, o as int, k as int),
        decreases makefile.variables@.len() - k,
    {
        assert(vars[k as int] == makefile.variables@[k as int]@);
        let r = makefile.variables[k].range;
        if r.start as usize <= o && o < r.end as usize {
            return Some(k);
        }
        k += 1;
    }
    None
}

/// Build a TextEdit that replaces `old_range` (offsets in
/// `source_text`) with the new text of a changed node.
fn edit_for_node_change(source_text: &str, old_range: TextRange, new_text: String) -> (e: TextEdit)
    requires
        source_text.spec_bytes().len() <= u32::MAX,
    ensures
        e.range == lsp_range(source_text.spec_bytes(), old_range),
        e.new_text@ == new_text@,
{
    TextEdit { range: text_range_to_lsp_range(source_text, old_range), new_text }
}

/// Offer "Remove trailing whitespace" when the cursor is on a variable
/// definition whose value ends in whitespace.
fn remove_trailing_whitespace_action(parsed: &Parse, source_text: &str, byte_offset: usize, uri: &str) -> (r: Option<CodeAction>)
    requires
        source_text.spec_bytes().len() <= u32::MAX,
    ensures
        match trim_fix(source_text.spec_bytes(), source_text@, parsed.makefile@, byte_offset as int) {
            Some(f) => r matches Some(a) && is_fix(a, f, uri@),
            None => r is None,
        },
{
    let makefile = &parsed.makefile;
    let k = definition_index_at(makefile, byte_offset)?;
    let new_text = trim_definition(source_text, k)?;
    assert(makefile@.variables[k as int] == makefile.variables@[k as int]@);
    let edit = edit_for_node_change(source_text, makefile.variables[k].range, new_text);
    let mut title = String::new();
    push_str(&mut title, "Remove trailing whitespace");
    Some(make_fix(title, edit.range, edit.new_text, uri))
}

/// Does some reference call `shell`?
fn calls_shell_exec(refs: &Vec<crate::makefile::VariableReference>) -> (r: bool)
    ensures
        r == calls_shell(crate::makefile::references_view(refs@)),
{
    let ghost rv = crate::makefile::references_view(refs@);
    let mut i: usize = 0;
    while i < refs.len()
        invariant
            i <= refs@.len(),
            rv == crate::makefile::references_view(refs@),
            forall|j: int| 0 <= j < i ==> !((#[trigger] rv[j]).is_function_call && rv[j].name == Some("shell"@)),
        decreases refs@.len() - i,
    {
        assert(rv[i as int] == refs@[i as int]@);
        let r = &refs[i];
        let is_shell = match &r.name {
            Some(n) => str_eq(n.as_str(), "shell"),
            None => false,
        };
        if r.is_function_call && is_shell {
            return true;
        }
        i += 1;
    }
    false
}

/// The definition under the cursor that is recursive and calls `shell`.
fn shell_definition_index(makefile: &Makefile, byte_offset: usize) -> (r: Option<usize>)
    ensures
        match r {
            Some(k) => k < makefile@.variables.len() && shell_definition_at(makefile@, byte_offset as int) == Some(
                k as int,
            ),
            None => shell_definition_at(makefile@, byte_offset as int) is None,
        },
{
    let k = definition_index_at(makefile, byte_offset)?;
    assert(makefile@.variables[k as int] == makefile.variables@[k as int]@);
    let recursive = match &makefile.variables[k].operator {
        Some(op) => str_eq(op.as_str(), "="),
        None => false,
    };
    if !recursive || k >= makefile.definition_references.len() {
        return None;
    }
    assert(makefile@.definition_references[k as int] == crate::makefile::references_view(
        makefile.definition_references@[k as int]@,
    ));
    if !calls_shell_exec(&makefile.definition_references[k]) {
        return None;
    }
    Some(k)
}

/// Offer "Use := for shell expansion" on a recursive (`=`) assignment whose
/// value contains a `$(shell ...)` call — under `=`, the shell command would
/// run on every expansion.
fn convert_to_simply_expanded_action(parsed: &Parse, source_text: &str, byte_offset: usize, uri: &str) -> (r: Option<CodeAction>)
    requires
        source_text.spec_bytes().len() <= u32::MAX,
    ensures
        match simple_fix(source_text.spec_bytes(), source_text@, parsed.makefile@, byte_offset as int) {
            Some(f) => r matches Some(a) && is_fix(a, f, uri@),
            None => r is None,
        },
{
    let makefile = &parsed.makefile;
    let k = shell_definition_index(makefile, byte_offset)?;
    let new_text = set_operator(source_text, k, ":=")?;
    assert(makefile@.variables[k as int] == makefile.variables@[k as int]@);
    let edit = edit_for_node_change(source_text, makefile.variables[k].range, new_text);
    let mut title = String::new();
    push_str(&mut title, "Use := for shell expansion");
    Some(make_fix(title, edit.range, edit.new_text, uri))
}

/// Appends the action, if any.
fn push_fix(out: &mut Vec<CodeAction>, a: Option<CodeAction>, Ghost(f): Ghost<Option<FixView>>, Ghost(done): Ghost<Seq<Option<FixView>>>, uri: &str)
    requires
        are_fixes(old(out)@, done, uri@),
        match f {
            Some(fx) => a matches Some(x) && is_fix(x, fx, uri@),
            None => a is None,
        },
    ensures
        are_fixes(final(out)@, done.push(f), uri@),
{
    assert(done.push(f).drop_last() =~= done);
    let ghost before = out@;
    match a {
        Some(x) => {
            out.push(x);
            assert(out@.drop_last() =~= before);
        },
        None => {},
    }
}

/// Generate code actions for the given range.
pub fn get_code_actions(parsed: &Parse, source_text: &str, range: Range, uri: &str) -> (r: Vec<CodeAction>)
    requires
        source_text.spec_bytes().len() <= u32::MAX,
        spec_position_to_offset(source_text.spec_bytes(), range.start) matches Some(o) ==> operator_change_accepted(
            source_text@,
            parsed.makefile@,
            o,
        ),
    ensures
        are_fixes(r@, spec_code_actions(source_text.spec_bytes(), source_text@, parsed.makefile@, range), uri@),
{
    let ghost bs = source_text.spec_bytes();
    let ghost text = source_text@;
    let ghost m = parsed.makefile@;
    let mut actions: Vec<CodeAction> = Vec::new();
    let byte_offset = match try_position_to_offset(source_text, range.start) {
        Some(o) => o,
        None => {
            return actions;
        },
    };
    let ghost o = byte_offset as int;
    let makefile = &parsed.makefile;
    let ghost empty: Seq<Option<FixView>> = seq![];
    let a = add_phony_action(makefile, source_text, byte_offset, uri);
    push_fix(&mut actions, a, Ghost(phony_fix(bs, m, o)), Ghost(empty), uri);
    let ghost d1 = empty.push(phony_fix(bs, m, o));
    let a = define_variable_action(makefile, source_text, byte_offset, uri);
    push_fix(&mut actions, a, Ghost(define_fix(text, m, o)), Ghost(d1), uri);
    let ghost d2 = d1.push(define_fix(text, m, o));
    let a = replace_spaces_with_tab_action(makefile, source_text, byte_offset, uri);
    push_fix(&mut actions, a, Ghost(tab_fix(bs, m, o)), Ghost(d2), uri);
    let ghost d3 = d2.push(tab_fix(bs, m, o));
    let a = remove_trailing_whitespace_action(parsed, source_text, byte_offset, uri);
    push_fix(&mut actions, a, Ghost(trim_fix(bs, text, m, o)), Ghost(d3), uri);
    let ghost d4 = d3.push(trim_fix(bs, text, m, o));
    let a = convert_to_simply_expanded_action(parsed, source_text, byte_offset, uri);
    push_fix(&mut actions, a, Ghost(simple_fix(bs, text, m, o)), Ghost(d4), uri);
    assert(d4.push(simple_fix(bs, text, m, o)) =~= spec_code_actions(bs, text, m, range));
    actions
}

/// The code actions at the start of `range`, or `None` where the action of
/// `:=` would apply but `makefile_lossless` refuses the operator (the one
/// case `get_code_actions` leaves out).
pub fn code_actions_checked(parsed: &Parse, source_text: &str, range: Range, uri: &str) -> (r: Option<Vec<CodeAction>>)
    requires
        source_text.spec_bytes().len() <= u32::MAX,
    ensures
        match spec_position_to_offset(source_text.spec_bytes(), range.start) {
            Some(o) => if operator_change_accepted(source_text@, parsed.makefile@, o) {
                r matches Some(v) && are_fixes(
                    v@,
                    spec_code_actions(source_text.spec_bytes(), source_text@, parsed.makefile@, range),
                    uri@,
                )
            } else {
                r is None
            },
            None => r matches Some(v) && v@.len() == 0,
        },
{
    if let Some(o) = try_position_to_offset(source_text, range.start) {
        if let Some(k) = shell_definition_index(&parsed.makefile, o) {
            if set_operator(source_text, k, ":=").is_none() {
                return None;
            }
        }
    }
    let v = get_code_actions(parsed, source_text, range, uri);
    proof {
        if spec_position_to_offset(source_text.spec_bytes(), range.start) is None {
            assert(spec_code_actions(source_text.spec_bytes(), source_text@, parsed.makefile@, range) =~= seq![]);
        }
    }
    Some(v)
}

} // verus!
